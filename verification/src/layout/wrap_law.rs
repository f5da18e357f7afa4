//! Lowering a flip or a slice: their index expressions wrap around 64 bits
//! (a flip multiplies by `2^64 - 1`, a slice adds `2^64 - start`), and still
//! evaluate to the flipped or shifted coordinate wherever the layout maps the
//! point. They are shown here as the last layer of a lowering.
use vstd::prelude::*;
use crate::space::{SpaceV, valid_coords, eval_extent};
use crate::layout::scalar::{ScalarV, eval_scalar, simp_f, simp_ok_f, simplify_scalar, simplify_scalar_ok, scalar_size, add_rule, mul_rule, is_cst, add_ok, mul_ok};
use crate::layout::expr::{ExprV, expr_source, expr_target};
use crate::layout::apply::{expr_apply, expr_apply_ok, ext_at, slice_map};
use crate::layout::lower::{
    expr_lower, expr_lower_ok, sc, add_of, mul_of, flip_expr, slice_shift, ext_or_one, lower_flip_spec, lower_slice_spec,
    lower_flip_ok, lower_slice_ok,
};
use crate::layout::simplify_law::{no_wrap, conditions_only, kept, lemma_simp};
use crate::layout::lower_law::{values, clean, lowering_covered, lowering_agrees, lemma_lowering_computes_map};

verus! {

/// Simplifying `y + k`, for a constant `k`, keeps its value modulo 2^64.
proof fn lemma_add_const_wrap(y: ScalarV, k: u64, x: Seq<u64>, g: nat)
    requires
        g >= scalar_size(y) + 2,
        simp_ok_f(add_of(y, sc(k)), g),
        no_wrap(y, x),
        conditions_only(y),
    ensures
        eval_scalar(simp_f(add_of(y, sc(k)), g), x) == eval_scalar(y, x).wrapping_add(k),
    decreases g,
{
    let h = (g - 1) as nat;
    assert(simp_f(sc(k), h) == sc(k));
    lemma_simp(y, x, h);
    let sy = simp_f(y, h);
    let ey = eval_scalar(y, x);
    assert(simp_f(add_of(y, sc(k)), g) == add_rule(sy, sc(k), h));
    assert(add_ok(sy, sc(k), h));
    assert(eval_scalar(sy, x) == ey);
    if is_cst(sy, 0) {
        assert(ey == 0);
        assert(ey.wrapping_add(k) == k);
        assert(eval_scalar(add_rule(sy, sc(k), h), x) == ey.wrapping_add(k));
    } else if is_cst(sc(k), 0) {
        assert(ey.wrapping_add(k) == ey);
        assert(eval_scalar(add_rule(sy, sc(k), h), x) == ey.wrapping_add(k));
    } else if sy is Constant {
        assert(ey + k <= u64::MAX);
        assert(ey.wrapping_add(k) == ey + k);
        assert(eval_scalar(add_rule(sy, sc(k), h), x) == ey.wrapping_add(k));
    } else if sy is Add && (*sy->Add_1) is Constant {
        let z = *sy->Add_0;
        let c1 = (*sy->Add_1)->Constant_0;
        assert(no_wrap(z, x));
        assert(conditions_only(z));
        assert(eval_scalar(sy, x) == eval_scalar(z, x) + c1);
        assert(scalar_size(*sy->Add_1) == 1);
        assert(scalar_size(sy) == scalar_size(z) + 2);
        assert(ScalarV::Add(sy->Add_0, Box::new(crate::layout::scalar::cst((c1 + k) as u64))) == add_of(z, sc((c1 + k) as u64)));
        lemma_add_const_wrap(z, (c1 + k) as u64, x, h);
        let ez = eval_scalar(z, x);
        assert(c1 + k <= u64::MAX);
        assert(ez.wrapping_add((c1 + k) as u64) == ey.wrapping_add(k));
        assert(eval_scalar(add_rule(sy, sc(k), h), x) == ey.wrapping_add(k));
    } else {
        let r = ScalarV::Add(Box::new(sy), Box::new(sc(k)));
        assert(add_rule(sy, sc(k), h) == r);
        assert(eval_scalar(sc(k), x) == k);
        assert(eval_scalar(r, x) == eval_scalar(sy, x).wrapping_add(eval_scalar(sc(k), x)));
    }
}

/// `(2^64 - 1) * v` modulo 2^64 is `2^64 - v` for a positive `v`.
proof fn lemma_mul_max_wrap(v: u64)
    ensures
        u64::MAX.wrapping_mul(v) == if v == 0 { 0 } else { (0x1_0000_0000_0000_0000 - v) as u64 },
{
    let m: int = 0x1_0000_0000_0000_0000;
    if v > 0 {
        assert(u64::MAX as int * v as int == m * (v - 1) + (m - v)) by (nonlinear_arith)
            requires
                m == u64::MAX + 1,
        ;
        vstd::arithmetic::div_mod::lemma_fundamental_div_mod_converse(
            u64::MAX as int * v as int,
            m,
            (v - 1) as int,
            m - v,
        );
    }
}

/// The flipped coordinate expression of `c` evaluates to `n - 1 - c` where
/// `c` is below `n`.
proof fn lemma_flip_expr(c: ScalarV, n: u64, x: Seq<u64>)
    requires
        n >= 1,
        simplify_scalar_ok(add_of(sc((n - 1) as u64), mul_of(sc(u64::MAX), c))),
        no_wrap(c, x),
        conditions_only(c),
        eval_scalar(c, x) < n,
    ensures
        eval_scalar(flip_expr(c, n), x) == n - 1 - eval_scalar(c, x),
{
    let e = add_of(sc((n - 1) as u64), mul_of(sc(u64::MAX), c));
    assert(scalar_size(sc(u64::MAX)) == 1);
    assert(scalar_size(sc((n - 1) as u64)) == 1);
    assert(scalar_size(mul_of(sc(u64::MAX), c)) == scalar_size(c) + 2);
    assert(scalar_size(e) == scalar_size(c) + 4);
    let f = scalar_size(e);
    assert(simp_ok_f(e, f));
    let g = (f - 1) as nat;
    let h = (g - 1) as nat;
    let v = eval_scalar(c, x);
    assert(simp_ok_f(mul_of(sc(u64::MAX), c), g));
    assert(simp_ok_f(c, h));
    lemma_simp(c, x, h);
    let s_c = simp_f(c, h);
    assert(simp_f(sc(u64::MAX), h) == sc(u64::MAX));
    assert(simp_f(sc((n - 1) as u64), g) == sc((n - 1) as u64));
    let mm = mul_rule(sc(u64::MAX), s_c);
    assert(simp_f(mul_of(sc(u64::MAX), c), g) == mm);
    assert(simp_f(e, f) == add_rule(sc((n - 1) as u64), mm, g));
    assert(mul_ok(sc(u64::MAX), s_c));
    lemma_mul_max_wrap(v);
    let wm = u64::MAX.wrapping_mul(v);
    assert(eval_scalar(s_c, x) == v);
    assert(eval_scalar(mm, x) == wm) by {
        if is_cst(s_c, 1) {
            assert(mm == sc(u64::MAX));
            assert(v == 1);
        } else if is_cst(s_c, 0) {
            assert(mm == sc(0));
            assert(v == 0);
        } else if s_c is Constant {
            assert(u64::MAX * s_c->Constant_0 <= u64::MAX);
            assert(s_c->Constant_0 <= 1) by (nonlinear_arith)
                requires
                    u64::MAX * s_c->Constant_0 <= u64::MAX,
            ;
        } else {
            let r = ScalarV::Mul(Box::new(sc(u64::MAX)), Box::new(s_c));
            assert(mm == r);
            assert(eval_scalar(r, x) == eval_scalar(sc(u64::MAX), x).wrapping_mul(eval_scalar(s_c, x)));
        }
    }
    assert(add_ok(sc((n - 1) as u64), mm, g));
    let a = sc((n - 1) as u64);
    let target = n - 1 - v;
    assert(eval_scalar(add_rule(a, mm, g), x) == target) by {
        if is_cst(a, 0) {
            assert(n == 1 && v == 0);
        } else if is_cst(mm, 0) {
            assert(wm == 0);
            assert(v == 0);
        } else if mm is Constant {
            let cm = mm->Constant_0;
            assert(cm == wm);
            assert((n - 1) + cm <= u64::MAX);
            if v > 0 {
                assert(cm == 0x1_0000_0000_0000_0000 - v);
            }
            assert(v == 0);
        } else {
            let r = ScalarV::Add(Box::new(a), Box::new(mm));
            assert(add_rule(a, mm, g) == r);
            assert(eval_scalar(r, x) == eval_scalar(a, x).wrapping_add(eval_scalar(mm, x)));
            assert(((n - 1) as u64).wrapping_add(wm) == target);
        }
    }
}

/// Lowering a flip computes it where it maps the values of its inputs.
proof fn lemma_lower_flip_values(s: SpaceV, dims: Seq<bool>, vars: Map<Seq<char>, u64>, ins: Seq<ScalarV>, x: Seq<u64>)
    requires
        ins.len() == s.len(),
        expr_lower_ok(ExprV::Flip(s, dims), vars, ins),
        clean(ins, x),
        expr_apply_ok(ExprV::Flip(s, dims), vars, values(ins, x)),
        expr_apply(ExprV::Flip(s, dims), vars, values(ins, x)) is Some,
    ensures
        values(expr_lower(ExprV::Flip(s, dims), vars, ins).0, x) == expr_apply(
            ExprV::Flip(s, dims),
            vars,
            values(ins, x),
        )->0,
{
    let e = ExprV::Flip(s, dims);
    let v = values(ins, x);
    let outs = lower_flip_spec(s, dims, vars, ins);
    assert(expr_lower(e, vars, ins).0 == outs);
    assert(lower_flip_ok(s, dims, vars, ins));
    assert(valid_coords(s, vars, v));
    let y = expr_apply(e, vars, v)->0;
    assert forall|i: int| 0 <= i < ins.len() implies #[trigger] values(outs, x)[i] == y[i] by {
        assert(eval_extent(s[i].extent, vars) is Some);
        assert(v[i] == eval_scalar(ins[i], x));
        if dims[i] {
            let n = ext_or_one(s, vars, i);
            assert(n == ext_at(s, vars, i)->0);
            lemma_flip_expr(ins[i], n, x);
        }
    }
    assert(values(outs, x) =~= y);
}

/// Lowering a slice computes it where it maps the values of its inputs.
proof fn lemma_lower_slice_values(s: SpaceV, ranges: Seq<(u64, u64)>, vars: Map<Seq<char>, u64>, ins: Seq<ScalarV>, x: Seq<u64>)
    requires
        ins.len() == s.len(),
        expr_lower_ok(ExprV::Slice(s, ranges), vars, ins),
        clean(ins, x),
        expr_apply_ok(ExprV::Slice(s, ranges), vars, values(ins, x)),
        expr_apply(ExprV::Slice(s, ranges), vars, values(ins, x)) is Some,
    ensures
        values(expr_lower(ExprV::Slice(s, ranges), vars, ins).0, x) == expr_apply(
            ExprV::Slice(s, ranges),
            vars,
            values(ins, x),
        )->0,
{
    let e = ExprV::Slice(s, ranges);
    let v = values(ins, x);
    let outs = expr_lower(e, vars, ins).0;
    assert(lower_slice_ok(ranges, crate::layout::lower::domain_of(s, vars, ins, s.len() as int), ins));
    assert(slice_map(ranges, v) is Some);
    let y = expr_apply(e, vars, v)->0;
    assert forall|i: int| 0 <= i < ins.len() implies #[trigger] values(outs, x)[i] == y[i] by {
        let start = ranges[i].0;
        let k = (0u64).wrapping_sub(start);
        let c = add_of(ins[i], sc(k));
        assert(outs[i] == slice_shift(ins[i], start));
        assert(simplify_scalar_ok(c));
        assert(scalar_size(sc(k)) == 1);
        assert(scalar_size(c) == scalar_size(ins[i]) + 2);
        assert(simp_ok_f(c, scalar_size(c)));
        lemma_add_const_wrap(ins[i], k, x, scalar_size(c));
        assert(v[i] == eval_scalar(ins[i], x));
        assert(start <= v[i] < ranges[i].1) by {
            if !(start <= v[i] < ranges[i].1) {
                assert(!(ranges[i].0 <= v[i] < ranges[i].1));
            }
        }
        assert(y[i] == (v[i] - start) as u64);
    }
    assert(values(outs, x) =~= y);
}

/// The layouts whose last layer is a flip or a slice, lowered here: a flip or
/// a slice alone, or one after a layout whose lowering is shown to compute
/// its map (see [`lowering_covered`]) and whose target has as many
/// dimensions as its source.
pub open spec fn final_layer_covered(e: ExprV) -> bool {
    match e {
        ExprV::Flip(_, _) => true,
        ExprV::Slice(_, _) => true,
        ExprV::Composition(l1, l2) => {
            &&& lowering_covered(*l1)
            &&& ((*l2) is Flip || (*l2) is Slice)
            &&& expr_target(*l1).len() == expr_source(*l2).len()
        },
        _ => false,
    }
}

/// The lowering of a layout whose last layer is a flip or a slice (see
/// [`final_layer_covered`]) evaluates, at every point where the layout maps
/// the values of its inputs, to the image, although the index arithmetic of
/// the flip or slice wraps around 64 bits.
pub proof fn lemma_lowering_with_final_flip_or_slice(
    e: ExprV,
    vars: Map<Seq<char>, u64>,
    ins: Seq<ScalarV>,
    x: Seq<u64>,
)
    requires
        final_layer_covered(e),
        expr_lower_ok(e, vars, ins),
        ins.len() == expr_source(e).len(),
        clean(ins, x),
        expr_apply_ok(e, vars, values(ins, x)),
        expr_apply(e, vars, values(ins, x)) is Some,
    ensures
        values(expr_lower(e, vars, ins).0, x) == expr_apply(e, vars, values(ins, x))->0,
{
    match e {
        ExprV::Flip(s, dims) => lemma_lower_flip_values(s, dims, vars, ins, x),
        ExprV::Slice(s, ranges) => lemma_lower_slice_values(s, ranges, vars, ins, x),
        ExprV::Composition(l1, l2) => {
            lemma_lowering_computes_map(*l1, vars, ins, x);
            let mid = expr_lower(*l1, vars, ins).0;
            let m = expr_apply(*l1, vars, values(ins, x))->0;
            assert(values(mid, x) == m);
            match *l2 {
                ExprV::Flip(s, dims) => lemma_lower_flip_values(s, dims, vars, mid, x),
                ExprV::Slice(s, ranges) => lemma_lower_slice_values(s, ranges, vars, mid, x),
                _ => {},
            }
        },
        _ => {},
    }
}

} // verus!
