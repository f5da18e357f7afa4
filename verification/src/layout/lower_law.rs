//! Lowering computes the layout: at every point where the layout maps its
//! input, the lowered index expressions evaluate to the image.
use vstd::prelude::*;
use crate::space::{
    opt_extents, all_some, unwrap_all, delinearize_ok, spec_delinearize, spec_linearize,
    SpaceV, permuted, valid_coords, extents, prod, lin_value, scatter, positions_below, lemma_scatter_len,
    lemma_prod_skip, lemma_prod_split, lemma_prod_positive, lemma_lin_bound, eval_extent,
};
use crate::layout::scalar::{ScalarV, eval_scalar, simplify_scalar, bit_linear};
use crate::layout::expr::{ExprV, expr_source, expr_target, split_space, join_space};
use crate::layout::apply::{expr_apply, expr_apply_ok, ext_at, some_unvalued, prefix_valued};
use crate::layout::lower::{
    delin_off, lower_delin, lower_delin_ok, lower_reshape_spec, lower_reshape_ok, shadow_offset,
    lower_shadow_spec, lower_shadow_ok, lower_split_spec, lower_join_spec, lower_pad_spec, lower_repeat_spec, lower_broadcast_spec,
    lower_split_ok, lower_join_ok, lower_pad_ok, lower_repeat_ok, lower_lin, lower_lin_ok, expr_lower, expr_lower_ok, sc, add_of, mul_of, div_of, mod_of, lin_fold, ext_or_one,
    lower_permute_spec,
};
use crate::layout::simplify_law::{no_wrap, conditions_only, lemma_simplify_keeps_value};
use crate::analysis::input_scalars;

verus! {

/// The values of index expressions at the point `x`.
pub open spec fn values(ins: Seq<ScalarV>, x: Seq<u64>) -> Seq<u64> {
    Seq::new(ins.len(), |i: int| eval_scalar(ins[i], x))
}

/// Index expressions whose arithmetic stays within 64 bits at `x` and whose
/// conjunctions join conditions.
pub open spec fn clean(ins: Seq<ScalarV>, x: Seq<u64>) -> bool {
    forall|i: int| 0 <= i < ins.len() ==> no_wrap(#[trigger] ins[i], x) && conditions_only(ins[i])
}

/// The layouts whose lowering uses only arithmetic that does not wrap around
/// (all but slices and flips, which are shown as a last layer in
/// [`crate::layout::wrap_law`]),
/// composed where the first part's target has as many dimensions as the
/// second's source, and with broadcasts, repeats and pads between spaces of
/// the same rank.
pub open spec fn lowering_covered(e: ExprV) -> bool
    decreases e,
{
    match e {
        ExprV::Composition(l1, l2) => lowering_covered(*l1) && lowering_covered(*l2) && expr_target(
            *l1,
        ).len() == expr_source(*l2).len(),
        ExprV::Product(l1, l2) => lowering_covered(*l1) && lowering_covered(*l2),
        ExprV::Identity(_) => true,
        ExprV::Linearize(_) => true,
        ExprV::Permute(_, _) => true,
        ExprV::Squeeze(_, _) => true,
        ExprV::Unsqueeze(_, _, _) => true,
        ExprV::Split(_, _, _) => true,
        ExprV::Join(_, _) => true,
        ExprV::Delinearize(_) => true,
        ExprV::Reshape(_, _) => true,
        ExprV::BinaryShadow(_, _) => true,
        ExprV::Broadcast(s, t) => s.len() == t.len(),
        ExprV::Repeat(s, t) => s.len() == t.len(),
        ExprV::Pad(s, t, _) => s.len() == t.len(),
        _ => false,
    }
}

/// What the lowering of `e` on `ins` computes at `x`, when `e` maps the
/// values of `ins` there.
pub open spec fn lowering_agrees(e: ExprV, vars: Map<Seq<char>, u64>, ins: Seq<ScalarV>, x: Seq<u64>) -> bool {
    let outs = expr_lower(e, vars, ins).0;
    &&& values(outs, x) == expr_apply(e, vars, values(ins, x))->0
    &&& clean(outs, x)
    &&& outs.len() == expr_target(e).len()
}

pub proof fn lemma_values_take(ins: Seq<ScalarV>, x: Seq<u64>, n: int)
    requires
        0 <= n <= ins.len(),
    ensures
        values(ins.take(n), x) == values(ins, x).take(n),
        values(ins.skip(n), x) == values(ins, x).skip(n),
{
    assert(values(ins.take(n), x) =~= values(ins, x).take(n));
    assert(values(ins.skip(n), x) =~= values(ins, x).skip(n));
}

proof fn lemma_scatter_values(base: Seq<ScalarV>, ins: Seq<ScalarV>, p: Seq<usize>, x: Seq<u64>, k: int)
    requires
        0 <= k <= p.len(),
        k <= ins.len(),
        positions_below(p, base.len() as int),
    ensures
        values(scatter(base, ins, p, k), x) == scatter(values(base, x), values(ins, x), p, k),
        clean(base, x) && clean(ins, x) ==> clean(scatter(base, ins, p, k), x),
    decreases k,
{
    lemma_scatter_len(base, ins, p, k);
    lemma_scatter_len(values(base, x), values(ins, x), p, k);
    if k > 0 {
        lemma_scatter_values(base, ins, p, x, k - 1);
        lemma_scatter_len(base, ins, p, k - 1);
        let prev = scatter(base, ins, p, k - 1);
        assert(values(prev.update(p[k - 1] as int, ins[k - 1]), x) =~= values(prev, x).update(
            p[k - 1] as int,
            eval_scalar(ins[k - 1], x),
        ));
    }
}


proof fn lemma_lower_composition(
    l1: ExprV,
    l2: ExprV,
    vars: Map<Seq<char>, u64>,
    ins: Seq<ScalarV>,
    x: Seq<u64>,
)
    requires
        ins.len() == expr_source(l1).len(),
        expr_apply(l1, vars, values(ins, x)) is Some,
        lowering_agrees(l1, vars, ins, x),
        lowering_agrees(l2, vars, expr_lower(l1, vars, ins).0, x),
        expr_apply(l2, vars, expr_apply(l1, vars, values(ins, x))->0) is Some,
    ensures
        lowering_agrees(ExprV::Composition(Box::new(l1), Box::new(l2)), vars, ins, x),
{
    let e = ExprV::Composition(Box::new(l1), Box::new(l2));
    assert(expr_source(e) == expr_source(l1));
    assert(expr_target(e) == expr_target(l2));
    let mid = expr_lower(l1, vars, ins);
    assert(expr_lower(e, vars, ins).0 == expr_lower(l2, vars, mid.0).0);
}

proof fn lemma_lower_product(
    l1: ExprV,
    l2: ExprV,
    vars: Map<Seq<char>, u64>,
    ins: Seq<ScalarV>,
    x: Seq<u64>,
)
    requires
        ins.len() == expr_source(l1).len() + expr_source(l2).len(),
        expr_apply(l1, vars, values(ins.take(expr_source(l1).len() as int), x)) is Some,
        expr_apply(l2, vars, values(ins.skip(expr_source(l1).len() as int), x)) is Some,
        lowering_agrees(l1, vars, ins.take(expr_source(l1).len() as int), x),
        lowering_agrees(l2, vars, ins.skip(expr_source(l1).len() as int), x),
    ensures
        lowering_agrees(ExprV::Product(Box::new(l1), Box::new(l2)), vars, ins, x),
{
    let e = ExprV::Product(Box::new(l1), Box::new(l2));
    let n1 = expr_source(l1).len() as int;
    lemma_values_take(ins, x, n1);
    assert(expr_source(e) == expr_source(l1) + expr_source(l2));
    assert(expr_target(e) == expr_target(l1) + expr_target(l2));
    let a = expr_lower(l1, vars, ins.take(n1)).0;
    let b = expr_lower(l2, vars, ins.skip(n1)).0;
    assert(expr_lower(e, vars, ins).0 == a + b);
    assert(values(a + b, x) =~= values(a, x) + values(b, x));
    assert(expr_apply(e, vars, values(ins, x)) == Some(values(a, x) + values(b, x)));
}

proof fn lemma_lower_permute(s: SpaceV, p: Seq<usize>, vars: Map<Seq<char>, u64>, ins: Seq<ScalarV>, x: Seq<u64>)
    requires
        ins.len() == s.len(),
        clean(ins, x),
        expr_apply_ok(ExprV::Permute(s, p), vars, values(ins, x)),
        expr_apply(ExprV::Permute(s, p), vars, values(ins, x)) is Some,
    ensures
        lowering_agrees(ExprV::Permute(s, p), vars, ins, x),
{
    let base = Seq::new(s.len(), |i: int| sc(0));
    assert(values(base, x) =~= Seq::new(s.len(), |i: int| 0u64));
    assert(valid_coords(s, vars, values(ins, x)));
    lemma_scatter_values(base, ins, p, x, p.len() as int);
    assert(lower_permute_spec(s, p, ins) == scatter(base, ins, p, p.len() as int));
    lemma_scatter_len(base, ins, p, p.len() as int);
    assert(clean(base, x));
    assert(expr_target(ExprV::Permute(s, p)) == permuted(s, p));
    lemma_scatter_len(Seq::new(s.len(), |j: int| crate::space::blank_factor()), s, p, p.len() as int);
}


/// The offset expression built from coordinate `i` on evaluates to the
/// row-major offset of those coordinates, with the volume after them as
/// stride, without wrapping.
proof fn lemma_lin_fold(s: SpaceV, vars: Map<Seq<char>, u64>, ins: Seq<ScalarV>, x: Seq<u64>, i: int)
    requires
        0 <= i <= s.len(),
        ins.len() == s.len(),
        clean(ins, x),
        valid_coords(s, vars, values(ins, x)),
        prod(extents(s, vars)) <= u64::MAX,
    ensures
        lin_fold(s, vars, ins, i).1 == prod(extents(s, vars).skip(i)),
        eval_scalar(lin_fold(s, vars, ins, i).0, x) == lin_value(
            extents(s, vars).skip(i),
            values(ins, x).skip(i),
        ),
        no_wrap(lin_fold(s, vars, ins, i).0, x),
        conditions_only(lin_fold(s, vars, ins, i).0),
    decreases s.len() - i,
{
    let ex = extents(s, vars);
    let v = values(ins, x);
    if i == s.len() {
        assert(ex.skip(i).len() == 0);
        assert(prod(ex.skip(i)) == 1);
    } else {
        lemma_lin_fold(s, vars, ins, x, i + 1);
        let (off, st) = lin_fold(s, vars, ins, i + 1);
        assert(eval_extent(s[i].extent, vars) is Some);
        assert(ext_or_one(s, vars, i) == ex[i]);
        assert forall|j: int| 0 <= j < ex.len() implies #[trigger] ex[j] > 0 by {
            assert(eval_extent(s[j].extent, vars) is Some);
            assert(v[j] < ex[j]);
        }
        lemma_prod_skip(ex, i);
        lemma_prod_split(ex, i);
        lemma_prod_positive(ex.take(i));
        lemma_prod_positive(ex.skip(i));
        let pt = prod(ex.take(i));
        let ps = prod(ex.skip(i));
        assert(ps <= pt * ps) by (nonlinear_arith)
            requires
                pt >= 1,
        ;
        assert(ex.skip(i).drop_first() =~= ex.skip(i + 1));
        assert(v.skip(i).drop_first() =~= v.skip(i + 1));
        assert(v.skip(i)[0] == v[i]);
        assert forall|j: int| 0 <= j < ex.skip(i).len() implies #[trigger] v.skip(i)[j] < ex.skip(i)[j] by {
            assert(eval_extent(s[i + j].extent, vars) is Some);
        }
        lemma_lin_bound(ex.skip(i), v.skip(i));
        let lv = lin_value(ex.skip(i), v.skip(i));
        let rest = lin_value(ex.skip(i + 1), v.skip(i + 1));
        assert(lv == v[i] as nat * st + rest);
        assert(ps == ex[i] as nat * st);
        assert(st <= ps) by (nonlinear_arith)
            requires
                ps == ex[i] as nat * st,
                ex[i] >= 1,
        ;
        assert(st <= u64::MAX);
        assert(v[i] as nat * st <= u64::MAX);
        assert(eval_scalar(sc(st as u64), x) == st);
        assert(v[i] == eval_scalar(ins[i], x));
        assert(no_wrap(ins[i], x));
        assert(conditions_only(ins[i]));
        let m = mul_of(ins[i], sc(st as u64));
        assert(eval_scalar(ins[i], x) * eval_scalar(sc(st as u64), x) <= u64::MAX);
        vstd::arithmetic::div_mod::lemma_small_mod((v[i] as nat * st) as nat, 0x10000000000000000);
        assert(eval_scalar(m, x) == v[i] as nat * st);
        assert(no_wrap(sc(st as u64), x));
        assert(conditions_only(sc(st as u64)));
        assert(no_wrap(m, x));
        assert(conditions_only(m));
        assert(lin_fold(s, vars, ins, i).0 == add_of(off, m));
        assert(eval_scalar(off, x) + eval_scalar(m, x) <= u64::MAX);
        assert(lin_fold(s, vars, ins, i).1 == (st * ext_or_one(s, vars, i)) as nat);
        assert(st * ex[i] == ex[i] * st) by (nonlinear_arith);
    }
}

pub proof fn lemma_lower_linearize(s: SpaceV, vars: Map<Seq<char>, u64>, ins: Seq<ScalarV>, x: Seq<u64>)
    requires
        ins.len() == s.len(),
        clean(ins, x),
        expr_lower_ok(ExprV::Linearize(s), vars, ins),
        expr_apply_ok(ExprV::Linearize(s), vars, values(ins, x)),
        expr_apply(ExprV::Linearize(s), vars, values(ins, x)) is Some,
    ensures
        lowering_agrees(ExprV::Linearize(s), vars, ins, x),
{
    let e = ExprV::Linearize(s);
    let ex = extents(s, vars);
    let v = values(ins, x);
    assert(valid_coords(s, vars, v));
    assert(prod(ex) <= u64::MAX);
    lemma_lin_fold(s, vars, ins, x, 0);
    assert(ex.skip(0) =~= ex);
    assert(v.skip(0) =~= v);
    assert(lower_lin_ok(s, vars, ins));
    let off = lin_fold(s, vars, ins, 0).0;
    lemma_simplify_keeps_value(off, x);
    assert(expr_lower(e, vars, ins) == lower_lin(s, vars, ins));
    let outs = seq![simplify_scalar(off)];
    assert(expr_lower(e, vars, ins).0 == outs);
    assert forall|j: int| 0 <= j < ex.len() implies #[trigger] v[j] < ex[j] by {
        assert(eval_extent(s[j].extent, vars) is Some);
    }
    lemma_lin_bound(ex, v);
    assert(values(outs, x) =~= seq![lin_value(ex, v) as u64]);
}


proof fn lemma_lower_split(s: SpaceV, idx: usize, n1: u64, vars: Map<Seq<char>, u64>, ins: Seq<ScalarV>, x: Seq<u64>)
    requires
        ins.len() == s.len(),
        clean(ins, x),
        expr_lower_ok(ExprV::Split(s, idx, n1), vars, ins),
        expr_apply_ok(ExprV::Split(s, idx, n1), vars, values(ins, x)),
        expr_apply(ExprV::Split(s, idx, n1), vars, values(ins, x)) is Some,
    ensures
        lowering_agrees(ExprV::Split(s, idx, n1), vars, ins, x),
{
    let e = ExprV::Split(s, idx, n1);
    let v = values(ins, x);
    let i = idx as int;
    assert(valid_coords(s, vars, v));
    assert(lower_split_ok(i, n1, ins));
    let a = ins[i];
    let d = div_of(a, sc(n1));
    let m = mod_of(a, sc(n1));
    assert(no_wrap(a, x) && conditions_only(a));
    assert(no_wrap(sc(n1), x) && conditions_only(sc(n1)));
    assert(eval_scalar(sc(n1), x) == n1);
    assert(n1 != 0);
    assert(eval_scalar(a, x) == v[i]);
    assert(no_wrap(d, x) && conditions_only(d));
    assert(no_wrap(m, x) && conditions_only(m));
    lemma_simplify_keeps_value(d, x);
    lemma_simplify_keeps_value(m, x);
    assert(eval_scalar(d, x) == v[i] / n1);
    assert(eval_scalar(m, x) == v[i] % n1);
    let outs = lower_split_spec(i, n1, ins);
    assert(expr_lower(e, vars, ins).0 == outs);
    let y = v.remove(i).insert(i, (v[i] / n1) as u64).insert(i + 1, (v[i] % n1) as u64);
    assert(values(outs, x) =~= y);
    assert(expr_target(e) == split_space(s, i, n1));
}

#[verifier::rlimit(80)]
proof fn lemma_lower_join(s: SpaceV, idx: usize, vars: Map<Seq<char>, u64>, ins: Seq<ScalarV>, x: Seq<u64>)
    requires
        ins.len() == s.len(),
        clean(ins, x),
        expr_lower_ok(ExprV::Join(s, idx), vars, ins),
        expr_apply_ok(ExprV::Join(s, idx), vars, values(ins, x)),
        expr_apply(ExprV::Join(s, idx), vars, values(ins, x)) is Some,
    ensures
        lowering_agrees(ExprV::Join(s, idx), vars, ins, x),
{
    let e = ExprV::Join(s, idx);
    let v = values(ins, x);
    let i = idx as int;
    assert(valid_coords(s, vars, v));
    let n2 = ext_or_one(s, vars, i + 1);
    assert(eval_extent(s[i + 1].extent, vars) is Some);
    assert(n2 == ext_at(s, vars, i + 1)->0);
    assert(lower_join_ok(n2, i, ins));
    let a = ins[i];
    let b = ins[i + 1];
    let mm = mul_of(a, sc(n2));
    let sum = add_of(mm, b);
    assert(no_wrap(a, x) && conditions_only(a));
    assert(no_wrap(b, x) && conditions_only(b));
    assert(v[i] * n2 + v[i + 1] <= u64::MAX);
    assert(v[i] * n2 <= u64::MAX);
    vstd::arithmetic::div_mod::lemma_small_mod((v[i] * n2) as nat, 0x10000000000000000);
    assert(eval_scalar(sc(n2), x) == n2);
    assert(eval_scalar(a, x) == v[i]);
    assert(eval_scalar(b, x) == v[i + 1]);
    assert(eval_scalar(mm, x) == v[i] * n2);
    assert(no_wrap(sc(n2), x) && conditions_only(sc(n2)));
    assert(no_wrap(mm, x) && conditions_only(mm));
    assert(no_wrap(sum, x) && conditions_only(sum));
    lemma_simplify_keeps_value(sum, x);
    let outs = lower_join_spec(n2, i, ins);
    assert(expr_lower(e, vars, ins).0 == outs);
    let y = v.remove(i).remove(i).insert(i, (v[i] * n2 + v[i + 1]) as u64);
    assert(values(outs, x) =~= y);
    assert(expr_target(e) == join_space(s, i));
}

proof fn lemma_lower_pad(
    s: SpaceV,
    t: SpaceV,
    padding: Seq<(u64, u64)>,
    vars: Map<Seq<char>, u64>,
    ins: Seq<ScalarV>,
    x: Seq<u64>,
)
    requires
        ins.len() == s.len(),
        s.len() == t.len(),
        clean(ins, x),
        expr_lower_ok(ExprV::Pad(s, t, padding), vars, ins),
        expr_apply_ok(ExprV::Pad(s, t, padding), vars, values(ins, x)),
    ensures
        lowering_agrees(ExprV::Pad(s, t, padding), vars, ins, x),
{
    let e = ExprV::Pad(s, t, padding);
    let v = values(ins, x);
    assert(lower_pad_ok(padding, ins));
    let outs = lower_pad_spec(padding, ins);
    assert(expr_lower(e, vars, ins).0 == outs);
    assert forall|i: int| 0 <= i < ins.len() implies eval_scalar(#[trigger] outs[i], x) == (v[i]
        + padding[i].0) as u64 && no_wrap(outs[i], x) && conditions_only(outs[i]) by {
        let a = ins[i];
        let sum = add_of(a, sc(padding[i].0));
        assert(no_wrap(a, x) && conditions_only(a));
        assert(v[i] + padding[i].0 <= u64::MAX);
        assert(no_wrap(sc(padding[i].0), x) && conditions_only(sc(padding[i].0)));
        assert(no_wrap(sum, x) && conditions_only(sum));
        lemma_simplify_keeps_value(sum, x);
    }
    assert(values(outs, x) =~= Seq::new(ins.len(), |i: int| (v[i] + padding[i].0) as u64));
}

#[verifier::rlimit(80)]
proof fn lemma_lower_repeat(s: SpaceV, t: SpaceV, vars: Map<Seq<char>, u64>, ins: Seq<ScalarV>, x: Seq<u64>)
    requires
        ins.len() == s.len(),
        s.len() == t.len(),
        clean(ins, x),
        expr_lower_ok(ExprV::Repeat(s, t), vars, ins),
        expr_apply_ok(ExprV::Repeat(s, t), vars, values(ins, x)),
        expr_apply(ExprV::Repeat(s, t), vars, values(ins, x)) is Some,
    ensures
        lowering_agrees(ExprV::Repeat(s, t), vars, ins, x),
{
    let e = ExprV::Repeat(s, t);
    let v = values(ins, x);
    assert(valid_coords(s, vars, v));
    assert(!some_unvalued(t, vars, v.len() as int));
    assert(lower_repeat_ok(s, t, vars, ins));
    let outs = lower_repeat_spec(s, t, vars, ins);
    assert(expr_lower(e, vars, ins).0 == outs);
    let y = Seq::new(
        v.len(),
        |i: int|
            if ext_at(t, vars, i)->0 < ext_at(s, vars, i)->0 {
                (v[i] % ext_at(t, vars, i)->0) as u64
            } else {
                v[i]
            },
    );
    assert forall|i: int| 0 <= i < ins.len() implies eval_scalar(#[trigger] outs[i], x) == y[i]
        && no_wrap(outs[i], x) && conditions_only(outs[i]) by {
        assert(eval_extent(s[i].extent, vars) is Some);
        if ext_at(t, vars, i) is None {
            assert(some_unvalued(t, vars, v.len() as int));
        }
        assert(ext_or_one(t, vars, i) == ext_at(t, vars, i)->0);
        assert(ext_or_one(s, vars, i) == ext_at(s, vars, i)->0);
        let k = ext_or_one(t, vars, i);
        if k < ext_or_one(s, vars, i) {
            assert(prefix_valued(t, vars, i)) by {
                assert forall|j: int| 0 <= j < i implies j < t.len() && (#[trigger] ext_at(t, vars, j)) is Some by {
                    if ext_at(t, vars, j) is None {
                        assert(some_unvalued(t, vars, v.len() as int));
                    }
                }
            }
            assert(k != 0);
            let a = ins[i];
            let m = mod_of(a, sc(k));
            assert(no_wrap(a, x) && conditions_only(a));
            assert(no_wrap(sc(k), x) && conditions_only(sc(k)));
            assert(eval_scalar(sc(k), x) == k);
            assert(eval_scalar(a, x) == v[i]);
            assert(no_wrap(m, x) && conditions_only(m));
            assert(eval_scalar(m, x) == v[i] % k);
            lemma_simplify_keeps_value(m, x);
            assert(outs[i] == simplify_scalar(m));
        } else {
            assert(outs[i] == ins[i]);
            assert(no_wrap(ins[i], x) && conditions_only(ins[i]));
        }
    }
    assert(values(outs, x) =~= y);
}

proof fn lemma_lower_broadcast(s: SpaceV, t: SpaceV, vars: Map<Seq<char>, u64>, ins: Seq<ScalarV>, x: Seq<u64>)
    requires
        ins.len() == s.len(),
        s.len() == t.len(),
        clean(ins, x),
        expr_lower_ok(ExprV::Broadcast(s, t), vars, ins),
        expr_apply(ExprV::Broadcast(s, t), vars, values(ins, x)) is Some,
    ensures
        lowering_agrees(ExprV::Broadcast(s, t), vars, ins, x),
{
    let e = ExprV::Broadcast(s, t);
    let v = values(ins, x);
    assert(valid_coords(s, vars, v));
    assert(!some_unvalued(t, vars, v.len() as int));
    let outs = lower_broadcast_spec(s, t, vars, ins);
    assert(expr_lower(e, vars, ins).0 == outs);
    let y = Seq::new(
        v.len(),
        |i: int|
            if ext_at(s, vars, i)->0 > 1 && ext_at(t, vars, i)->0 == 1 {
                0u64
            } else {
                v[i]
            },
    );
    assert forall|i: int| 0 <= i < ins.len() implies eval_scalar(#[trigger] outs[i], x) == y[i]
        && no_wrap(outs[i], x) && conditions_only(outs[i]) by {
        assert(eval_extent(s[i].extent, vars) is Some);
        if ext_at(t, vars, i) is None {
            assert(some_unvalued(t, vars, v.len() as int));
        }
    }
    assert(values(outs, x) =~= y);
}


/// The quotient expressions of a delinearization evaluate to the offset
/// divided by the volume of the factors from `i` on.
proof fn lemma_delin_off(s: SpaceV, vars: Map<Seq<char>, u64>, ins: Seq<ScalarV>, x: Seq<u64>, i: int)
    requires
        0 <= i <= s.len(),
        ins.len() == 1,
        clean(ins, x),
        lower_delin_ok(s, vars, ins),
        all_some(opt_extents(s, vars)),
        forall|j: int| 0 <= j < s.len() ==> #[trigger] extents(s, vars)[j] > 0,
    ensures
        eval_scalar(delin_off(s, vars, ins[0], i), x) == eval_scalar(ins[0], x) as nat / prod(
            extents(s, vars).skip(i),
        ),
        no_wrap(delin_off(s, vars, ins[0], i), x),
        conditions_only(delin_off(s, vars, ins[0], i)),
    decreases s.len() - i,
{
    let ex = extents(s, vars);
    let o = eval_scalar(ins[0], x) as nat;
    assert(no_wrap(ins[0], x) && conditions_only(ins[0]));
    if i == s.len() {
        assert(ex.skip(i).len() == 0);
        assert(prod(ex.skip(i)) == 1);
    } else {
        lemma_delin_off(s, vars, ins, x, i + 1);
        let d = delin_off(s, vars, ins[0], i + 1);
        let k = ext_or_one(s, vars, i);
        assert(opt_extents(s, vars)[i] is Some);
        assert(k == ex[i]);
        assert(k > 0);
        let q = div_of(d, sc(k));
        assert(no_wrap(sc(k), x) && conditions_only(sc(k)));
        assert(eval_scalar(sc(k), x) == k);
        assert(no_wrap(q, x) && conditions_only(q));
        assert forall|j: int| 0 <= j < ex.skip(i + 1).len() implies #[trigger] ex.skip(i + 1)[j] > 0 by {
            assert(ex.skip(i + 1)[j] == ex[i + 1 + j]);
        }
        lemma_prod_positive(ex.skip(i + 1));
        let p1 = prod(ex.skip(i + 1));
        lemma_prod_skip(ex, i);
        vstd::arithmetic::div_mod::lemma_div_denominator(o as int, p1 as int, k as int);
        assert(p1 * k == k * p1) by (nonlinear_arith);
        assert(eval_scalar(q, x) == (o / p1) / (k as nat));
        assert(simplify_scalar_ok_div(s, vars, ins, i));
        lemma_simplify_keeps_value(q, x);
        assert(delin_off(s, vars, ins[0], i) == simplify_scalar(q));
    }
}

/// Simplifying the quotient for factor `i` of a delinearization does not panic.
spec fn simplify_scalar_ok_div(s: SpaceV, vars: Map<Seq<char>, u64>, ins: Seq<ScalarV>, i: int) -> bool {
    crate::layout::scalar::simplify_scalar_ok(
        div_of(delin_off(s, vars, ins[0], i + 1), sc(ext_or_one(s, vars, i))),
    )
}

/// The lowered digits of a delinearization evaluate to the digits of the
/// offset.
proof fn lemma_lower_delin(s: SpaceV, vars: Map<Seq<char>, u64>, ins: Seq<ScalarV>, x: Seq<u64>)
    requires
        ins.len() == 1,
        clean(ins, x),
        lower_delin_ok(s, vars, ins),
        delinearize_ok(opt_extents(s, vars)),
        spec_delinearize(opt_extents(s, vars), eval_scalar(ins[0], x)) is Some,
    ensures
        values(lower_delin(s, vars, ins).0, x) == spec_delinearize(
            opt_extents(s, vars),
            eval_scalar(ins[0], x),
        )->0,
        clean(lower_delin(s, vars, ins).0, x),
        lower_delin(s, vars, ins).0.len() == s.len(),
{
    let oe = opt_extents(s, vars);
    let ex = extents(s, vars);
    let o = eval_scalar(ins[0], x);
    assert(all_some(oe));
    assert forall|j: int| 0 <= j < s.len() implies #[trigger] ex[j] > 0 by {
        assert(oe[j] is Some);
        if ex[j] == 0 {
            assert(oe[j] == Some(0u64));
            let k = choose|k: int| j < k < oe.len() && oe[k] is None;
            assert(oe[k] is Some);
        }
    }
    let outs = lower_delin(s, vars, ins).0;
    let digits = spec_delinearize(oe, o)->0;
    assert(unwrap_all(oe) == ex);
    assert forall|i: int| 0 <= i < s.len() implies eval_scalar(#[trigger] outs[i], x) == digits[i]
        && no_wrap(outs[i], x) && conditions_only(outs[i]) by {
        lemma_delin_off(s, vars, ins, x, i + 1);
        let d = delin_off(s, vars, ins[0], i + 1);
        let k = ext_or_one(s, vars, i);
        assert(oe[i] is Some);
        assert(k == ex[i]);
        let r = mod_of(d, sc(k));
        assert(no_wrap(sc(k), x) && conditions_only(sc(k)));
        assert(eval_scalar(sc(k), x) == k);
        assert(no_wrap(r, x) && conditions_only(r));
        lemma_simplify_keeps_value(r, x);
        assert(outs[i] == simplify_scalar(r));
    }
    assert(values(outs, x) =~= digits);
}

proof fn lemma_lower_delinearize(s: SpaceV, vars: Map<Seq<char>, u64>, ins: Seq<ScalarV>, x: Seq<u64>)
    requires
        ins.len() == 1,
        clean(ins, x),
        expr_lower_ok(ExprV::Delinearize(s), vars, ins),
        expr_apply_ok(ExprV::Delinearize(s), vars, values(ins, x)),
        expr_apply(ExprV::Delinearize(s), vars, values(ins, x)) is Some,
    ensures
        lowering_agrees(ExprV::Delinearize(s), vars, ins, x),
{
    let e = ExprV::Delinearize(s);
    assert(expr_source(e).len() == 1);
    assert(values(ins, x)[0] == eval_scalar(ins[0], x));
    assert(expr_lower(e, vars, ins) == lower_delin(s, vars, ins));
    lemma_lower_delin(s, vars, ins, x);
}

#[verifier::rlimit(60)]
proof fn lemma_lower_reshape(s: SpaceV, t: SpaceV, vars: Map<Seq<char>, u64>, ins: Seq<ScalarV>, x: Seq<u64>)
    requires
        ins.len() == s.len(),
        clean(ins, x),
        expr_lower_ok(ExprV::Reshape(s, t), vars, ins),
        expr_apply_ok(ExprV::Reshape(s, t), vars, values(ins, x)),
        expr_apply(ExprV::Reshape(s, t), vars, values(ins, x)) is Some,
    ensures
        lowering_agrees(ExprV::Reshape(s, t), vars, ins, x),
{
    let e = ExprV::Reshape(s, t);
    let v = values(ins, x);
    assert(lower_reshape_ok(s, t, vars, ins));
    assert(spec_linearize(s, vars, v) is Some);
    assert(valid_coords(s, vars, v));
    assert(expr_apply(ExprV::Linearize(s), vars, v) is Some);
    lemma_lower_linearize(s, vars, ins, x);
    let lin = lower_lin(s, vars, ins).0;
    assert(expr_lower(ExprV::Linearize(s), vars, ins) == lower_lin(s, vars, ins));
    assert(lin.len() == 1);
    assert(values(lin, x)[0] == eval_scalar(lin[0], x));
    assert(eval_scalar(lin[0], x) == spec_linearize(s, vars, v)->0);
    lemma_lower_delin(t, vars, lin, x);
    assert(expr_lower(e, vars, ins) == lower_reshape_spec(s, t, vars, ins));
}

#[verifier::rlimit(60)]
proof fn lemma_lower_shadow(s: SpaceV, m: Seq<Seq<u8>>, vars: Map<Seq<char>, u64>, ins: Seq<ScalarV>, x: Seq<u64>)
    requires
        ins.len() == s.len(),
        clean(ins, x),
        expr_lower_ok(ExprV::BinaryShadow(s, m), vars, ins),
        expr_apply_ok(ExprV::BinaryShadow(s, m), vars, values(ins, x)),
        expr_apply(ExprV::BinaryShadow(s, m), vars, values(ins, x)) is Some,
    ensures
        lowering_agrees(ExprV::BinaryShadow(s, m), vars, ins, x),
{
    let e = ExprV::BinaryShadow(s, m);
    let v = values(ins, x);
    assert(lower_shadow_ok(s, m, vars, ins));
    assert(valid_coords(s, vars, v));
    assert(expr_apply(ExprV::Linearize(s), vars, v) is Some);
    lemma_lower_linearize(s, vars, ins, x);
    let lin = lower_lin(s, vars, ins).0;
    assert(expr_lower(ExprV::Linearize(s), vars, ins) == lower_lin(s, vars, ins));
    assert(lin.len() == 1);
    assert(values(lin, x)[0] == eval_scalar(lin[0], x));
    let o = spec_linearize(s, vars, v)->0;
    assert(eval_scalar(lin[0], x) == o);
    let bl = shadow_offset(s, m, vars, ins);
    assert(no_wrap(lin[0], x) && conditions_only(lin[0]));
    assert(eval_scalar(bl[0], x) == bit_linear(o, m));
    assert(no_wrap(bl[0], x) && conditions_only(bl[0]));
    assert(clean(bl, x));
    lemma_lower_delin(s, vars, bl, x);
    assert(expr_lower(e, vars, ins) == lower_shadow_spec(s, m, vars, ins));
}

/// The lowering agrees with the map on every covered layout.
#[verifier::rlimit(60)]
pub proof fn lemma_lowering_computes_map(
    e: ExprV,
    vars: Map<Seq<char>, u64>,
    ins: Seq<ScalarV>,
    x: Seq<u64>,
)
    requires
        lowering_covered(e),
        expr_lower_ok(e, vars, ins),
        ins.len() == expr_source(e).len(),
        clean(ins, x),
        expr_apply_ok(e, vars, values(ins, x)),
        expr_apply(e, vars, values(ins, x)) is Some,
    ensures
        lowering_agrees(e, vars, ins, x),
    decreases e,
{
    let v = values(ins, x);
    match e {
        ExprV::Identity(_) => {},
        ExprV::Composition(l1, l2) => {
            lemma_lowering_computes_map(*l1, vars, ins, x);
            let mid = expr_lower(*l1, vars, ins).0;
            lemma_lowering_computes_map(*l2, vars, mid, x);
            lemma_lower_composition(*l1, *l2, vars, ins, x);
        },
        ExprV::Product(l1, l2) => {
            let n1 = expr_source(*l1).len() as int;
            lemma_values_take(ins, x, n1);
            lemma_lowering_computes_map(*l1, vars, ins.take(n1), x);
            lemma_lowering_computes_map(*l2, vars, ins.skip(n1), x);
            lemma_lower_product(*l1, *l2, vars, ins, x);
        },
        ExprV::Squeeze(s, idx) => {
            assert(values(ins.remove(idx as int), x) =~= v.remove(idx as int));
        },
        ExprV::Unsqueeze(s, idx, f) => {
            assert(values(ins.insert(idx as int, sc(0)), x) =~= v.insert(idx as int, 0u64));
        },
        ExprV::Permute(s, p) => {
            lemma_lower_permute(s, p, vars, ins, x);
        },
        ExprV::Linearize(s) => {
            lemma_lower_linearize(s, vars, ins, x);
        },
        ExprV::Split(s, idx, n1) => {
            lemma_lower_split(s, idx, n1, vars, ins, x);
        },
        ExprV::Join(s, idx) => {
            lemma_lower_join(s, idx, vars, ins, x);
        },
        ExprV::Pad(s, t, padding) => {
            lemma_lower_pad(s, t, padding, vars, ins, x);
        },
        ExprV::Repeat(s, t) => {
            lemma_lower_repeat(s, t, vars, ins, x);
        },
        ExprV::Broadcast(s, t) => {
            lemma_lower_broadcast(s, t, vars, ins, x);
        },
        ExprV::Delinearize(s) => {
            lemma_lower_delinearize(s, vars, ins, x);
        },
        ExprV::Reshape(s, t) => {
            lemma_lower_reshape(s, t, vars, ins, x);
        },
        ExprV::BinaryShadow(s, m) => {
            lemma_lower_shadow(s, m, vars, ins, x);
        },
        _ => {},
    }
}


/// Lowering a covered layout on the symbolic inputs `Input(0), ..` gives
/// index expressions that evaluate, at every point that the layout maps, to
/// the coordinates of its image.
pub proof fn lemma_lowered_inputs_compute_map(e: ExprV, vars: Map<Seq<char>, u64>, x: Seq<u64>)
    requires
        lowering_covered(e),
        x.len() == expr_source(e).len(),
        x.len() <= usize::MAX,
        expr_lower_ok(e, vars, input_scalars(x.len())),
        expr_apply_ok(e, vars, x),
        expr_apply(e, vars, x) is Some,
    ensures
        expr_lower(e, vars, input_scalars(x.len())).0.len() == expr_apply(e, vars, x)->0.len(),
        forall|i: int|
            0 <= i < expr_apply(e, vars, x)->0.len() ==> eval_scalar(
                #[trigger] expr_lower(e, vars, input_scalars(x.len())).0[i],
                x,
            ) == expr_apply(e, vars, x)->0[i],
{
    let ins = input_scalars(x.len());
    assert forall|i: int| 0 <= i < x.len() implies #[trigger] values(ins, x)[i] == x[i] by {
        assert(ins[i] == ScalarV::Input(i as usize));
    }
    assert(values(ins, x) =~= x);
    assert(clean(ins, x));
    lemma_lowering_computes_map(e, vars, ins, x);
    let outs = expr_lower(e, vars, ins).0;
    assert forall|i: int| 0 <= i < expr_apply(e, vars, x)->0.len() implies eval_scalar(
        #[trigger] outs[i],
        x,
    ) == expr_apply(e, vars, x)->0[i] by {
        assert(values(outs, x)[i] == eval_scalar(outs[i], x));
    }
}

} // verus!
