//! The lowered domain marks where the layout is defined: on every point of
//! the source, the domain condition of the lowering is nonzero exactly where
//! the layout maps the point. Shown for single layers, products
//! of them, and compositions whose first part is a single layer that only
//! checks the bounds of its source.
use vstd::prelude::*;
use crate::space::{
    SpaceV, valid_coords, eval_extent, opt_extents, extents, all_some, prod, volume_of, simplify_extent,
    spec_linearize, spec_delinearize, delinearize_ok,
};
use crate::layout::scalar::{ScalarV, eval_scalar, scalar_size, simplify_scalar, simplify_scalar_ok, simp_ok_f, bit_linear};
use crate::layout::expr::{ExprV, expr_source, offset_space};
use crate::layout::apply::{expr_apply, expr_apply_ok, some_unvalued, ext_at};
use crate::layout::lower::{
    expr_lower, expr_lower_ok, domain_of, sc, and_of, lt_of, lower_lin, lower_delin, shadow_offset, lower_reshape_ok,
    lower_shadow_ok, lower_reshape_spec, lower_shadow_spec, in_slice, slice_lower, slice_domain, lower_slice_ok,
};
use crate::layout::apply::slice_map;
use crate::layout::simplify_law::{no_wrap, conditions_only, is_condition, kept, lemma_simp};
use crate::layout::lower_law::{
    values, clean, lowering_agrees, lowering_covered, lemma_lower_linearize, lemma_values_take,
    lemma_lowering_computes_map,
};
use crate::layout::expr::expr_source_ok;
use crate::surjectivity_law::lemma_valid_concat;
use crate::extent_law::{lemma_volume_value, lemma_volume_of_extents};

verus! {

/// The value of the domain condition of lowering `e` on `ins`, at `x`.
pub open spec fn domain_value(e: ExprV, vars: Map<Seq<char>, u64>, ins: Seq<ScalarV>, x: Seq<u64>) -> u64 {
    eval_scalar(expr_lower(e, vars, ins).1, x)
}

/// A domain condition that can join a conjunction at `x`.
pub open spec fn clean_condition(d: ScalarV, x: Seq<u64>) -> bool {
    &&& no_wrap(d, x)
    &&& conditions_only(d)
    &&& is_condition(d)
    &&& eval_scalar(d, x) <= 1
}

/// On a point of `src`, the bounds check of its first `k` coordinates holds.
proof fn lemma_domain_of(src: SpaceV, vars: Map<Seq<char>, u64>, ins: Seq<ScalarV>, x: Seq<u64>, k: int)
    requires
        0 <= k <= src.len(),
        src.len() == ins.len(),
        clean(ins, x),
        valid_coords(src, vars, values(ins, x)),
    ensures
        eval_scalar(domain_of(src, vars, ins, k), x) == 1,
        clean_condition(domain_of(src, vars, ins, k), x),
    decreases k,
{
    if k > 0 {
        lemma_domain_of(src, vars, ins, x, k - 1);
        assert(eval_extent(src[k - 1].extent, vars) is Some);
        let ext = eval_extent(src[k - 1].extent, vars)->0;
        assert(values(ins, x)[k - 1] == eval_scalar(ins[k - 1], x));
        assert(eval_scalar(ins[k - 1], x) < ext);
        assert(no_wrap(ins[k - 1], x) && conditions_only(ins[k - 1]));
        let d0 = domain_of(src, vars, ins, k - 1);
        let lt = lt_of(ins[k - 1], sc(ext));
        assert(domain_of(src, vars, ins, k) == and_of(d0, lt));
        assert(lt == ScalarV::Lt(Box::new(ins[k - 1]), Box::new(sc(ext))));
        assert(eval_scalar(sc(ext), x) == ext);
        assert(no_wrap(sc(ext), x));
        assert(conditions_only(sc(ext)));
        assert(eval_scalar(lt, x) == 1);
        assert(no_wrap(lt, x));
        assert(conditions_only(lt));
        assert(is_condition(lt));
        assert(eval_scalar(and_of(d0, lt), x) == 1);
    } else {
        assert(domain_of(src, vars, ins, k) == sc(1));
        assert(crate::layout::scalar::is_cst(sc(1), 1));
    }
}

/// The single layers whose domain is the bounds check of their source.
pub open spec fn checks_bounds(e: ExprV) -> bool {
    e is Identity || e is Linearize || e is Permute || e is Split || e is Join || e is Squeeze || e is Unsqueeze
        || e is Pad || e is Flip || e is Broadcast || e is Repeat
}

proof fn lemma_bounds_layer(e: ExprV, vars: Map<Seq<char>, u64>, ins: Seq<ScalarV>, x: Seq<u64>)
    requires
        checks_bounds(e),
        e is Broadcast ==> all_some(opt_extents(e->Broadcast_1, vars)),
        e is Repeat ==> all_some(opt_extents(e->Repeat_1, vars)),
        ins.len() == expr_source(e).len(),
        clean(ins, x),
        valid_coords(expr_source(e), vars, values(ins, x)),
        expr_apply_ok(e, vars, values(ins, x)),
    ensures
        domain_value(e, vars, ins, x) == 1,
        clean_condition(expr_lower(e, vars, ins).1, x),
        expr_apply(e, vars, values(ins, x)) is Some,
{
    let src = expr_source(e);
    let v = values(ins, x);
    lemma_domain_of(src, vars, ins, x, src.len() as int);
    match e {
        ExprV::Linearize(s) => {
            assert(expr_lower(e, vars, ins) == lower_lin(s, vars, ins));
        },
        ExprV::Broadcast(s, t) => {
            assert(!some_unvalued(t, vars, v.len() as int)) by {
                assert forall|j: int| 0 <= j < v.len() && j < t.len() implies !(#[trigger] ext_at(t, vars, j) is None) by {
                    assert(opt_extents(t, vars)[j] is Some);
                }
            }
        },
        ExprV::Repeat(s, t) => {
            assert(!some_unvalued(t, vars, v.len() as int)) by {
                assert forall|j: int| 0 <= j < v.len() && j < t.len() implies !(#[trigger] ext_at(t, vars, j) is None) by {
                    assert(opt_extents(t, vars)[j] is Some);
                }
            }
        },
        _ => {},
    }
}

proof fn lemma_delin_layer(s: SpaceV, vars: Map<Seq<char>, u64>, ins: Seq<ScalarV>, x: Seq<u64>)
    requires
        ins.len() == 1,
        clean(ins, x),
        expr_lower_ok(ExprV::Delinearize(s), vars, ins),
        valid_coords(offset_space(s), vars, values(ins, x)),
        expr_apply_ok(ExprV::Delinearize(s), vars, values(ins, x)),
    ensures
        domain_value(ExprV::Delinearize(s), vars, ins, x) == 1,
        clean_condition(expr_lower(ExprV::Delinearize(s), vars, ins).1, x),
        expr_apply(ExprV::Delinearize(s), vars, values(ins, x)) is Some,
{
    let e = ExprV::Delinearize(s);
    let v = values(ins, x);
    let off = offset_space(s);
    assert(eval_extent(off[0].extent, vars) is Some);
    let w = eval_extent(simplify_extent(volume_of(s)), vars)->0;
    assert(v[0] < w);
    assert(v[0] == eval_scalar(ins[0], x));
    lemma_domain_of(off, vars, ins, x, 1);
    let d = domain_of(off, vars, ins, 1);
    let lt = lt_of(ins[0], sc(w));
    assert(expr_lower(e, vars, ins).1 == and_of(d, lt));
    assert(eval_scalar(sc(w), x) == w && no_wrap(sc(w), x) && conditions_only(sc(w)));
    assert(no_wrap(ins[0], x) && conditions_only(ins[0]));
    assert(eval_scalar(lt, x) == 1);
    lemma_volume_value(s, vars, w);
    let ex = extents(s, vars);
    assert(v[0] as nat / prod(ex) == 0) by (nonlinear_arith)
        requires
            v[0] < prod(ex),
    ;
}

/// The domain of delinearizing the one expression `ins[0]`, of value `o`,
/// into `t`: whether `o` lies below the volume of `t`.
proof fn lemma_delin_domain(t: SpaceV, vars: Map<Seq<char>, u64>, ins: Seq<ScalarV>, x: Seq<u64>)
    requires
        ins.len() == 1,
        clean(ins, x),
        all_some(opt_extents(t, vars)),
        forall|j: int| 0 <= j < t.len() ==> #[trigger] extents(t, vars)[j] > 0,
        prod(extents(t, vars)) <= u64::MAX,
        crate::space::simplify_extent_ok(volume_of(t)),
    ensures
        eval_scalar(lower_delin(t, vars, ins).1, x) == if eval_scalar(ins[0], x) < prod(extents(t, vars)) {
            1u64
        } else {
            0u64
        },
        clean_condition(lower_delin(t, vars, ins).1, x),
{
    lemma_volume_of_extents(t, vars);
    let p = prod(extents(t, vars)) as u64;
    let off = offset_space(t);
    assert(eval_extent(off[0].extent, vars) == Some(p));
    let lt = lt_of(ins[0], sc(p));
    assert(domain_of(off, vars, ins, 0) == sc(1));
    assert(domain_of(off, vars, ins, 1) == and_of(sc(1), lt));
    assert(lower_delin(t, vars, ins).1 == and_of(and_of(sc(1), lt), lt));
    assert(no_wrap(ins[0], x) && conditions_only(ins[0]));
    assert(eval_scalar(sc(p), x) == p && no_wrap(sc(p), x) && conditions_only(sc(p)));
    assert(eval_scalar(sc(1), x) == 1 && no_wrap(sc(1), x) && conditions_only(sc(1)));
    assert(crate::layout::scalar::is_cst(sc(1), 1));
    let o = eval_scalar(ins[0], x);
    let r: u64 = if o < p { 1 } else { 0 };
    assert(lt == ScalarV::Lt(Box::new(ins[0]), Box::new(sc(p))));
    assert(eval_scalar(lt, x) == r);
    assert(no_wrap(lt, x) && conditions_only(lt) && is_condition(lt));
    let inner = and_of(sc(1), lt);
    assert(inner == ScalarV::And(Box::new(sc(1)), Box::new(lt)));
    assert(eval_scalar(inner, x) == r);
    assert(no_wrap(inner, x) && conditions_only(inner) && is_condition(inner));
    let outer = and_of(inner, lt);
    assert(outer == ScalarV::And(Box::new(inner), Box::new(lt)));
    assert(eval_scalar(outer, x) == r);
    assert(no_wrap(outer, x) && conditions_only(outer) && is_condition(outer));
}

/// Simplifying the conjunction of two clean conditions keeps its value.
proof fn lemma_and_simplified(d1: ScalarV, d2: ScalarV, x: Seq<u64>)
    requires
        clean_condition(d1, x),
        clean_condition(d2, x),
        simplify_scalar_ok(and_of(d1, d2)),
    ensures
        eval_scalar(simplify_scalar(and_of(d1, d2)), x) == if eval_scalar(d1, x) != 0 && eval_scalar(d2, x) != 0 {
            1u64
        } else {
            0u64
        },
        clean_condition(simplify_scalar(and_of(d1, d2)), x),
{
    let a = and_of(d1, d2);
    assert(a == ScalarV::And(Box::new(d1), Box::new(d2)));
    assert(simp_ok_f(a, scalar_size(a)));
    lemma_simp(a, x, scalar_size(a));
    assert(is_condition(a));
}

proof fn lemma_positive_extents(t: SpaceV, vars: Map<Seq<char>, u64>)
    requires
        all_some(opt_extents(t, vars)),
        delinearize_ok(opt_extents(t, vars)),
    ensures
        forall|j: int| 0 <= j < t.len() ==> #[trigger] extents(t, vars)[j] > 0,
{
    let oe = opt_extents(t, vars);
    assert forall|j: int| 0 <= j < t.len() implies #[trigger] extents(t, vars)[j] > 0 by {
        assert(oe[j] is Some);
        if extents(t, vars)[j] == 0 {
            assert(oe[j] == Some(0u64));
            let k = choose|k: int| j < k < oe.len() && oe[k] is None;
            assert(oe[k] is Some);
        }
    }
}

proof fn lemma_reshape_layer(s: SpaceV, t: SpaceV, vars: Map<Seq<char>, u64>, ins: Seq<ScalarV>, x: Seq<u64>)
    requires
        ins.len() == s.len(),
        clean(ins, x),
        expr_lower_ok(ExprV::Reshape(s, t), vars, ins),
        valid_coords(s, vars, values(ins, x)),
        expr_apply_ok(ExprV::Reshape(s, t), vars, values(ins, x)),
        all_some(opt_extents(t, vars)),
        prod(extents(t, vars)) <= u64::MAX,
    ensures
        (domain_value(ExprV::Reshape(s, t), vars, ins, x) != 0) == expr_apply(
            ExprV::Reshape(s, t),
            vars,
            values(ins, x),
        ) is Some,
        clean_condition(expr_lower(ExprV::Reshape(s, t), vars, ins).1, x),
{
    let v = values(ins, x);
    assert(lower_reshape_ok(s, t, vars, ins));
    assert(expr_apply(ExprV::Linearize(s), vars, v) is Some);
    lemma_lower_linearize(s, vars, ins, x);
    assert(expr_lower(ExprV::Linearize(s), vars, ins) == lower_lin(s, vars, ins));
    let lin = lower_lin(s, vars, ins).0;
    let d1 = lower_lin(s, vars, ins).1;
    lemma_domain_of(s, vars, ins, x, s.len() as int);
    let o = spec_linearize(s, vars, v)->0;
    assert(values(lin, x)[0] == eval_scalar(lin[0], x));
    assert(eval_scalar(lin[0], x) == o);
    lemma_positive_extents(t, vars);
    lemma_delin_domain(t, vars, lin, x);
    let d2 = lower_delin(t, vars, lin).1;
    assert(expr_lower(ExprV::Reshape(s, t), vars, ins) == lower_reshape_spec(s, t, vars, ins));
    lemma_and_simplified(d1, d2, x);
    let et = extents(t, vars);
    crate::space::lemma_prod_positive(et);
    if o < prod(et) {
        assert(o as nat / prod(et) == 0) by (nonlinear_arith)
            requires
                o < prod(et),
        ;
    } else {
        assert(o as nat / prod(et) > 0) by (nonlinear_arith)
            requires
                o >= prod(et),
                prod(et) >= 1,
        ;
    }
}

proof fn lemma_shadow_layer(s: SpaceV, m: Seq<Seq<u8>>, vars: Map<Seq<char>, u64>, ins: Seq<ScalarV>, x: Seq<u64>)
    requires
        ins.len() == s.len(),
        clean(ins, x),
        expr_lower_ok(ExprV::BinaryShadow(s, m), vars, ins),
        valid_coords(s, vars, values(ins, x)),
        expr_apply_ok(ExprV::BinaryShadow(s, m), vars, values(ins, x)),
    ensures
        (domain_value(ExprV::BinaryShadow(s, m), vars, ins, x) != 0) == expr_apply(
            ExprV::BinaryShadow(s, m),
            vars,
            values(ins, x),
        ) is Some,
        clean_condition(expr_lower(ExprV::BinaryShadow(s, m), vars, ins).1, x),
{
    let v = values(ins, x);
    assert(lower_shadow_ok(s, m, vars, ins));
    assert(expr_apply(ExprV::Linearize(s), vars, v) is Some);
    lemma_lower_linearize(s, vars, ins, x);
    assert(expr_lower(ExprV::Linearize(s), vars, ins) == lower_lin(s, vars, ins));
    let lin = lower_lin(s, vars, ins).0;
    let d1 = lower_lin(s, vars, ins).1;
    lemma_domain_of(s, vars, ins, x, s.len() as int);
    let o = spec_linearize(s, vars, v)->0;
    assert(values(lin, x)[0] == eval_scalar(lin[0], x));
    assert(eval_scalar(lin[0], x) == o);
    let bl = shadow_offset(s, m, vars, ins);
    assert(no_wrap(lin[0], x) && conditions_only(lin[0]));
    assert(eval_scalar(bl[0], x) == bit_linear(o, m));
    assert(no_wrap(bl[0], x) && conditions_only(bl[0]));
    assert(clean(bl, x));
    assert(all_some(opt_extents(s, vars))) by {
        assert forall|j: int| 0 <= j < opt_extents(s, vars).len() implies #[trigger] opt_extents(s, vars)[j] is Some by {
            assert(eval_extent(s[j].extent, vars) is Some);
        }
    }
    assert forall|j: int| 0 <= j < s.len() implies #[trigger] extents(s, vars)[j] > 0 by {
        assert(eval_extent(s[j].extent, vars) is Some);
        assert(v[j] < extents(s, vars)[j]);
    }
    lemma_delin_domain(s, vars, bl, x);
    let d2 = lower_delin(s, vars, bl).1;
    assert(expr_lower(ExprV::BinaryShadow(s, m), vars, ins) == lower_shadow_spec(s, m, vars, ins));
    lemma_and_simplified(d1, d2, x);
    let es = extents(s, vars);
    crate::space::lemma_prod_positive(es);
    let w = bit_linear(o, m);
    if w < prod(es) {
        assert(w as nat / prod(es) == 0) by (nonlinear_arith)
            requires
                w < prod(es),
        ;
    } else {
        assert(w as nat / prod(es) > 0) by (nonlinear_arith)
            requires
                w >= prod(es),
                prod(es) >= 1,
        ;
    }
}

/// The bound check of a slice coordinate is a condition that holds exactly
/// when the coordinate lies in its range.
proof fn lemma_in_slice(c: ScalarV, start: u64, end: u64, x: Seq<u64>)
    requires
        no_wrap(c, x),
        conditions_only(c),
    ensures
        eval_scalar(in_slice(c, start, end), x) == if start <= eval_scalar(c, x) && eval_scalar(c, x) < end {
            1u64
        } else {
            0u64
        },
        clean_condition(in_slice(c, start, end), x),
{
    let v = eval_scalar(c, x);
    let lo = slice_lower(c, start);
    let one = sc(1);
    assert(eval_scalar(one, x) == 1 && no_wrap(one, x) && conditions_only(one));
    assert(crate::layout::scalar::is_cst(one, 1));
    if start > 0 {
        let b = sc((start - 1) as u64);
        assert(lo == lt_of(b, c));
        assert(eval_scalar(b, x) == start - 1 && no_wrap(b, x) && conditions_only(b));
        assert(eval_scalar(lo, x) == if start <= v { 1u64 } else { 0u64 });
    } else {
        assert(lo == one);
    }
    assert(no_wrap(lo, x) && conditions_only(lo) && is_condition(lo));
    let first = and_of(one, lo);
    assert(eval_scalar(first, x) == if start <= v { 1u64 } else { 0u64 });
    assert(no_wrap(first, x) && conditions_only(first) && is_condition(first));
    let e = sc(end);
    assert(eval_scalar(e, x) == end && no_wrap(e, x) && conditions_only(e));
    let upper = lt_of(c, e);
    assert(eval_scalar(upper, x) == if v < end { 1u64 } else { 0u64 });
    assert(no_wrap(upper, x) && conditions_only(upper) && is_condition(upper));
    assert(in_slice(c, start, end) == and_of(first, upper));
}

/// The bound checks of the first `k` slice coordinates, joined to a domain
/// that holds, hold exactly when those coordinates lie in their ranges.
proof fn lemma_slice_domain(d: ScalarV, ins: Seq<ScalarV>, ranges: Seq<(u64, u64)>, x: Seq<u64>, k: int)
    requires
        0 <= k <= ins.len(),
        ranges.len() >= ins.len(),
        clean(ins, x),
        clean_condition(d, x),
        eval_scalar(d, x) == 1,
    ensures
        eval_scalar(slice_domain(d, ins, ranges, k), x) == if (forall|j: int|
            0 <= j < k ==> ranges[j].0 <= #[trigger] eval_scalar(ins[j], x) && eval_scalar(ins[j], x) < ranges[j].1) {
            1u64
        } else {
            0u64
        },
        clean_condition(slice_domain(d, ins, ranges, k), x),
    decreases k,
{
    if k > 0 {
        lemma_slice_domain(d, ins, ranges, x, k - 1);
        assert(no_wrap(ins[k - 1], x) && conditions_only(ins[k - 1]));
        lemma_in_slice(ins[k - 1], ranges[k - 1].0, ranges[k - 1].1, x);
        let prev = slice_domain(d, ins, ranges, k - 1);
        let cur = in_slice(ins[k - 1], ranges[k - 1].0, ranges[k - 1].1);
        assert(slice_domain(d, ins, ranges, k) == and_of(prev, cur));
        let all_prev = forall|j: int|
            0 <= j < k - 1 ==> ranges[j].0 <= #[trigger] eval_scalar(ins[j], x) && eval_scalar(ins[j], x) < ranges[j].1;
        let all = forall|j: int|
            0 <= j < k ==> ranges[j].0 <= #[trigger] eval_scalar(ins[j], x) && eval_scalar(ins[j], x) < ranges[j].1;
        let here = ranges[k - 1].0 <= eval_scalar(ins[k - 1], x) && eval_scalar(ins[k - 1], x) < ranges[k - 1].1;
        assert(all == (all_prev && here)) by {
            if all_prev && here {
                assert forall|j: int| 0 <= j < k implies ranges[j].0 <= #[trigger] eval_scalar(ins[j], x)
                    && eval_scalar(ins[j], x) < ranges[j].1 by {
                    if j < k - 1 {
                    }
                }
            }
        }
    } else {
        assert(slice_domain(d, ins, ranges, 0) == d);
    }
}

proof fn lemma_slice_layer(s: SpaceV, ranges: Seq<(u64, u64)>, vars: Map<Seq<char>, u64>, ins: Seq<ScalarV>, x: Seq<u64>)
    requires
        ins.len() == s.len(),
        clean(ins, x),
        expr_lower_ok(ExprV::Slice(s, ranges), vars, ins),
        valid_coords(s, vars, values(ins, x)),
    ensures
        (domain_value(ExprV::Slice(s, ranges), vars, ins, x) != 0) == expr_apply(
            ExprV::Slice(s, ranges),
            vars,
            values(ins, x),
        ) is Some,
        clean_condition(expr_lower(ExprV::Slice(s, ranges), vars, ins).1, x),
{
    let e = ExprV::Slice(s, ranges);
    let v = values(ins, x);
    let n = ins.len() as int;
    lemma_domain_of(s, vars, ins, x, s.len() as int);
    let d = domain_of(s, vars, ins, s.len() as int);
    assert(lower_slice_ok(ranges, d, ins));
    lemma_slice_domain(d, ins, ranges, x, n);
    let sd = slice_domain(d, ins, ranges, n);
    assert(expr_lower(e, vars, ins).1 == simplify_scalar(sd));
    assert(simp_ok_f(sd, scalar_size(sd)));
    lemma_simp(sd, x, scalar_size(sd));
    let all = forall|j: int|
        0 <= j < n ==> ranges[j].0 <= #[trigger] eval_scalar(ins[j], x) && eval_scalar(ins[j], x) < ranges[j].1;
    if all {
        assert(!exists|i: int| 0 <= i < v.len() && !(ranges[i].0 <= #[trigger] v[i] < ranges[i].1)) by {
            assert forall|i: int| 0 <= i < v.len() implies ranges[i].0 <= #[trigger] v[i] < ranges[i].1 by {
                assert(v[i] == eval_scalar(ins[i], x));
            }
        }
        assert(slice_map(ranges, v) is Some);
    } else {
        let j = choose|j: int|
            !(0 <= j < n ==> ranges[j].0 <= #[trigger] eval_scalar(ins[j], x) && eval_scalar(ins[j], x) < ranges[j].1);
        assert(v[j] == eval_scalar(ins[j], x));
        assert(slice_map(ranges, v) is None);
    }
}

/// The layouts whose domain is shown to mark where they are defined: every
/// single layer (a reshape onto a space whose extents have values
/// with a product that fits in 64 bits, a broadcast or repeat onto a space
/// whose extents have values), products of them, and compositions whose
/// first part is a single layer that checks the bounds of its source and
/// lowers to arithmetic that does not wrap.
pub open spec fn domain_covered(e: ExprV, vars: Map<Seq<char>, u64>) -> bool
    decreases e,
{
    match e {
        ExprV::Product(l1, l2) => domain_covered(*l1, vars) && domain_covered(*l2, vars),
        ExprV::Composition(l1, l2) => {
            &&& checks_bounds(*l1)
            &&& domain_covered(*l1, vars)
            &&& lowering_covered(*l1)
            &&& domain_covered(*l2, vars)
        },
        ExprV::Reshape(_, t) => all_some(opt_extents(t, vars)) && prod(extents(t, vars)) <= u64::MAX,
        ExprV::Broadcast(_, t) => all_some(opt_extents(t, vars)),
        ExprV::Repeat(_, t) => all_some(opt_extents(t, vars)),
        ExprV::BinaryShadow(_, _) => true,
        ExprV::Delinearize(_) => true,
        ExprV::Slice(_, _) => true,
        _ => checks_bounds(e),
    }
}

/// Every part of the layout maps its share of `x` without panic (for a
/// product, each factor its own coordinates, whether or not the other is
/// defined there; for a composition, the first part `x` and the second part
/// the image, a point of its source).
pub open spec fn parts_ok(e: ExprV, vars: Map<Seq<char>, u64>, x: Seq<u64>) -> bool
    decreases e,
{
    match e {
        ExprV::Composition(l1, l2) => {
            &&& expr_apply_ok(*l1, vars, x)
            &&& (expr_apply(*l1, vars, x) matches Some(m) ==> valid_coords(expr_source(*l2), vars, m)
                && parts_ok(*l2, vars, m))
        },
        ExprV::Product(l1, l2) => {
            let n1 = expr_source(*l1).len() as int;
            &&& expr_source_ok(*l1)
            &&& n1 <= x.len()
            &&& parts_ok(*l1, vars, x.take(n1))
            &&& parts_ok(*l2, vars, x.skip(n1))
        },
        _ => expr_apply_ok(e, vars, x),
    }
}

/// On the covered layouts (see [`domain_covered`]), at every point of the
/// source whose parts map without panic, the lowered domain condition is
/// nonzero exactly where the layout maps the point.
#[verifier::rlimit(40)]
pub proof fn lemma_domain_marks_definedness(e: ExprV, vars: Map<Seq<char>, u64>, ins: Seq<ScalarV>, x: Seq<u64>)
    requires
        domain_covered(e, vars),
        expr_lower_ok(e, vars, ins),
        ins.len() == expr_source(e).len(),
        clean(ins, x),
        valid_coords(expr_source(e), vars, values(ins, x)),
        parts_ok(e, vars, values(ins, x)),
    ensures
        (domain_value(e, vars, ins, x) != 0) == expr_apply(e, vars, values(ins, x)) is Some,
        clean_condition(expr_lower(e, vars, ins).1, x),
    decreases e,
{
    let v = values(ins, x);
    match e {
        ExprV::Product(l1, l2) => {
            let n1 = expr_source(*l1).len() as int;
            lemma_values_take(ins, x, n1);
            lemma_valid_concat(expr_source(*l1), expr_source(*l2), vars, v);
            assert(clean(ins.take(n1), x));
            assert(clean(ins.skip(n1), x));
            lemma_domain_marks_definedness(*l1, vars, ins.take(n1), x);
            lemma_domain_marks_definedness(*l2, vars, ins.skip(n1), x);
            let da = expr_lower(*l1, vars, ins.take(n1)).1;
            let db = expr_lower(*l2, vars, ins.skip(n1)).1;
            lemma_and_simplified(da, db, x);
        },
        ExprV::Composition(l1, l2) => {
            assert(domain_covered(*l1, vars));
            match *l1 {
                ExprV::Broadcast(_, t) => assert(all_some(opt_extents(t, vars))),
                ExprV::Repeat(_, t) => assert(all_some(opt_extents(t, vars))),
                _ => {},
            }
            lemma_bounds_layer(*l1, vars, ins, x);
            lemma_lowering_computes_map(*l1, vars, ins, x);
            let mid = expr_lower(*l1, vars, ins);
            let m = expr_apply(*l1, vars, v)->0;
            assert(values(mid.0, x) == m);
            lemma_domain_marks_definedness(*l2, vars, mid.0, x);
            lemma_and_simplified(mid.1, expr_lower(*l2, vars, mid.0).1, x);
        },
        ExprV::Reshape(s, t) => lemma_reshape_layer(s, t, vars, ins, x),
        ExprV::Slice(s, ranges) => lemma_slice_layer(s, ranges, vars, ins, x),
        ExprV::BinaryShadow(s, m) => lemma_shadow_layer(s, m, vars, ins, x),
        ExprV::Delinearize(s) => lemma_delin_layer(s, vars, ins, x),
        _ => lemma_bounds_layer(e, vars, ins, x),
    }
}

} // verus!
