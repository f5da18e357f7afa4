//! Simplification keeps undefined points undefined where every fusion it
//! performs is exact, so that a simplified layout agrees with the layout on
//! every point of its source; layouts judged equivalent then agree on every
//! point, mapped or not.
use vstd::prelude::*;
use crate::space::{
    SpaceV, valid_coords, opt_extents, extents, all_some, unwrap_all, prod, lin_value, spec_linearize,
    spec_delinearize, delinearize_ok, volume_of, simplify_extent, eval_extent, lemma_lin_bound,
    lemma_linearize_delinearize,
};
use crate::extent_law::lemma_volume_value;
use crate::layout::expr::{ExprV, expr_source, offset_space};
use crate::layout::apply::{expr_apply, expr_apply_ok};
use crate::layout::scalar::{bit_linear, bit_linear_ok};
use crate::analysis::{fuse, fuse_ok, simplify_expr, simplify_expr_ok};
use crate::fusion::{
    fuses_soundly, fusion_sound, lemma_simplify_keeps_map, lemma_simplify_keeps_source,
    lemma_fused_bit_linear, lemma_attach, lemma_left_assoc_keeps_map, lemma_drop_leading_identity,
    lemma_compatible_valid,
};
use crate::analysis::{attach, left_assoc, canonical};
use crate::space::spaces_compatible;
use crate::surjectivity_law::lemma_valid_concat;

verus! {

/// A fusion that defines no point the composition leaves undefined: two
/// reshapes are fused only through a middle space whose extents have values
/// and whose volume is at least that of the first, and two binary shadows only
/// when both matrices are usable and the first keeps every offset below the
/// volume of the space.
pub open spec fn fuses_exactly(a: ExprV, b: ExprV, vars: Map<Seq<char>, u64>) -> bool {
    match (a, b) {
        (ExprV::Reshape(s1, s2), ExprV::Reshape(s2b, _)) => s2 == s2b ==> {
            &&& all_some(opt_extents(s2, vars))
            &&& prod(extents(s1, vars)) <= prod(extents(s2, vars))
        },
        (ExprV::BinaryShadow(s1, m1), ExprV::BinaryShadow(s2, m2)) => s1 == s2 ==> {
            &&& bit_linear_ok(m1)
            &&& bit_linear_ok(m2)
            &&& forall|o: u64|
                o < prod(extents(s1, vars)) ==> #[trigger] bit_linear(o, m1) < prod(extents(s1, vars))
        },
        _ => true,
    }
}

/// Every fusion in simplifying `e` is exact (see [`fuses_exactly`]).
pub open spec fn fusion_exact(e: ExprV, vars: Map<Seq<char>, u64>) -> bool
    decreases e,
{
    match e {
        ExprV::Composition(l1, l2) => fusion_exact(*l1, vars) && fusion_exact(*l2, vars) && fuses_exactly(
            simplify_expr(*l1),
            simplify_expr(*l2),
            vars,
        ),
        ExprV::Product(l1, l2) => fusion_exact(*l1, vars) && fusion_exact(*l2, vars),
        _ => true,
    }
}

/// At `x`, every composition in `e` hands its second part a point of that
/// part's source.
pub open spec fn hands_on_valid_points(e: ExprV, vars: Map<Seq<char>, u64>, x: Seq<u64>) -> bool
    decreases e,
{
    match e {
        ExprV::Composition(l1, l2) => hands_on_valid_points(*l1, vars, x) && match expr_apply(*l1, vars, x) {
            Some(m) => valid_coords(expr_source(*l2), vars, m) && hands_on_valid_points(*l2, vars, m),
            None => true,
        },
        ExprV::Product(l1, l2) => {
            let n1 = expr_source(*l1).len() as int;
            hands_on_valid_points(*l1, vars, x.take(n1)) && hands_on_valid_points(*l2, vars, x.skip(n1))
        },
        _ => true,
    }
}

/// The offset of a point lies below the volume of its space.
proof fn lemma_offset_below(s: SpaceV, vars: Map<Seq<char>, u64>, x: Seq<u64>)
    requires
        valid_coords(s, vars, x),
    ensures
        all_some(opt_extents(s, vars)),
        spec_linearize(s, vars, x) is Some,
        spec_linearize(s, vars, x)->0 < prod(extents(s, vars)),
{
    let ex = extents(s, vars);
    assert forall|i: int| 0 <= i < opt_extents(s, vars).len() implies #[trigger] opt_extents(s, vars)[i] is Some by {
        assert(eval_extent(s[i].extent, vars) is Some);
    }
    assert forall|i: int| 0 <= i < ex.len() implies #[trigger] x[i] < ex[i] by {
        assert(eval_extent(s[i].extent, vars) is Some);
    }
    lemma_lin_bound(ex, x);
    let l = lin_value(ex, x);
    let o = l as u64;
    if l <= u64::MAX {
        assert(o == l);
    }
}

/// An offset below the volume has digits.
proof fn lemma_delinearize_some(e: Seq<Option<u64>>, o: u64)
    requires
        all_some(e),
        o < prod(unwrap_all(e)),
    ensures
        spec_delinearize(e, o) is Some,
{
    let p = prod(unwrap_all(e));
    assert((o as nat) / p == 0) by (nonlinear_arith)
        requires
            o < p,
    ;
}

/// Where the first part of an exact fusion leaves a point of its source
/// undefined, so does the fusion.
proof fn lemma_fuse_first_undefined(a: ExprV, b: ExprV, vars: Map<Seq<char>, u64>, x: Seq<u64>)
    requires
        fuse_ok(a, b),
        fuses_exactly(a, b, vars),
        valid_coords(expr_source(a), vars, x),
        expr_apply(a, vars, x) is None,
    ensures
        expr_apply(fuse(a, b), vars, x) is None,
{
    match (a, b) {
        (ExprV::Linearize(s1), ExprV::Delinearize(s2)) => {
            lemma_offset_below(s1, vars, x);
        },
        (ExprV::Delinearize(s1), ExprV::Linearize(s2)) => {
            if s1 == s2 {
                let os = offset_space(s1);
                assert(os[0].extent == simplify_extent(volume_of(s1)));
                assert(x.len() == 1);
                assert(eval_extent(os[0].extent, vars) is Some && x[0] < eval_extent(os[0].extent, vars)->0);
                let v = eval_extent(simplify_extent(volume_of(s1)), vars)->0;
                lemma_volume_value(s1, vars, v);
                lemma_delinearize_some(opt_extents(s1, vars), x[0]);
            }
        },
        (ExprV::Reshape(s1, s2), ExprV::Reshape(s2b, s3)) => {
            if s2 == s2b {
                lemma_offset_below(s1, vars, x);
                let o = spec_linearize(s1, vars, x)->0;
                lemma_delinearize_some(opt_extents(s2, vars), o);
            }
        },
        (ExprV::BinaryShadow(s1, m1), ExprV::BinaryShadow(s2, m2)) => {
            if s1 == s2 {
                lemma_offset_below(s1, vars, x);
                let o = spec_linearize(s1, vars, x)->0;
                assert(bit_linear(o, m1) < prod(extents(s1, vars)));
                lemma_delinearize_some(opt_extents(s1, vars), bit_linear(o, m1));
            }
        },
        _ => {},
    }
}

/// Where the first part of an exact fusion maps a point and the second part
/// leaves the image, a point of its source, undefined, the fusion leaves the
/// point undefined.
proof fn lemma_fuse_second_undefined(a: ExprV, b: ExprV, vars: Map<Seq<char>, u64>, x: Seq<u64>)
    requires
        fuses_soundly(a, b),
        fuses_exactly(a, b, vars),
        expr_apply_ok(a, vars, x),
        expr_apply(a, vars, x) is Some,
        valid_coords(expr_source(b), vars, expr_apply(a, vars, x)->0),
        expr_apply(b, vars, expr_apply(a, vars, x)->0) is None,
    ensures
        expr_apply(fuse(a, b), vars, x) is None,
{
    let m = expr_apply(a, vars, x)->0;
    match (a, b) {
        (ExprV::Linearize(s1), ExprV::Delinearize(s2)) => {
            if s1 == s2 {
                lemma_offset_below(s1, vars, x);
                lemma_delinearize_some(opt_extents(s1, vars), m[0]);
            }
        },
        (ExprV::Reshape(s1, s2), ExprV::Reshape(s2b, s3)) => {
            if s2 == s2b {
                assert(valid_coords(s1, vars, x));
                let o = spec_linearize(s1, vars, x)->0;
                assert(spec_delinearize(opt_extents(s2, vars), o) == Some(m));
                lemma_linearize_delinearize(s2, vars, o);
            }
        },
        (ExprV::BinaryShadow(s1, m1), ExprV::BinaryShadow(s2, m2)) => {
            if s1 == s2 {
                assert(valid_coords(s1, vars, x));
                let o = spec_linearize(s1, vars, x)->0;
                let w1 = bit_linear(o, m1);
                assert(spec_delinearize(opt_extents(s1, vars), w1) == Some(m));
                lemma_linearize_delinearize(s1, vars, w1);
                lemma_fused_bit_linear(o, m1, m2);
            }
        },
        _ => {},
    }
}

/// Where every fusion keeps its meaning and is exact, and every composition
/// hands on points of the next source, simplifying leaves each point of the
/// source that the layout leaves undefined undefined.
pub proof fn lemma_simplify_keeps_undefined(e: ExprV, vars: Map<Seq<char>, u64>, x: Seq<u64>)
    requires
        fusion_sound(e),
        fusion_exact(e, vars),
        simplify_expr_ok(e),
        valid_coords(expr_source(e), vars, x),
        hands_on_valid_points(e, vars, x),
        expr_apply_ok(e, vars, x),
        expr_apply(e, vars, x) is None,
    ensures
        expr_apply(simplify_expr(e), vars, x) is None,
    decreases e,
{
    match e {
        ExprV::Composition(l1, l2) => {
            let a = simplify_expr(*l1);
            let b = simplify_expr(*l2);
            lemma_simplify_keeps_source(*l1);
            lemma_simplify_keeps_source(*l2);
            match expr_apply(*l1, vars, x) {
                None => {
                    lemma_simplify_keeps_undefined(*l1, vars, x);
                    lemma_fuse_first_undefined(a, b, vars, x);
                },
                Some(m) => {
                    lemma_simplify_keeps_map(*l1, vars, x);
                    lemma_simplify_keeps_undefined(*l2, vars, m);
                    lemma_fuse_second_undefined(a, b, vars, x);
                },
            }
        },
        ExprV::Product(l1, l2) => {
            let n1 = expr_source(*l1).len() as int;
            lemma_simplify_keeps_source(*l1);
            lemma_valid_concat(expr_source(*l1), expr_source(*l2), vars, x);
            if expr_apply(*l1, vars, x.take(n1)) is None {
                lemma_simplify_keeps_undefined(*l1, vars, x.take(n1));
            } else {
                lemma_simplify_keeps_undefined(*l2, vars, x.skip(n1));
            }
        },
        _ => {},
    }
}

/// Under the same conditions, a simplified layout agrees with the layout on
/// every point of its source: the same image where it maps the point, and
/// undefined where it does not.
pub proof fn lemma_simplify_agrees_everywhere(e: ExprV, vars: Map<Seq<char>, u64>, x: Seq<u64>)
    requires
        fusion_sound(e),
        fusion_exact(e, vars),
        simplify_expr_ok(e),
        valid_coords(expr_source(e), vars, x),
        hands_on_valid_points(e, vars, x),
        expr_apply_ok(e, vars, x),
    ensures
        expr_apply(simplify_expr(e), vars, x) == expr_apply(e, vars, x),
{
    if expr_apply(e, vars, x) is Some {
        lemma_simplify_keeps_map(e, vars, x);
    } else {
        lemma_simplify_keeps_undefined(e, vars, x);
    }
}

/// Reassociating `a ; b` to the left hands on points as the composition does.
proof fn lemma_attach_hands_on(a: ExprV, b: ExprV, vars: Map<Seq<char>, u64>, x: Seq<u64>)
    requires
        hands_on_valid_points(ExprV::Composition(Box::new(a), Box::new(b)), vars, x),
    ensures
        hands_on_valid_points(attach(a, b), vars, x),
    decreases b,
{
    if let ExprV::Composition(b1, b2) = b {
        lemma_attach(a, *b1, vars, x);
        let c = ExprV::Composition(Box::new(a), Box::new(*b1));
        assert(hands_on_valid_points(a, vars, x));
        if let Some(m) = expr_apply(a, vars, x) {
            assert(hands_on_valid_points(b, vars, m));
            assert(valid_coords(expr_source(*b1), vars, m));
            assert(hands_on_valid_points(*b1, vars, m));
            assert(expr_apply(c, vars, x) == expr_apply(*b1, vars, m));
            if let Some(n) = expr_apply(*b1, vars, m) {
                assert(valid_coords(expr_source(*b2), vars, n) && hands_on_valid_points(*b2, vars, n));
            }
        } else {
            assert(expr_apply(c, vars, x) is None);
        }
        assert(hands_on_valid_points(c, vars, x));
        lemma_attach_hands_on(a, *b1, vars, x);
        assert(attach(a, b) == ExprV::Composition(Box::new(attach(a, *b1)), b2));
    }
}

/// Associating compositions to the left keeps handing on points of the next
/// source.
proof fn lemma_left_assoc_hands_on(e: ExprV, vars: Map<Seq<char>, u64>, x: Seq<u64>)
    requires
        hands_on_valid_points(e, vars, x),
    ensures
        hands_on_valid_points(left_assoc(e), vars, x),
    decreases e,
{
    match e {
        ExprV::Composition(l1, l2) => {
            lemma_left_assoc_hands_on(*l1, vars, x);
            lemma_left_assoc_keeps_map(*l1, vars, x);
            if let Some(m) = expr_apply(*l1, vars, x) {
                lemma_left_assoc_hands_on(*l2, vars, m);
                lemma_left_assoc_keeps_map(*l2, vars, m);
            }
            lemma_attach_hands_on(left_assoc(*l1), left_assoc(*l2), vars, x);
        },
        ExprV::Product(l1, l2) => {
            let n1 = expr_source(*l1).len() as int;
            lemma_left_assoc_keeps_map(*l1, vars, x);
            lemma_left_assoc_hands_on(*l1, vars, x.take(n1));
            lemma_left_assoc_hands_on(*l2, vars, x.skip(n1));
        },
        _ => {},
    }
}

/// The canonical form of a layout agrees with it on every point of its
/// source, under the conditions of [`lemma_simplify_agrees_everywhere`] on
/// the layout with its compositions associated to the left.
proof fn lemma_canonical_agrees(e: ExprV, vars: Map<Seq<char>, u64>, x: Seq<u64>)
    requires
        fusion_sound(left_assoc(e)),
        fusion_exact(left_assoc(e), vars),
        simplify_expr_ok(left_assoc(e)),
        valid_coords(expr_source(e), vars, x),
        hands_on_valid_points(e, vars, x),
        expr_apply_ok(e, vars, x),
    ensures
        expr_apply(canonical(e), vars, x) == expr_apply(e, vars, x),
{
    let la = left_assoc(e);
    lemma_left_assoc_keeps_map(e, vars, x);
    lemma_left_assoc_hands_on(e, vars, x);
    lemma_simplify_agrees_everywhere(la, vars, x);
    lemma_simplify_keeps_source(la);
    lemma_drop_leading_identity(simplify_expr(la), vars, x);
}

/// Layouts judged equivalent (compatible sources and the same canonical form)
/// agree on every point of the source, mapped or not, where their fusions
/// keep meaning and are exact and their compositions hand on points of the
/// next source.
pub proof fn lemma_equivalent_layouts_agree_everywhere(a: ExprV, b: ExprV, vars: Map<Seq<char>, u64>, x: Seq<u64>)
    requires
        canonical(a) == canonical(b),
        spaces_compatible(expr_source(a), expr_source(b)),
        valid_coords(expr_source(a), vars, x),
        fusion_sound(left_assoc(a)),
        fusion_sound(left_assoc(b)),
        fusion_exact(left_assoc(a), vars),
        fusion_exact(left_assoc(b), vars),
        simplify_expr_ok(left_assoc(a)),
        simplify_expr_ok(left_assoc(b)),
        hands_on_valid_points(a, vars, x),
        hands_on_valid_points(b, vars, x),
        expr_apply_ok(a, vars, x),
        expr_apply_ok(b, vars, x),
    ensures
        expr_apply(a, vars, x) == expr_apply(b, vars, x),
{
    lemma_compatible_valid(expr_source(a), expr_source(b), vars, x);
    lemma_canonical_agrees(a, vars, x);
    lemma_canonical_agrees(b, vars, x);
}

} // verus!
