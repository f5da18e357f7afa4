//! The layers of a normal form, applied in turn, map a point as the
//! simplified layout does: a composition is split into layers only where its
//! parts' layers come in order, and stays whole in the view layer otherwise.
//! Shown for every layout whose layer fusions keep their maps, and without
//! that condition for a single layer or two single layers in order.
use vstd::prelude::*;
use crate::layout::expr::ExprV;
use crate::layout::apply::{expr_apply, expr_apply_ok};
use crate::space::valid_coords;
use crate::fusion::fusion_sound;
use crate::analysis::simplify_expr_ok;
use crate::undefined_law::{fusion_exact, hands_on_valid_points, lemma_simplify_agrees_everywhere};
use crate::layout::expr::{expr_source, expr_target};
use crate::analysis::{
    normal_form, simplify_expr, layer_of, Layer, fuse, passes_through, layers_in_order, lemma_simplify_size,
    expr_size,
};

verus! {

/// The layout that applies the view, then the placement, then the shadow.
pub open spec fn layered(n: (ExprV, ExprV, ExprV)) -> ExprV {
    ExprV::Composition(
        Box::new(ExprV::Composition(Box::new(n.0), Box::new(n.1))),
        Box::new(n.2),
    )
}

/// Where the simplified layout is a single layer, its normal form places it
/// in one of the three layers with identities in the others, so the layers
/// applied in turn map every point as the simplified layout does (see
/// `undefined_law` for when that is the map of the layout itself).
pub proof fn lemma_single_layer_normal_form(e: ExprV, vars: Map<Seq<char>, u64>, x: Seq<u64>)
    requires
        !(simplify_expr(e) is Composition),
    ensures
        expr_apply(layered(normal_form(e)), vars, x) == expr_apply(simplify_expr(e), vars, x),
{
    let n = normal_form(e);
    let s = simplify_expr(e);
    let src = expr_source(s);
    let tgt = expr_target(s);
    let vp = ExprV::Composition(Box::new(n.0), Box::new(n.1));
    match s {
        ExprV::Identity(t) => {
            assert(n == (ExprV::Identity(t), ExprV::Identity(t), ExprV::Identity(t)));
            assert(expr_apply(vp, vars, x) == Some(x));
        },
        _ => {
            match layer_of(s) {
                Layer::Placement => {
                    assert(n == (ExprV::Identity(src), s, ExprV::Identity(tgt)));
                    assert(expr_apply(vp, vars, x) == expr_apply(s, vars, x));
                },
                Layer::Shadow => {
                    assert(n == (ExprV::Identity(src), ExprV::Identity(src), s));
                    assert(expr_apply(vp, vars, x) == Some(x));
                },
                _ => {
                    assert(n == (s, ExprV::Identity(tgt), ExprV::Identity(tgt)));
                    assert(n.0 == s && n.1 == ExprV::Identity(tgt));
                    if let Some(m) = expr_apply(s, vars, x) {
                        assert(expr_apply(n.0, vars, x) == Some(m));
                        assert(expr_apply(n.1, vars, m) == Some(m));
                        assert(expr_apply(vp, vars, x) == Some(m));
                    }
                    assert(expr_apply(vp, vars, x) == expr_apply(s, vars, x));
                },
            }
        },
    }
    assert(layered(n) == ExprV::Composition(Box::new(vp), Box::new(n.2)));
    if let Some(m) = expr_apply(vp, vars, x) {
        assert(expr_apply(layered(n), vars, x) == expr_apply(n.2, vars, m));
    }
}

/// A single layer: neither a composition nor a product.
pub open spec fn is_single_layer(e: ExprV) -> bool {
    !(e is Composition) && !(e is Product)
}

/// The position of a layer in the order view, placement, shadow (a complex
/// layout counts as a view).
pub open spec fn layer_rank(e: ExprV) -> int {
    match layer_of(e) {
        Layer::Placement => 1,
        Layer::Shadow => 2,
        _ => 0,
    }
}

proof fn lemma_single_layer_form(a: ExprV)
    requires
        is_single_layer(a),
    ensures
        simplify_expr(a) == a,
        normal_form(a) == (match a {
            ExprV::Identity(t) => (ExprV::Identity(t), ExprV::Identity(t), ExprV::Identity(t)),
            _ => match layer_of(a) {
                Layer::Placement => (ExprV::Identity(expr_source(a)), a, ExprV::Identity(expr_target(a))),
                Layer::Shadow => (ExprV::Identity(expr_source(a)), ExprV::Identity(expr_source(a)), a),
                _ => (a, ExprV::Identity(expr_target(a)), ExprV::Identity(expr_target(a))),
            },
        }),
{
}

/// Where the simplified layout is a composition of two single layers whose
/// layers come in order (or one of which is an identity), the layers of the
/// normal form applied in turn map every point as the simplified layout does.
pub proof fn lemma_ordered_layers_normal_form(e: ExprV, vars: Map<Seq<char>, u64>, x: Seq<u64>)
    requires
        simplify_expr(e) is Composition,
        is_single_layer(*simplify_expr(e)->Composition_0),
        is_single_layer(*simplify_expr(e)->Composition_1),
        layer_rank(*simplify_expr(e)->Composition_0) <= layer_rank(*simplify_expr(e)->Composition_1)
            || *simplify_expr(e)->Composition_0 is Identity || *simplify_expr(e)->Composition_1 is Identity,
    ensures
        expr_apply(layered(normal_form(e)), vars, x) == expr_apply(simplify_expr(e), vars, x),
{
    let s = simplify_expr(e);
    let a = *s->Composition_0;
    let b = *s->Composition_1;
    assert(e is Composition);
    let l1 = *e->Composition_0;
    let l2 = *e->Composition_1;
    assert(s == fuse(simplify_expr(l1), simplify_expr(l2)));
    assert(a == simplify_expr(l1) && b == simplify_expr(l2));
    assert(fuse(a, b) == s);
    lemma_single_layer_form(a);
    lemma_single_layer_form(b);
    let n1 = normal_form(a);
    let n2 = normal_form(b);
    let n = normal_form(e);
    assert(n == (
        simplify_expr(ExprV::Composition(Box::new(n1.0), Box::new(n2.0))),
        simplify_expr(ExprV::Composition(Box::new(n1.1), Box::new(n2.1))),
        simplify_expr(ExprV::Composition(Box::new(n1.2), Box::new(n2.2))),
    ));
    lemma_single_layer_form(n1.0);
    lemma_single_layer_form(n1.1);
    lemma_single_layer_form(n1.2);
    lemma_single_layer_form(n2.0);
    lemma_single_layer_form(n2.1);
    lemma_single_layer_form(n2.2);
    let v = ExprV::Composition(Box::new(n1.0), Box::new(n2.0));
    let p = ExprV::Composition(Box::new(n1.1), Box::new(n2.1));
    let h = ExprV::Composition(Box::new(n1.2), Box::new(n2.2));
    assert(simplify_expr(v) == fuse(n1.0, n2.0));
    assert(simplify_expr(p) == fuse(n1.1, n2.1));
    assert(simplify_expr(h) == fuse(n1.2, n2.2));
    assert(layered(n) == paired_layers(a, b));
    lemma_layers_in_order(a, b, vars, x);
}

/// Fusing with an identity leaves a composition, which maps a point as the
/// other part does.
proof fn lemma_with_identity(p: ExprV, t: crate::space::SpaceV, vars: Map<Seq<char>, u64>, x: Seq<u64>)
    ensures
        fuse(p, ExprV::Identity(t)) == ExprV::Composition(Box::new(p), Box::new(ExprV::Identity(t))),
        fuse(ExprV::Identity(t), p) == ExprV::Composition(Box::new(ExprV::Identity(t)), Box::new(p)),
        expr_apply(fuse(p, ExprV::Identity(t)), vars, x) == expr_apply(p, vars, x),
        expr_apply(fuse(ExprV::Identity(t), p), vars, x) == expr_apply(p, vars, x),
{
    let c = ExprV::Composition(Box::new(p), Box::new(ExprV::Identity(t)));
    let d = ExprV::Composition(Box::new(ExprV::Identity(t)), Box::new(p));
    if let Some(m) = expr_apply(p, vars, x) {
        assert(expr_apply(c, vars, x) == expr_apply(ExprV::Identity(t), vars, m));
    }
    assert(expr_apply(ExprV::Identity(t), vars, x) == Some(x));
    assert(expr_apply(d, vars, x) == expr_apply(p, vars, x));
}

/// The view, placement and shadow of two single layers, each pair fused,
/// applied in turn.
pub open spec fn paired_layers(a: ExprV, b: ExprV) -> ExprV {
    let n1 = normal_form(a);
    let n2 = normal_form(b);
    layered((fuse(n1.0, n2.0), fuse(n1.1, n2.1), fuse(n1.2, n2.2)))
}

/// Three layers applied in turn map a point as the first, the second and
/// the third do in turn.
proof fn lemma_layered_apply(n: (ExprV, ExprV, ExprV), vars: Map<Seq<char>, u64>, x: Seq<u64>)
    ensures
        expr_apply(layered(n), vars, x) == match expr_apply(n.0, vars, x) {
            None => None,
            Some(m) => match expr_apply(n.1, vars, m) {
                None => None,
                Some(k) => expr_apply(n.2, vars, k),
            },
        },
{
    let vp = ExprV::Composition(Box::new(n.0), Box::new(n.1));
    assert(layered(n) == ExprV::Composition(Box::new(vp), Box::new(n.2)));
    if let Some(m) = expr_apply(n.0, vars, x) {
        assert(expr_apply(vp, vars, x) == expr_apply(n.1, vars, m));
    }
}

/// With an identity first, the paired layers map a point as the second
/// layer does.
proof fn lemma_identity_first(t: crate::space::SpaceV, b: ExprV, vars: Map<Seq<char>, u64>, x: Seq<u64>)
    requires
        is_single_layer(b),
    ensures
        expr_apply(paired_layers(ExprV::Identity(t), b), vars, x) == expr_apply(b, vars, x),
{
    let a = ExprV::Identity(t);
    lemma_single_layer_form(a);
    lemma_single_layer_form(b);
    let n2 = normal_form(b);
    let f = (fuse(a, n2.0), fuse(a, n2.1), fuse(a, n2.2));
    assert(paired_layers(a, b) == layered(f));
    lemma_layered_apply(f, vars, x);
    lemma_with_identity(n2.0, t, vars, x);
    if let Some(m) = expr_apply(n2.0, vars, x) {
        lemma_with_identity(n2.1, t, vars, m);
        if let Some(k) = expr_apply(n2.1, vars, m) {
            lemma_with_identity(n2.2, t, vars, k);
        }
    }
    lemma_single_layer_normal_form(b, vars, x);
    lemma_layered_apply(n2, vars, x);
}

/// With an identity second, the paired layers map a point as the first
/// layer does.
proof fn lemma_identity_second(a: ExprV, t: crate::space::SpaceV, vars: Map<Seq<char>, u64>, x: Seq<u64>)
    requires
        is_single_layer(a),
    ensures
        expr_apply(paired_layers(a, ExprV::Identity(t)), vars, x) == expr_apply(a, vars, x),
{
    let b = ExprV::Identity(t);
    lemma_single_layer_form(a);
    lemma_single_layer_form(b);
    let n1 = normal_form(a);
    let f = (fuse(n1.0, b), fuse(n1.1, b), fuse(n1.2, b));
    assert(paired_layers(a, b) == layered(f));
    lemma_layered_apply(f, vars, x);
    lemma_with_identity(n1.0, t, vars, x);
    if let Some(m) = expr_apply(n1.0, vars, x) {
        lemma_with_identity(n1.1, t, vars, m);
        if let Some(k) = expr_apply(n1.1, vars, m) {
            lemma_with_identity(n1.2, t, vars, k);
        }
    }
    lemma_single_layer_normal_form(a, vars, x);
    lemma_layered_apply(n1, vars, x);
}

/// Two single layers, neither an identity, whose layers come in order: the
/// paired layers map a point as `a; b` does.
#[verifier::rlimit(60)]
proof fn lemma_ordered_pair(a: ExprV, b: ExprV, vars: Map<Seq<char>, u64>, x: Seq<u64>)
    requires
        is_single_layer(a),
        is_single_layer(b),
        !(a is Identity),
        !(b is Identity),
        fuse(a, b) == ExprV::Composition(Box::new(a), Box::new(b)),
        layer_rank(a) <= layer_rank(b),
    ensures
        expr_apply(paired_layers(a, b), vars, x) == expr_apply(ExprV::Composition(Box::new(a), Box::new(b)), vars, x),
{
    lemma_single_layer_form(a);
    lemma_single_layer_form(b);
    let n1 = normal_form(a);
    let n2 = normal_form(b);
    let f = (fuse(n1.0, n2.0), fuse(n1.1, n2.1), fuse(n1.2, n2.2));
    assert(paired_layers(a, b) == layered(f));
    lemma_layered_apply(f, vars, x);
    let sa = expr_source(a);
    let ta = expr_target(a);
    let sb = expr_source(b);
    let tb = expr_target(b);
    let c = ExprV::Composition(Box::new(a), Box::new(b));
    if let Some(m) = expr_apply(a, vars, x) {
        assert(expr_apply(c, vars, x) == expr_apply(b, vars, m));
    }
    let ra = layer_of(a);
    let rb = layer_of(b);
    if ra == Layer::Placement && rb == Layer::Placement {
        assert(f.1 == c);
        lemma_with_identity(ExprV::Identity(sa), sb, vars, x);
        if let Some(k) = expr_apply(c, vars, x) {
            lemma_with_identity(ExprV::Identity(ta), tb, vars, k);
        }
    } else if ra == Layer::Shadow && rb == Layer::Shadow {
        assert(f.2 == c);
        lemma_with_identity(ExprV::Identity(sa), sb, vars, x);
    } else if ra == Layer::Placement && rb == Layer::Shadow {
        lemma_with_identity(ExprV::Identity(sa), sb, vars, x);
        lemma_with_identity(a, sb, vars, x);
        if let Some(m) = expr_apply(a, vars, x) {
            lemma_with_identity(b, ta, vars, m);
        }
    } else if rb == Layer::Placement {
        lemma_with_identity(a, sb, vars, x);
        if let Some(m) = expr_apply(a, vars, x) {
            lemma_with_identity(b, ta, vars, m);
            if let Some(k) = expr_apply(b, vars, m) {
                lemma_with_identity(ExprV::Identity(ta), tb, vars, k);
            }
        }
    } else if rb == Layer::Shadow {
        lemma_with_identity(a, sb, vars, x);
        if let Some(m) = expr_apply(a, vars, x) {
            lemma_with_identity(ExprV::Identity(ta), sb, vars, m);
            lemma_with_identity(b, ta, vars, m);
        }
    } else {
        assert(f.0 == c);
        if let Some(k) = expr_apply(c, vars, x) {
            lemma_with_identity(ExprV::Identity(ta), tb, vars, k);
        }
    }
}

/// Applying `(v1; v2)`, then `(p1; p2)`, then `(s1; s2)` (each pair fused)
/// maps a point as `a; b` does when the layers of `a` and `b` come in order.
proof fn lemma_layers_in_order(a: ExprV, b: ExprV, vars: Map<Seq<char>, u64>, x: Seq<u64>)
    requires
        is_single_layer(a),
        is_single_layer(b),
        fuse(a, b) == ExprV::Composition(Box::new(a), Box::new(b)),
        layer_rank(a) <= layer_rank(b) || a is Identity || b is Identity,
    ensures
        expr_apply(paired_layers(a, b), vars, x) == expr_apply(ExprV::Composition(Box::new(a), Box::new(b)), vars, x),
{
    let c = ExprV::Composition(Box::new(a), Box::new(b));
    if let ExprV::Identity(t) = a {
        lemma_identity_first(t, b, vars, x);
        assert(expr_apply(a, vars, x) == Some(x));
        assert(expr_apply(c, vars, x) == expr_apply(b, vars, x));
    } else if let ExprV::Identity(t) = b {
        lemma_identity_second(a, t, vars, x);
        if let Some(m) = expr_apply(a, vars, x) {
            assert(expr_apply(c, vars, x) == expr_apply(b, vars, m));
        }
    } else {
        lemma_ordered_pair(a, b, vars, x);
    }
}

/// Simplifying a simplified layout leaves it as it is.
pub proof fn lemma_simplify_idempotent(e: ExprV)
    ensures
        simplify_expr(simplify_expr(e)) == simplify_expr(e),
    decreases e,
{
    match e {
        ExprV::Composition(l1, l2) => {
            lemma_simplify_idempotent(*l1);
            lemma_simplify_idempotent(*l2);
        },
        ExprV::Product(l1, l2) => {
            lemma_simplify_idempotent(*l1);
            lemma_simplify_idempotent(*l2);
        },
        _ => {},
    }
}

/// A layout that passes points through maps every point to itself.
proof fn lemma_passes(e: ExprV, vars: Map<Seq<char>, u64>)
    requires
        passes_through(e),
    ensures
        forall|x: Seq<u64>| #[trigger] expr_apply(e, vars, x) == Some(x),
    decreases e,
{
    if let ExprV::Composition(a, b) = e {
        lemma_passes(*a, vars);
        lemma_passes(*b, vars);
        assert forall|x: Seq<u64>| #[trigger] expr_apply(e, vars, x) == Some(x) by {
            assert(expr_apply(*a, vars, x) == Some(x));
            assert(expr_apply(*b, vars, x) == Some(x));
        }
    }
}

/// The simplified composition of `a` and `b` maps every point as `a`, then
/// `b`.
pub open spec fn fuses_faithfully(a: ExprV, b: ExprV, vars: Map<Seq<char>, u64>) -> bool {
    forall|x: Seq<u64>|
        #[trigger] expr_apply(simplify_expr(ExprV::Composition(Box::new(a), Box::new(b))), vars, x)
            == expr_apply(ExprV::Composition(Box::new(a), Box::new(b)), vars, x)
}

/// Every composition of layers that normalizing `e` simplifies keeps its map
/// (see [`fuses_faithfully`]).
pub open spec fn layers_fuse_faithfully(e: ExprV, vars: Map<Seq<char>, u64>) -> bool
    decreases expr_size(e),
{
    match simplify_expr(e) {
        ExprV::Composition(l1, l2) => {
            proof {
                lemma_simplify_size(e);
            }
            let n1 = normal_form(*l1);
            let n2 = normal_form(*l2);
            &&& layers_fuse_faithfully(*l1, vars)
            &&& layers_fuse_faithfully(*l2, vars)
            &&& layers_in_order(n1, n2) ==> {
                &&& fuses_faithfully(n1.0, n2.0, vars)
                &&& fuses_faithfully(n1.1, n2.1, vars)
                &&& fuses_faithfully(n1.2, n2.2, vars)
            }
        },
        _ => true,
    }
}

/// `m`, then the map of `f`.
pub open spec fn then_apply(m: Option<Seq<u64>>, f: ExprV, vars: Map<Seq<char>, u64>) -> Option<Seq<u64>> {
    match m {
        None => None,
        Some(y) => expr_apply(f, vars, y),
    }
}

/// Three layers applied in turn.
proof fn lemma_layered_chain(n: (ExprV, ExprV, ExprV), vars: Map<Seq<char>, u64>, x: Seq<u64>)
    ensures
        expr_apply(layered(n), vars, x) == then_apply(then_apply(expr_apply(n.0, vars, x), n.1, vars), n.2, vars),
{
    let vp = ExprV::Composition(Box::new(n.0), Box::new(n.1));
    assert(layered(n) == ExprV::Composition(Box::new(vp), Box::new(n.2)));
    if let Some(m) = expr_apply(n.0, vars, x) {
        assert(expr_apply(vp, vars, x) == expr_apply(n.1, vars, m));
    } else {
        assert(expr_apply(vp, vars, x) is None);
    }
}

/// Where the layers of two normal forms come in order, applying the pairs of
/// layers in turn is applying the first form's layers, then the second's.
proof fn lemma_in_order_chain(
    n1: (ExprV, ExprV, ExprV),
    n2: (ExprV, ExprV, ExprV),
    vars: Map<Seq<char>, u64>,
    x: Seq<u64>,
)
    requires
        layers_in_order(n1, n2),
    ensures
        then_apply(
            then_apply(
                then_apply(
                    then_apply(then_apply(expr_apply(n1.0, vars, x), n2.0, vars), n1.1, vars),
                    n2.1,
                    vars,
                ),
                n1.2,
                vars,
            ),
            n2.2,
            vars,
        ) == then_apply(
            then_apply(
                then_apply(
                    then_apply(then_apply(expr_apply(n1.0, vars, x), n1.1, vars), n1.2, vars),
                    n2.0,
                    vars,
                ),
                n2.1,
                vars,
            ),
            n2.2,
            vars,
        ),
{
    if passes_through(n2.0) {
        lemma_passes(n2.0, vars);
        if passes_through(n1.2) {
            lemma_passes(n1.2, vars);
        } else {
            lemma_passes(n2.1, vars);
        }
    } else {
        lemma_passes(n1.1, vars);
        lemma_passes(n1.2, vars);
    }
}

/// The layers of the normal form of `e`, applied in turn, map every point as
/// the simplified layout does, where every composition of layers that
/// normalizing simplifies keeps its map (see [`layers_fuse_faithfully`]; see
/// `undefined_law` for when the simplified layout maps as `e` does).
pub proof fn lemma_normal_form_composes(e: ExprV, vars: Map<Seq<char>, u64>, x: Seq<u64>)
    requires
        layers_fuse_faithfully(e, vars),
    ensures
        expr_apply(layered(normal_form(e)), vars, x) == expr_apply(simplify_expr(e), vars, x),
    decreases expr_size(e),
{
    let s = simplify_expr(e);
    let n = normal_form(e);
    if let ExprV::Composition(l1, l2) = s {
        lemma_simplify_size(e);
        let n1 = normal_form(*l1);
        let n2 = normal_form(*l2);
        lemma_simplify_idempotent(e);
        assert(simplify_expr(*l1) == *l1 && simplify_expr(*l2) == *l2) by {
            assert(simplify_expr(s) == fuse(simplify_expr(*l1), simplify_expr(*l2)));
        }
        lemma_layered_chain(n, vars, x);
        if layers_in_order(n1, n2) {
            let v = ExprV::Composition(Box::new(n1.0), Box::new(n2.0));
            let p = ExprV::Composition(Box::new(n1.1), Box::new(n2.1));
            let h = ExprV::Composition(Box::new(n1.2), Box::new(n2.2));
            assert(n == (simplify_expr(v), simplify_expr(p), simplify_expr(h)));
            assert(expr_apply(n.0, vars, x) == then_apply(expr_apply(n1.0, vars, x), n2.0, vars));
            assert forall|y: Seq<u64>| #[trigger] expr_apply(n.1, vars, y) == then_apply(expr_apply(n1.1, vars, y), n2.1, vars) by {
                assert(expr_apply(simplify_expr(p), vars, y) == expr_apply(p, vars, y));
            }
            assert forall|y: Seq<u64>| #[trigger] expr_apply(n.2, vars, y) == then_apply(expr_apply(n1.2, vars, y), n2.2, vars) by {
                assert(expr_apply(simplify_expr(h), vars, y) == expr_apply(h, vars, y));
            }
            lemma_in_order_chain(n1, n2, vars, x);
            lemma_normal_form_composes(*l1, vars, x);
            lemma_layered_chain(n1, vars, x);
            let m = expr_apply(*l1, vars, x);
            if let Some(y) = m {
                lemma_normal_form_composes(*l2, vars, y);
                lemma_layered_chain(n2, vars, y);
            }
        } else {
            let tgt = expr_target(s);
            assert(n == (s, ExprV::Identity(tgt), ExprV::Identity(tgt)));
        }
    } else {
        lemma_single_layer_normal_form(e, vars, x);
    }
}

/// The layers of the normal form of `e`, applied in turn, map every point of
/// the source as `e` does, where the layer fusions keep their maps and the
/// conditions of `lemma_simplify_agrees_everywhere` hold.
pub proof fn lemma_normal_form_maps_as_layout(e: ExprV, vars: Map<Seq<char>, u64>, x: Seq<u64>)
    requires
        layers_fuse_faithfully(e, vars),
        fusion_sound(e),
        fusion_exact(e, vars),
        simplify_expr_ok(e),
        valid_coords(expr_source(e), vars, x),
        hands_on_valid_points(e, vars, x),
        expr_apply_ok(e, vars, x),
    ensures
        expr_apply(layered(normal_form(e)), vars, x) == expr_apply(e, vars, x),
{
    lemma_normal_form_composes(e, vars, x);
    lemma_simplify_agrees_everywhere(e, vars, x);
}

} // verus!
