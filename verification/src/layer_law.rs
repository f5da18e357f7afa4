//! The layers of a layout: the placement layer holds exactly the layers that
//! move between points and offsets. Among layers built from spaces without
//! offset dimensions, a layer is a placement when its source or its target
//! is an offset space, and a view when neither is.
use vstd::prelude::*;
use crate::space::{SpaceV, offset_kind, scatter, positions_below, blank_factor};
use crate::layout::expr::{ExprV, expr_source, expr_target, expr_target_ok, offset_space, split_space, join_space, sliced};
use crate::analysis::{layer_of, Layer};

verus! {

/// No factor of the space is an offset dimension.
pub open spec fn offset_free(s: SpaceV) -> bool {
    forall|i: int| 0 <= i < s.len() ==> (#[trigger] s[i]).kind != offset_kind()
}

/// The spaces (and the inserted factor of an unsqueeze) that a single layer
/// is built from have no offset dimension.
pub open spec fn built_offset_free(e: ExprV) -> bool {
    match e {
        ExprV::Identity(s) => offset_free(s),
        ExprV::Linearize(s) => offset_free(s),
        ExprV::Delinearize(t) => offset_free(t),
        ExprV::Permute(s, _) => offset_free(s),
        ExprV::Reshape(s, t) => offset_free(s) && offset_free(t),
        ExprV::BinaryShadow(s, _) => offset_free(s),
        ExprV::Slice(s, _) => offset_free(s),
        ExprV::Broadcast(s, t) => offset_free(s) && offset_free(t),
        ExprV::Pad(s, t, _) => offset_free(s) && offset_free(t),
        ExprV::Flip(s, _) => offset_free(s),
        ExprV::Split(s, _, _) => offset_free(s),
        ExprV::Join(s, _) => offset_free(s),
        ExprV::Squeeze(s, _) => offset_free(s),
        ExprV::Unsqueeze(s, _, f) => offset_free(s) && f.kind != offset_kind(),
        ExprV::Repeat(s, t) => offset_free(s) && offset_free(t),
        _ => true,
    }
}

proof fn lemma_scatter_offset_free(base: SpaceV, vals: SpaceV, p: Seq<usize>, k: int)
    requires
        offset_free(base),
        offset_free(vals),
        0 <= k <= p.len(),
        p.len() <= vals.len(),
        positions_below(p, base.len() as int),
    ensures
        scatter(base, vals, p, k).len() == base.len(),
        offset_free(scatter(base, vals, p, k)),
    decreases k,
{
    if k > 0 {
        lemma_scatter_offset_free(base, vals, p, k - 1);
        let prev = scatter(base, vals, p, k - 1);
        let cur = scatter(base, vals, p, k);
        assert(p[k - 1] < base.len());
        assert forall|i: int| 0 <= i < cur.len() implies (#[trigger] cur[i]).kind != offset_kind() by {
            if i != p[k - 1] as int {
                assert(cur[i] == prev[i]);
            } else {
                assert(cur[i] == vals[k - 1]);
            }
        }
    }
}

/// A single layer (not a composition, product or binary shadow), built from
/// spaces without offset dimensions, is a placement exactly when it moves
/// between points and offsets (its source or its target is an offset
/// space), and a view exactly when it keeps points as points.
pub proof fn lemma_placement_moves_between_points_and_offsets(e: ExprV)
    requires
        !(e is Composition),
        !(e is Product),
        !(e is BinaryShadow),
        built_offset_free(e),
        expr_target_ok(e),
    ensures
        layer_of(e) == Layer::Placement <==> (!offset_free(expr_source(e)) || !offset_free(expr_target(e))),
        layer_of(e) == Layer::View <==> (offset_free(expr_source(e)) && offset_free(expr_target(e))),
{
    match e {
        ExprV::Linearize(s) => {
            assert(offset_space(s)[0].kind == offset_kind());
        },
        ExprV::Delinearize(t) => {
            assert(offset_space(t)[0].kind == offset_kind());
        },
        ExprV::Permute(s, p) => {
            let base = Seq::new(s.len(), |j: int| blank_factor());
            assert(offset_free(base));
            lemma_scatter_offset_free(base, s, p, p.len() as int);
        },
        ExprV::Slice(s, ranges) => {
            let t = sliced(s, ranges);
            assert forall|i: int| 0 <= i < t.len() implies (#[trigger] t[i]).kind != offset_kind() by {
                assert(t[i].kind == s[i].kind);
            }
        },
        ExprV::Split(s, idx, n1) => {
            let t = split_space(s, idx as int, n1);
            let r = s.remove(idx as int);
            assert forall|i: int| 0 <= i < t.len() implies (#[trigger] t[i]).kind != offset_kind() by {
                if i < idx {
                    assert(t[i] == s[i]);
                } else if i > idx + 1 {
                    assert(t[i] == s[i - 1]);
                } else {
                    assert(t[i].kind == s[idx as int].kind);
                }
            }
        },
        ExprV::Join(s, idx) => {
            let t = join_space(s, idx as int);
            assert forall|i: int| 0 <= i < t.len() implies (#[trigger] t[i]).kind != offset_kind() by {
                if i < idx {
                    assert(t[i] == s[i]);
                } else if i > idx {
                    assert(t[i] == s[i + 1]);
                } else {
                    assert(t[i].kind == s[idx as int].kind);
                }
            }
        },
        ExprV::Squeeze(s, idx) => {
            let t = s.remove(idx as int);
            assert forall|i: int| 0 <= i < t.len() implies (#[trigger] t[i]).kind != offset_kind() by {
                if i < idx {
                    assert(t[i] == s[i]);
                } else {
                    assert(t[i] == s[i + 1]);
                }
            }
        },
        ExprV::Unsqueeze(s, idx, f) => {
            let t = s.insert(idx as int, f);
            assert forall|i: int| 0 <= i < t.len() implies (#[trigger] t[i]).kind != offset_kind() by {
                if i < idx {
                    assert(t[i] == s[i]);
                } else if i > idx {
                    assert(t[i] == s[i - 1]);
                }
            }
        },
        _ => {},
    }
}

/// The shadow layer holds exactly the binary shadows, and the complex layer
/// exactly the layouts made of more than one layer (compositions and
/// products).
pub proof fn lemma_shadow_and_complex_layers(e: ExprV)
    ensures
        layer_of(e) == Layer::Shadow <==> e is BinaryShadow,
        layer_of(e) == Layer::Complex <==> (e is Composition || e is Product),
{
}

} // verus!
