//! Completeness of the structural judgments on single layers: where the
//! injectivity judgment says `False`, two distinct points share an image;
//! where the surjectivity judgment says `False`, some point of the target is
//! reached by no point of the source.
use vstd::prelude::*;
use crate::space::{SpaceV, valid_coords};
use crate::layout::expr::{ExprV, expr_source, expr_target};
use crate::layout::apply::{expr_apply, expr_apply_ok, ext_at, some_unvalued, scan_covered, prefix_valued};
use crate::analysis::{Judgment, injective_judgment, surjective_judgment, aliasing_judgment};
use crate::judgment_laws::maps_injectively;
use crate::surjectivity_law::{maps_onto, reached};

verus! {

/// Every extent of the space has a positive value.
pub open spec fn positive_extents(s: SpaceV, vars: Map<Seq<char>, u64>) -> bool {
    forall|j: int| 0 <= j < s.len() ==> (#[trigger] ext_at(s, vars, j)) is Some && ext_at(s, vars, j)->0 > 0
}

/// A broadcast (`broadcast`) or a repeat from `s` onto `t` that shrinks some
/// dimension: the spaces have the same rank and positive extents, and some
/// dimension of extent above 1 is broadcast from extent 1 (for a repeat:
/// some dimension of `t` is smaller than that of `s`).
pub open spec fn shrinks(s: SpaceV, t: SpaceV, vars: Map<Seq<char>, u64>, broadcast: bool) -> bool {
    &&& s.len() == t.len()
    &&& positive_extents(s, vars)
    &&& positive_extents(t, vars)
    &&& exists|i: int|
        0 <= i < s.len() && if broadcast {
            (#[trigger] ext_at(s, vars, i))->0 > 1 && ext_at(t, vars, i)->0 == 1
        } else {
            ext_at(t, vars, i)->0 < (#[trigger] ext_at(s, vars, i))->0
        }
}

/// A pad from `s` into `t` that leaves a gap: the spaces have the same rank,
/// every extent a value (positive in `t`), a padding for every dimension,
/// and some dimension is padded before its start or is longer in `t`.
pub open spec fn leaves_gap(s: SpaceV, t: SpaceV, padding: Seq<(u64, u64)>, vars: Map<Seq<char>, u64>) -> bool {
    &&& s.len() == t.len()
    &&& padding.len() >= s.len()
    &&& forall|j: int| 0 <= j < s.len() ==> (#[trigger] ext_at(s, vars, j)) is Some
    &&& positive_extents(t, vars)
    &&& exists|i: int|
        0 <= i < s.len() && ((#[trigger] padding[i]).0 > 0 || ext_at(t, vars, i)->0 > ext_at(s, vars, i)->0)
}

/// The point of `n` zeros.
pub open spec fn zeros(n: nat) -> Seq<u64> {
    Seq::new(n, |j: int| 0u64)
}

proof fn lemma_zeros_valid(s: SpaceV, vars: Map<Seq<char>, u64>)
    requires
        positive_extents(s, vars),
    ensures
        valid_coords(s, vars, zeros(s.len())),
{
    assert forall|j: int| 0 <= j < s.len() implies {
        &&& (#[trigger] crate::space::eval_extent(s[j].extent, vars)) is Some
        &&& zeros(s.len())[j] < crate::space::eval_extent(s[j].extent, vars)->0
    } by {
        assert(ext_at(s, vars, j) is Some);
    }
}

/// Two distinct points of the source that the layout maps, without panic, to
/// the same image.
proof fn lemma_not_injective(e: ExprV, vars: Map<Seq<char>, u64>, x1: Seq<u64>, x2: Seq<u64>)
    requires
        x1 != x2,
        expr_apply_ok(e, vars, x1),
        expr_apply_ok(e, vars, x2),
        expr_apply(e, vars, x1) is Some,
        expr_apply(e, vars, x1) == expr_apply(e, vars, x2),
    ensures
        !maps_injectively(e, vars),
{
    assert(expr_apply(e, vars, x1) == expr_apply(e, vars, x2));
}

/// A single layer (not a composition or product; a broadcast or repeat only
/// where it shrinks some dimension) that the injectivity judgment calls
/// `False` maps two distinct points to the same image.
pub proof fn lemma_injective_judgment_complete(e: ExprV, vars: Map<Seq<char>, u64>)
    requires
        !(e is Composition),
        !(e is Product),
        e matches ExprV::Broadcast(s, t) ==> shrinks(s, t, vars, true),
        e matches ExprV::Repeat(s, t) ==> shrinks(s, t, vars, false),
    ensures
        injective_judgment(e) == Judgment::False ==> !maps_injectively(e, vars),
{
    match e {
        ExprV::Broadcast(s, t) => {
            let n = s.len();
            let i = choose|i: int| 0 <= i < s.len() && (#[trigger] ext_at(s, vars, i))->0 > 1 && ext_at(t, vars, i)->0 == 1;
            let x1 = zeros(n);
            let x2 = x1.update(i, 1u64);
            lemma_zeros_valid(s, vars);
            assert(valid_coords(s, vars, x2)) by {
                assert forall|j: int| 0 <= j < s.len() implies {
                    &&& (#[trigger] crate::space::eval_extent(s[j].extent, vars)) is Some
                    &&& x2[j] < crate::space::eval_extent(s[j].extent, vars)->0
                } by {
                    assert(ext_at(s, vars, j) is Some);
                }
            }
            assert(scan_covered(t, vars, n as int));
            assert(!some_unvalued(t, vars, n as int)) by {
                if some_unvalued(t, vars, n as int) {
                    let j = choose|j: int| 0 <= j < n && j < t.len() && #[trigger] ext_at(t, vars, j) is None;
                    assert(ext_at(t, vars, j) is Some);
                }
            }
            assert(x1[i] != x2[i]);
            assert(expr_apply(e, vars, x1)->0 =~= expr_apply(e, vars, x2)->0) by {
                assert forall|j: int| 0 <= j < n implies #[trigger] expr_apply(e, vars, x1)->0[j]
                    == expr_apply(e, vars, x2)->0[j] by {
                    assert(ext_at(s, vars, j) is Some);
                }
            }
            lemma_not_injective(e, vars, x1, x2);
        },
        ExprV::Repeat(s, t) => {
            let n = s.len();
            let i = choose|i: int| 0 <= i < s.len() && ext_at(t, vars, i)->0 < (#[trigger] ext_at(s, vars, i))->0;
            assert(ext_at(t, vars, i) is Some);
            let ti = ext_at(t, vars, i)->0;
            let x1 = zeros(n);
            let x2 = x1.update(i, ti);
            lemma_zeros_valid(s, vars);
            assert(valid_coords(s, vars, x2)) by {
                assert forall|j: int| 0 <= j < s.len() implies {
                    &&& (#[trigger] crate::space::eval_extent(s[j].extent, vars)) is Some
                    &&& x2[j] < crate::space::eval_extent(s[j].extent, vars)->0
                } by {
                    assert(ext_at(s, vars, j) is Some);
                }
            }
            assert(scan_covered(t, vars, n as int));
            assert forall|j: int|
                0 <= j < n && j < t.len() && #[trigger] prefix_valued(t, vars, j) implies ext_at(t, vars, j) != Some(
                0u64,
            ) by {
                assert(ext_at(t, vars, j) is Some);
            }
            assert(!some_unvalued(t, vars, n as int)) by {
                if some_unvalued(t, vars, n as int) {
                    let j = choose|j: int| 0 <= j < n && j < t.len() && #[trigger] ext_at(t, vars, j) is None;
                    assert(ext_at(t, vars, j) is Some);
                }
            }
            assert(x1[i] != x2[i]);
            assert(expr_apply(e, vars, x1)->0 =~= expr_apply(e, vars, x2)->0) by {
                assert forall|j: int| 0 <= j < n implies #[trigger] expr_apply(e, vars, x1)->0[j]
                    == expr_apply(e, vars, x2)->0[j] by {
                    assert(ext_at(s, vars, j) is Some);
                    assert(ext_at(t, vars, j) is Some);
                    if j == i {
                        assert(ti % ti == 0) by (nonlinear_arith)
                            requires
                                ti > 0,
                        ;
                    }
                }
            }
            lemma_not_injective(e, vars, x1, x2);
        },
        _ => {},
    }
}

/// A single layer (not a composition or product, and not a reshape, whose
/// points past the smaller target are left unmapped rather than shared; a
/// broadcast or repeat only where it shrinks some dimension) that the
/// aliasing judgment calls `True` maps two distinct points to the same image.
pub proof fn lemma_aliasing_judgment_complete(e: ExprV, vars: Map<Seq<char>, u64>)
    requires
        !(e is Composition),
        !(e is Product),
        !(e is Reshape),
        e matches ExprV::Broadcast(s, t) ==> shrinks(s, t, vars, true),
        e matches ExprV::Repeat(s, t) ==> shrinks(s, t, vars, false),
    ensures
        aliasing_judgment(e, vars) == Judgment::True ==> !maps_injectively(e, vars),
{
    lemma_injective_judgment_complete(e, vars);
}

/// A single layer (not a composition or product, and not a slice, which
/// reaches its whole sliced target; a pad only where it leaves a gap) that
/// the surjectivity judgment calls `False` leaves some point of its target
/// reached by no point of its source.
pub proof fn lemma_surjective_judgment_complete(e: ExprV, vars: Map<Seq<char>, u64>)
    requires
        !(e is Composition),
        !(e is Product),
        !(e is Slice),
        e matches ExprV::Pad(s, t, padding) ==> leaves_gap(s, t, padding, vars),
    ensures
        surjective_judgment(e) == Judgment::False ==> !maps_onto(e, vars),
{
    match e {
        ExprV::Pad(s, t, padding) => {
            let n = s.len();
            let i = choose|i: int|
                0 <= i < s.len() && ((#[trigger] padding[i]).0 > 0 || ext_at(t, vars, i)->0 > ext_at(s, vars, i)->0);
            assert(ext_at(s, vars, i) is Some);
            assert(ext_at(t, vars, i) is Some);
            let si = ext_at(s, vars, i)->0;
            let y = if padding[i].0 > 0 {
                zeros(n)
            } else {
                zeros(n).update(i, si)
            };
            lemma_zeros_valid(t, vars);
            assert(valid_coords(t, vars, y)) by {
                assert forall|j: int| 0 <= j < t.len() implies {
                    &&& (#[trigger] crate::space::eval_extent(t[j].extent, vars)) is Some
                    &&& y[j] < crate::space::eval_extent(t[j].extent, vars)->0
                } by {
                    assert(ext_at(t, vars, j) is Some);
                }
            }
            assert(!reached(e, vars, y)) by {
                if reached(e, vars, y) {
                    let x = choose|x: Seq<u64>|
                        #[trigger] valid_coords(expr_source(e), vars, x) && expr_apply_ok(e, vars, x) && expr_apply(
                            e,
                            vars,
                            x,
                        ) == Some(y);
                    assert(x.len() == n);
                    assert(x[i] + padding[i].0 <= u64::MAX);
                    assert(expr_apply(e, vars, x)->0[i] == y[i]);
                    assert(crate::space::eval_extent(s[i].extent, vars) is Some);
                    assert(x[i] < si);
                }
            }
            assert(valid_coords(expr_target(e), vars, y));
        },
        _ => {},
    }
}

} // verus!
