//! Soundness of the structural judgments: where the injectivity judgment
//! says `True`, or the aliasing judgment `False`, the layout maps distinct
//! points to distinct images; and the two judgments never both say `True`.
use vstd::prelude::*;
use crate::space::{
    SpaceV, valid_coords, scatter, eval_extent, opt_extents, spec_linearize, lemma_delinearize_linearize,
    lemma_delinearize_injective,
};
use crate::layout::expr::ExprV;
use crate::layout::apply::{expr_apply, expr_apply_ok, ext_at, slice_map};
use crate::layout::inverse::{is_permutation, lemma_scatter_at};
use crate::analysis::{
    Judgment, injective_judgment, aliasing_judgment, aliasing_ok, const_product, const_volume, volume_value,
};
use crate::space::{all_some, extents, prod, lemma_prod_split, ExtentV};
use crate::extent_law::{lemma_volume_value, lemma_volume_of_extents, lemma_prod_zero};
use crate::layout::expr::expr_source;
use crate::layout::gf2::gf2_inverse;
use crate::layout::inverse_law::lemma_inverse_undoes_shadow;

verus! {

/// The layout maps distinct points, that it maps without panic, to distinct
/// images.
pub open spec fn maps_injectively(e: ExprV, vars: Map<Seq<char>, u64>) -> bool {
    forall|x1: Seq<u64>, x2: Seq<u64>|
        #![trigger expr_apply(e, vars, x1), expr_apply(e, vars, x2)]
        expr_apply_ok(e, vars, x1) && expr_apply_ok(e, vars, x2) && expr_apply(e, vars, x1) is Some
            && expr_apply(e, vars, x1) == expr_apply(e, vars, x2) ==> x1 == x2
}

/// The layouts on which the injectivity judgment is shown sound: identities,
/// linearizations, delinearizations, permutations (of all the dimensions),
/// reshapes, binary shadows (judged injective only with a matrix invertible
/// over GF(2)), splits,
/// joins, squeezes of a factor of extent 1, unsqueezes, pads, flips,
/// slices, broadcasts and repeats (never judged injective), and compositions
/// and products of them.
pub open spec fn injectivity_covered(e: ExprV, vars: Map<Seq<char>, u64>) -> bool
    decreases e,
{
    match e {
        ExprV::Composition(l1, l2) => injectivity_covered(*l1, vars) && injectivity_covered(*l2, vars),
        ExprV::Product(l1, l2) => injectivity_covered(*l1, vars) && injectivity_covered(*l2, vars),
        ExprV::Delinearize(_) => true,
        ExprV::Reshape(_, _) => true,
        ExprV::BinaryShadow(_, _) => true,
        ExprV::Permute(s, p) => is_permutation(p, s.len() as int) && s.len() <= usize::MAX,
        ExprV::Identity(_) => true,
        ExprV::Linearize(_) => true,
        ExprV::Split(_, _, _) => true,
        ExprV::Join(_, _) => true,
        ExprV::Unsqueeze(_, _, _) => true,
        ExprV::Squeeze(s, idx) => idx < s.len() && eval_extent(s[idx as int].extent, vars) == Some(1u64),
        ExprV::Pad(_, _, _) => true,
        ExprV::Flip(_, _) => true,
        ExprV::Slice(_, _) => true,
        ExprV::Broadcast(_, _) => true,
        ExprV::Repeat(_, _) => true,
        _ => false,
    }
}

proof fn lemma_linearize_injective(s: SpaceV, vars: Map<Seq<char>, u64>)
    ensures
        maps_injectively(ExprV::Linearize(s), vars),
{
    let e = ExprV::Linearize(s);
    assert forall|x1: Seq<u64>, x2: Seq<u64>|
        expr_apply_ok(e, vars, x1) && expr_apply_ok(e, vars, x2) && expr_apply(e, vars, x1) is Some
            && #[trigger] expr_apply(e, vars, x1) == #[trigger] expr_apply(e, vars, x2) implies x1 == x2 by {
        assert(valid_coords(s, vars, x1));
        assert(valid_coords(s, vars, x2));
        lemma_delinearize_linearize(s, vars, x1);
        lemma_delinearize_linearize(s, vars, x2);
        let o1 = crate::space::spec_linearize(s, vars, x1)->0;
        let o2 = crate::space::spec_linearize(s, vars, x2)->0;
        assert(expr_apply(e, vars, x1) == Some(seq![o1]));
        assert(expr_apply(e, vars, x2) == Some(seq![o2]));
        assert(seq![o1][0] == seq![o2][0]);
        assert(o1 == o2);
    }
}

proof fn lemma_permute_injective(s: SpaceV, p: Seq<usize>, vars: Map<Seq<char>, u64>)
    requires
        is_permutation(p, s.len() as int),
    ensures
        maps_injectively(ExprV::Permute(s, p), vars),
{
    let e = ExprV::Permute(s, p);
    let n = s.len() as int;
    let zeros = Seq::new(s.len(), |i: int| 0u64);
    assert forall|x1: Seq<u64>, x2: Seq<u64>|
        expr_apply_ok(e, vars, x1) && expr_apply_ok(e, vars, x2) && expr_apply(e, vars, x1) is Some
            && #[trigger] expr_apply(e, vars, x1) == #[trigger] expr_apply(e, vars, x2) implies x1 == x2 by {
        assert(valid_coords(s, vars, x1));
        assert(valid_coords(s, vars, x2));
        lemma_scatter_at(zeros, x1, p, n);
        lemma_scatter_at(zeros, x2, p, n);
        let y1 = scatter(zeros, x1, p, n);
        let y2 = scatter(zeros, x2, p, n);
        assert(y1 == y2);
        assert forall|i: int| 0 <= i < n implies x1[i] == x2[i] by {
            assert(y1[p[i] as int] == x1[i]);
            assert(y2[p[i] as int] == x2[i]);
        }
        assert(x1 =~= x2);
    }
}

proof fn lemma_split_injective(s: SpaceV, idx: usize, n1: u64, vars: Map<Seq<char>, u64>)
    ensures
        maps_injectively(ExprV::Split(s, idx, n1), vars),
{
    let e = ExprV::Split(s, idx, n1);
    let i = idx as int;
    assert forall|x1: Seq<u64>, x2: Seq<u64>|
        expr_apply_ok(e, vars, x1) && expr_apply_ok(e, vars, x2) && expr_apply(e, vars, x1) is Some
            && #[trigger] expr_apply(e, vars, x1) == #[trigger] expr_apply(e, vars, x2) implies x1 == x2 by {
        assert(valid_coords(s, vars, x1));
        assert(valid_coords(s, vars, x2));
        assert(n1 != 0);
        let y1 = x1.remove(i).insert(i, (x1[i] / n1) as u64).insert(i + 1, (x1[i] % n1) as u64);
        let y2 = x2.remove(i).insert(i, (x2[i] / n1) as u64).insert(i + 1, (x2[i] % n1) as u64);
        assert(y1 == y2);
        assert(x1.len() == x2.len());
        assert(y1[i] == y2[i]);
        assert(y1[i + 1] == y2[i + 1]);
        vstd::arithmetic::div_mod::lemma_fundamental_div_mod(x1[i] as int, n1 as int);
        vstd::arithmetic::div_mod::lemma_fundamental_div_mod(x2[i] as int, n1 as int);
        assert forall|j: int| 0 <= j < x1.len() implies x1[j] == x2[j] by {
            if j < i {
                assert(y1[j] == x1[j] && y2[j] == x2[j]);
            } else if j > i {
                assert(y1[j + 1] == x1[j] && y2[j + 1] == x2[j]);
            }
        }
        assert(x1 =~= x2);
    }
}

proof fn lemma_join_injective(s: SpaceV, idx: usize, vars: Map<Seq<char>, u64>)
    ensures
        maps_injectively(ExprV::Join(s, idx), vars),
{
    let e = ExprV::Join(s, idx);
    let i = idx as int;
    assert forall|x1: Seq<u64>, x2: Seq<u64>|
        expr_apply_ok(e, vars, x1) && expr_apply_ok(e, vars, x2) && expr_apply(e, vars, x1) is Some
            && #[trigger] expr_apply(e, vars, x1) == #[trigger] expr_apply(e, vars, x2) implies x1 == x2 by {
        assert(valid_coords(s, vars, x1));
        assert(valid_coords(s, vars, x2));
        let n2 = ext_at(s, vars, i + 1)->0;
        assert(eval_extent(s[i + 1].extent, vars) is Some);
        let w1 = x1[i] * n2 + x1[i + 1];
        let w2 = x2[i] * n2 + x2[i + 1];
        let y1 = x1.remove(i).remove(i).insert(i, w1 as u64);
        let y2 = x2.remove(i).remove(i).insert(i, w2 as u64);
        assert(y1 == y2);
        assert(x1.len() == x2.len());
        assert(y1[i] == y2[i]);
        assert(w1 == w2);
        assert(x1[i + 1] < n2 && x2[i + 1] < n2);
        vstd::arithmetic::div_mod::lemma_div_multiples_vanish_fancy(x1[i] as int, x1[i + 1] as int, n2 as int);
        vstd::arithmetic::div_mod::lemma_div_multiples_vanish_fancy(x2[i] as int, x2[i + 1] as int, n2 as int);
        vstd::arithmetic::mul::lemma_mul_is_commutative(x1[i] as int, n2 as int);
        vstd::arithmetic::mul::lemma_mul_is_commutative(x2[i] as int, n2 as int);
        assert(x1[i] == x2[i]);
        assert(x1[i + 1] == x2[i + 1]);
        assert forall|j: int| 0 <= j < x1.len() implies x1[j] == x2[j] by {
            if j < i {
                assert(y1[j] == x1[j] && y2[j] == x2[j]);
            } else if j > i + 1 {
                assert(y1[j - 1] == x1[j] && y2[j - 1] == x2[j]);
            }
        }
        assert(x1 =~= x2);
    }
}

proof fn lemma_squeeze_injective(s: SpaceV, idx: usize, vars: Map<Seq<char>, u64>)
    requires
        idx < s.len(),
        eval_extent(s[idx as int].extent, vars) == Some(1u64),
    ensures
        maps_injectively(ExprV::Squeeze(s, idx), vars),
{
    let e = ExprV::Squeeze(s, idx);
    let i = idx as int;
    assert forall|x1: Seq<u64>, x2: Seq<u64>|
        expr_apply_ok(e, vars, x1) && expr_apply_ok(e, vars, x2) && expr_apply(e, vars, x1) is Some
            && #[trigger] expr_apply(e, vars, x1) == #[trigger] expr_apply(e, vars, x2) implies x1 == x2 by {
        assert(valid_coords(s, vars, x1));
        assert(valid_coords(s, vars, x2));
        assert(eval_extent(s[i].extent, vars) is Some);
        assert(x1[i] == 0 && x2[i] == 0);
        assert(x1.remove(i) == x2.remove(i));
        assert forall|j: int| 0 <= j < x1.len() implies x1[j] == x2[j] by {
            if j < i {
                assert(x1.remove(i)[j] == x1[j]);
                assert(x2.remove(i)[j] == x2[j]);
            } else if j > i {
                assert(x1.remove(i)[j - 1] == x1[j]);
                assert(x2.remove(i)[j - 1] == x2[j]);
            }
        }
        assert(x1 =~= x2);
    }
}

proof fn lemma_pointwise_injective(e: ExprV, vars: Map<Seq<char>, u64>)
    requires
        e is Unsqueeze || e is Pad || e is Flip || e is Slice || e is Identity,
    ensures
        maps_injectively(e, vars),
{
    assert forall|x1: Seq<u64>, x2: Seq<u64>|
        expr_apply_ok(e, vars, x1) && expr_apply_ok(e, vars, x2) && expr_apply(e, vars, x1) is Some
            && #[trigger] expr_apply(e, vars, x1) == #[trigger] expr_apply(e, vars, x2) implies x1 == x2 by {
        let y = expr_apply(e, vars, x1)->0;
        match e {
            ExprV::Unsqueeze(s, idx, _) => {
                assert(x1 =~= y.remove(idx as int));
                assert(x2 =~= y.remove(idx as int));
            },
            ExprV::Pad(_, _, padding) => {
                assert(x1.len() == x2.len());
                assert forall|j: int| 0 <= j < x1.len() implies x1[j] == x2[j] by {
                    assert(y[j] == (x1[j] + padding[j].0) as u64);
                    assert(y[j] == (x2[j] + padding[j].0) as u64);
                }
                assert(x1 =~= x2);
            },
            ExprV::Flip(s, dims) => {
                assert(valid_coords(s, vars, x1));
                assert(valid_coords(s, vars, x2));
                assert(x1.len() == x2.len());
                assert forall|j: int| 0 <= j < x1.len() implies x1[j] == x2[j] by {
                    assert(eval_extent(s[j].extent, vars) is Some);
                    assert(y[j] == if dims[j] {
                        (ext_at(s, vars, j)->0 - 1 - x1[j]) as u64
                    } else {
                        x1[j]
                    });
                    assert(y[j] == if dims[j] {
                        (ext_at(s, vars, j)->0 - 1 - x2[j]) as u64
                    } else {
                        x2[j]
                    });
                }
                assert(x1 =~= x2);
            },
            ExprV::Slice(s, ranges) => {
                assert(slice_map(ranges, x1) is Some);
                assert(slice_map(ranges, x2) is Some);
                assert(x1.len() == x2.len());
                assert forall|j: int| 0 <= j < x1.len() implies x1[j] == x2[j] by {
                    assert(ranges[j].0 <= x1[j] < ranges[j].1);
                    assert(ranges[j].0 <= x2[j] < ranges[j].1);
                    assert(y[j] == (x1[j] - ranges[j].0) as u64);
                    assert(y[j] == (x2[j] - ranges[j].0) as u64);
                }
                assert(x1 =~= x2);
            },
            _ => {},
        }
    }
}

proof fn lemma_composition_injective(l1: ExprV, l2: ExprV, vars: Map<Seq<char>, u64>)
    requires
        maps_injectively(l1, vars),
        maps_injectively(l2, vars),
    ensures
        maps_injectively(ExprV::Composition(Box::new(l1), Box::new(l2)), vars),
{
    let e = ExprV::Composition(Box::new(l1), Box::new(l2));
    assert forall|x1: Seq<u64>, x2: Seq<u64>|
        expr_apply_ok(e, vars, x1) && expr_apply_ok(e, vars, x2) && expr_apply(e, vars, x1) is Some
            && #[trigger] expr_apply(e, vars, x1) == #[trigger] expr_apply(e, vars, x2) implies x1 == x2 by {
        let m1 = expr_apply(l1, vars, x1)->0;
        let m2 = expr_apply(l1, vars, x2)->0;
        assert(expr_apply(l1, vars, x1) is Some);
        assert(expr_apply(l1, vars, x2) is Some);
        assert(expr_apply(l2, vars, m1) == expr_apply(l2, vars, m2));
        assert(m1 == m2);
    }
}

proof fn lemma_delinearize_injective_map(s: SpaceV, vars: Map<Seq<char>, u64>)
    ensures
        maps_injectively(ExprV::Delinearize(s), vars),
{
    let e = ExprV::Delinearize(s);
    assert forall|x1: Seq<u64>, x2: Seq<u64>|
        expr_apply_ok(e, vars, x1) && expr_apply_ok(e, vars, x2) && expr_apply(e, vars, x1) is Some
            && #[trigger] expr_apply(e, vars, x1) == #[trigger] expr_apply(e, vars, x2) implies x1 == x2 by {
        lemma_delinearize_injective(opt_extents(s, vars), x1[0], x2[0]);
        assert(x1 =~= seq![x1[0]]);
        assert(x2 =~= seq![x2[0]]);
    }
}

proof fn lemma_shadow_injective(s: SpaceV, m: Seq<Seq<u8>>, vars: Map<Seq<char>, u64>)
    requires
        gf2_inverse(m) is Some,
    ensures
        maps_injectively(ExprV::BinaryShadow(s, m), vars),
{
    let e = ExprV::BinaryShadow(s, m);
    assert forall|x1: Seq<u64>, x2: Seq<u64>|
        expr_apply_ok(e, vars, x1) && expr_apply_ok(e, vars, x2) && expr_apply(e, vars, x1) is Some
            && #[trigger] expr_apply(e, vars, x1) == #[trigger] expr_apply(e, vars, x2) implies x1 == x2 by {
        lemma_inverse_undoes_shadow(s, m, vars, x1);
        lemma_inverse_undoes_shadow(s, m, vars, x2);
    }
}

/// On the covered layouts, points with as many coordinates have images with
/// as many coordinates.
proof fn lemma_image_len_agrees(e: ExprV, vars: Map<Seq<char>, u64>, x1: Seq<u64>, x2: Seq<u64>)
    requires
        injectivity_covered(e, vars),
        x1.len() == x2.len(),
        expr_apply_ok(e, vars, x1),
        expr_apply_ok(e, vars, x2),
        expr_apply(e, vars, x1) is Some,
        expr_apply(e, vars, x2) is Some,
    ensures
        expr_apply(e, vars, x1)->0.len() == expr_apply(e, vars, x2)->0.len(),
    decreases e,
{
    match e {
        ExprV::Composition(l1, l2) => {
            lemma_image_len_agrees(*l1, vars, x1, x2);
            lemma_image_len_agrees(
                *l2,
                vars,
                expr_apply(*l1, vars, x1)->0,
                expr_apply(*l1, vars, x2)->0,
            );
        },
        ExprV::Product(l1, l2) => {
            let n1 = expr_source(*l1).len() as int;
            lemma_image_len_agrees(*l1, vars, x1.take(n1), x2.take(n1));
            lemma_image_len_agrees(*l2, vars, x1.skip(n1), x2.skip(n1));
        },
        ExprV::Permute(s, p) => {
            let zeros = Seq::new(s.len(), |i: int| 0u64);
            crate::space::lemma_scatter_len(zeros, x1, p, p.len() as int);
            crate::space::lemma_scatter_len(zeros, x2, p, p.len() as int);
        },
        _ => {},
    }
}

proof fn lemma_product_injective(l1: ExprV, l2: ExprV, vars: Map<Seq<char>, u64>)
    requires
        injectivity_covered(l1, vars),
        injectivity_covered(l2, vars),
        maps_injectively(l1, vars),
        maps_injectively(l2, vars),
    ensures
        maps_injectively(ExprV::Product(Box::new(l1), Box::new(l2)), vars),
{
    let e = ExprV::Product(Box::new(l1), Box::new(l2));
    let n1 = expr_source(l1).len() as int;
    assert forall|x1: Seq<u64>, x2: Seq<u64>|
        expr_apply_ok(e, vars, x1) && expr_apply_ok(e, vars, x2) && expr_apply(e, vars, x1) is Some
            && #[trigger] expr_apply(e, vars, x1) == #[trigger] expr_apply(e, vars, x2) implies x1 == x2 by {
        let a1 = expr_apply(l1, vars, x1.take(n1))->0;
        let a2 = expr_apply(l1, vars, x2.take(n1))->0;
        let b1 = expr_apply(l2, vars, x1.skip(n1))->0;
        let b2 = expr_apply(l2, vars, x2.skip(n1))->0;
        assert(expr_apply(l1, vars, x1.take(n1)) is Some);
        assert(expr_apply(l1, vars, x2.take(n1)) is Some);
        assert(expr_apply(l2, vars, x1.skip(n1)) is Some);
        assert(expr_apply(l2, vars, x2.skip(n1)) is Some);
        lemma_image_len_agrees(l1, vars, x1.take(n1), x2.take(n1));
        assert(a1 + b1 == a2 + b2);
        assert(a1 =~= (a1 + b1).take(a1.len() as int));
        assert(a2 =~= (a2 + b2).take(a2.len() as int));
        assert(b1 =~= (a1 + b1).skip(a1.len() as int));
        assert(b2 =~= (a2 + b2).skip(a2.len() as int));
        assert(a1 == a2);
        assert(b1 == b2);
        assert(expr_apply(l1, vars, x1.take(n1)) == expr_apply(l1, vars, x2.take(n1)));
        assert(expr_apply(l2, vars, x1.skip(n1)) == expr_apply(l2, vars, x2.skip(n1)));
        assert(x1.take(n1) == x2.take(n1));
        assert(x1.skip(n1) == x2.skip(n1));
        assert(x1 =~= x1.take(n1) + x1.skip(n1));
        assert(x2 =~= x2.take(n1) + x2.skip(n1));
    }
}

/// On the covered layouts (see [`injectivity_covered`]), where the
/// injectivity judgment is `True` the layout is injective: it maps distinct
/// points, that it maps without panic, to distinct images.
pub proof fn lemma_injective_judgment_sound(e: ExprV, vars: Map<Seq<char>, u64>)
    requires
        injectivity_covered(e, vars),
        injective_judgment(e) == Judgment::True,
    ensures
        maps_injectively(e, vars),
    decreases e,
{
    match e {
        ExprV::Composition(l1, l2) => {
            lemma_injective_judgment_sound(*l1, vars);
            lemma_injective_judgment_sound(*l2, vars);
            lemma_composition_injective(*l1, *l2, vars);
        },
        ExprV::Product(l1, l2) => {
            lemma_injective_judgment_sound(*l1, vars);
            lemma_injective_judgment_sound(*l2, vars);
            lemma_product_injective(*l1, *l2, vars);
        },
        ExprV::Delinearize(s) => lemma_delinearize_injective_map(s, vars),
        ExprV::Reshape(s, t) => lemma_reshape_injective(s, t, vars),
        ExprV::BinaryShadow(s, m) => lemma_shadow_injective(s, m, vars),
        ExprV::Squeeze(s, idx) => lemma_squeeze_injective(s, idx, vars),
        ExprV::Linearize(s) => lemma_linearize_injective(s, vars),
        ExprV::Permute(s, p) => lemma_permute_injective(s, p, vars),
        ExprV::Split(s, idx, n1) => lemma_split_injective(s, idx, n1, vars),
        ExprV::Join(s, idx) => lemma_join_injective(s, idx, vars),
        ExprV::Broadcast(_, _) => {},
        ExprV::Repeat(_, _) => {},
        _ => lemma_pointwise_injective(e, vars),
    }
}

/// A reshape never maps two points to one: the offset of a point in the
/// source determines the point, and delinearizing into the target is
/// injective (offsets past the target volume are not mapped at all).
proof fn lemma_reshape_injective(s: SpaceV, t: SpaceV, vars: Map<Seq<char>, u64>)
    ensures
        maps_injectively(ExprV::Reshape(s, t), vars),
{
    let e = ExprV::Reshape(s, t);
    assert forall|x1: Seq<u64>, x2: Seq<u64>|
        expr_apply_ok(e, vars, x1) && expr_apply_ok(e, vars, x2) && expr_apply(e, vars, x1) is Some
            && #[trigger] expr_apply(e, vars, x1) == #[trigger] expr_apply(e, vars, x2) implies x1 == x2 by {
        assert(spec_linearize(s, vars, x1) is Some);
        assert(spec_linearize(s, vars, x2) is Some);
        let o1 = spec_linearize(s, vars, x1)->0;
        let o2 = spec_linearize(s, vars, x2)->0;
        lemma_delinearize_injective(opt_extents(t, vars), o1, o2);
        lemma_delinearize_linearize(s, vars, x1);
        lemma_delinearize_linearize(s, vars, x2);
    }
}

/// On the covered layouts (see [`injectivity_covered`]), where the aliasing
/// judgment is `False` no two points share an image: the layout maps distinct
/// points, that it maps without panic, to distinct images.
pub proof fn lemma_aliasing_judgment_sound(e: ExprV, vars: Map<Seq<char>, u64>)
    requires
        injectivity_covered(e, vars),
        aliasing_judgment(e, vars) == Judgment::False,
    ensures
        maps_injectively(e, vars),
{
    match e {
        ExprV::Reshape(s, t) => lemma_reshape_injective(s, t, vars),
        _ => {
            assert(!(e is Broadcast) && !(e is Repeat));
            lemma_injective_judgment_sound(e, vars);
        },
    }
}

/// A space whose first `k` extents are constants with product `p` has those
/// constants as extents under every valuation, with product `p`.
proof fn lemma_const_product(s: SpaceV, vars: Map<Seq<char>, u64>, k: int, p: u64)
    requires
        0 <= k <= s.len(),
        const_product(s, k) == Some(p),
    ensures
        forall|i: int| 0 <= i < k ==> (#[trigger] opt_extents(s, vars)[i]) is Some,
        prod(extents(s, vars).take(k)) == p,
    decreases k,
{
    let e = extents(s, vars);
    if k == 0 {
        assert(e.take(0) =~= Seq::<u64>::empty());
    } else {
        let q = const_product(s, k - 1)->0;
        lemma_const_product(s, vars, k - 1, q);
        let c = s[k - 1].extent->Constant_0;
        assert(opt_extents(s, vars)[k - 1] == Some(c));
        lemma_prod_split(e.take(k), k - 1);
        assert(e.take(k).take(k - 1) =~= e.take(k - 1));
        assert(e.take(k).skip(k - 1) =~= seq![c]);
        crate::volume_law::lemma_prod_single(c);
    }
}

/// A space with a constant volume (see [`const_volume`]) has its extents
/// under every valuation, with that product.
pub(crate) proof fn lemma_const_volume(s: SpaceV, vars: Map<Seq<char>, u64>, a: u64)
    requires
        const_volume(s) == Some(a),
    ensures
        all_some(opt_extents(s, vars)),
        prod(extents(s, vars)) == a,
{
    lemma_const_product(s, vars, s.len() as int, a);
    assert(extents(s, vars).take(s.len() as int) =~= extents(s, vars));
}

/// The injectivity and aliasing judgments never both say `True`.
pub proof fn lemma_injective_and_aliasing_exclusive(e: ExprV, vars: Map<Seq<char>, u64>)
    requires
        aliasing_ok(e),
    ensures
        !(injective_judgment(e) == Judgment::True && aliasing_judgment(e, vars) == Judgment::True),
{
    if let ExprV::Reshape(s, t) = e {
        if injective_judgment(e) == Judgment::True && aliasing_judgment(e, vars) == Judgment::True {
            let a = const_volume(s)->0;
            let b = const_volume(t)->0;
            let vs = volume_value(s, vars)->0;
            let vt = volume_value(t, vars)->0;
            assert(a <= b && vs > vt);
            lemma_volume_value(s, vars, vs);
            lemma_const_volume(s, vars, a);
            lemma_const_volume(t, vars, b);
            if vt > 0 {
                lemma_volume_value(t, vars, vt);
            } else {
                let et = extents(t, vars);
                assert forall|i: int| 0 <= i < t.len() implies #[trigger] et[i] > 0 by {
                    if et[i] == 0 {
                        lemma_prod_zero(et, i);
                    }
                }
                lemma_volume_of_extents(t, vars);
            }
        }
    }
}

} // verus!
