//! Soundness of the surjectivity judgment: where it says `True`, on the
//! layouts covered here, every point of the target is the image of a point
//! of the source.
use vstd::prelude::*;
use crate::space::{
    SpaceV, FactorV, valid_coords, scatter, eval_extent, eval_product, opt_extents, extents, all_some, prod,
    volume_of, simplify_extent, simplify_extent_ok, spec_linearize, spec_delinearize, delinearize_ok,
    lemma_delinearize_linearize, lemma_linearize_delinearize, permuted, blank_factor, spaces_compatible,
};
use crate::extent_law::{lemma_volume_value, lemma_volume_of_extents};
use crate::layout::expr::{ExprV, expr_source, expr_source_ok, expr_target, offset_space, join_space, split_space};
use crate::layout::apply::{expr_apply, expr_apply_ok, ext_at, some_unvalued, scan_covered, prefix_valued};
use crate::layout::inverse::{is_permutation, hits, lemma_scatter_at};
use crate::analysis::{Judgment, surjective_judgment};

verus! {

/// `y` is the image of a point of the source that the layout maps without
/// panic.
pub open spec fn reached(e: ExprV, vars: Map<Seq<char>, u64>, y: Seq<u64>) -> bool {
    exists|x: Seq<u64>|
        #[trigger] valid_coords(expr_source(e), vars, x) && expr_apply_ok(e, vars, x) && expr_apply(e, vars, x)
            == Some(y)
}

/// The layout reaches every point of its target.
pub open spec fn maps_onto(e: ExprV, vars: Map<Seq<char>, u64>) -> bool {
    forall|y: Seq<u64>| #[trigger] valid_coords(expr_target(e), vars, y) ==> reached(e, vars, y)
}

/// The spaces have the same rank, every extent of `s` has a value, and every
/// extent of `t` that has one is at most the matching extent of `s`.
pub open spec fn extents_dominate(s: SpaceV, t: SpaceV, vars: Map<Seq<char>, u64>) -> bool {
    &&& s.len() == t.len()
    &&& forall|i: int|
        0 <= i < s.len() ==> (#[trigger] eval_extent(s[i].extent, vars)) is Some && (eval_extent(
            t[i].extent,
            vars,
        ) is Some ==> eval_extent(t[i].extent, vars)->0 <= eval_extent(s[i].extent, vars)->0)
}

/// The layouts on which the surjectivity judgment is shown sound, with the
/// conditions under which each reaches its whole target: identities;
/// linearizations; delinearizations whose volume fits in 64 bits;
/// permutations (of all the dimensions); reshapes (judged surjective only
/// between constant volumes, the target's at most the source's); flips;
/// broadcasts and repeats onto a space of the same rank whose extents do not
/// exceed those of the source; joins; splits of a constant extent that the
/// split size divides; squeezes of a dimension of positive extent;
/// unsqueezes of a factor of extent at most 1; compositions of them whose
/// inner target is compatible with the outer source (same kinds and
/// extents); slices and pads (never judged surjective); and products of
/// them.
pub open spec fn surjectivity_covered(e: ExprV, vars: Map<Seq<char>, u64>) -> bool
    decreases e,
{
    match e {
        ExprV::Composition(l1, l2) => {
            &&& surjectivity_covered(*l1, vars)
            &&& surjectivity_covered(*l2, vars)
            &&& spaces_compatible(expr_target(*l1), expr_source(*l2))
        },
        ExprV::Product(l1, l2) => {
            &&& surjectivity_covered(*l1, vars)
            &&& surjectivity_covered(*l2, vars)
            &&& expr_source_ok(*l1)
        },
        ExprV::Identity(_) => true,
        ExprV::Linearize(s) => simplify_extent_ok(volume_of(s)),
        ExprV::Delinearize(s) => {
            &&& simplify_extent_ok(volume_of(s))
            &&& (all_some(opt_extents(s, vars)) ==> prod(extents(s, vars)) <= u64::MAX)
        },
        ExprV::Permute(s, p) => is_permutation(p, s.len() as int),
        ExprV::Reshape(_, _) => true,
        ExprV::Flip(s, dims) => dims.len() >= s.len(),
        ExprV::Broadcast(s, t) => extents_dominate(s, t, vars),
        ExprV::Repeat(s, t) => extents_dominate(s, t, vars),
        ExprV::Join(s, idx) => idx + 1 < s.len(),
        ExprV::Split(s, idx, n1) => idx < s.len() && n1 > 0 && (s[idx as int].extent matches crate::space::ExtentV::Constant(n)
            && n % n1 == 0),
        ExprV::Squeeze(s, idx) => idx < s.len() && (eval_extent(s[idx as int].extent, vars) matches Some(v)
            && v > 0),
        ExprV::Unsqueeze(s, idx, f) => idx <= s.len() && (eval_extent(f.extent, vars) matches Some(v) ==> v
            <= 1),
        ExprV::Slice(_, _) => true,
        ExprV::Pad(_, _, _) => true,
        _ => false,
    }
}

proof fn lemma_identity_onto(s: SpaceV, vars: Map<Seq<char>, u64>)
    ensures
        maps_onto(ExprV::Identity(s), vars),
{
    let e = ExprV::Identity(s);
    assert forall|y: Seq<u64>| #[trigger] valid_coords(expr_target(e), vars, y) implies reached(e, vars, y) by {
        assert(valid_coords(expr_source(e), vars, y));
    }
}

proof fn lemma_linearize_onto(s: SpaceV, vars: Map<Seq<char>, u64>)
    requires
        simplify_extent_ok(volume_of(s)),
    ensures
        maps_onto(ExprV::Linearize(s), vars),
{
    let e = ExprV::Linearize(s);
    assert forall|y: Seq<u64>| #[trigger] valid_coords(expr_target(e), vars, y) implies reached(e, vars, y) by {
        let t = offset_space(s);
        assert(eval_extent(t[0].extent, vars) is Some);
        let w = eval_extent(simplify_extent(volume_of(s)), vars)->0;
        assert(y[0] < w);
        lemma_volume_value(s, vars, w);
        let oe = opt_extents(s, vars);
        let ex = extents(s, vars);
        assert forall|i: int| 0 <= i < oe.len() && #[trigger] oe[i] == Some(0u64) implies exists|j: int|
            i < j < oe.len() && oe[j] is None by {
            assert(ex[i] == 0);
            crate::extent_law::lemma_prod_zero(ex, i);
        }
        assert(delinearize_ok(oe));
        assert(y[0] as nat / prod(ex) == 0) by (nonlinear_arith)
            requires
                y[0] < prod(ex),
        ;
        assert(spec_delinearize(oe, y[0]) is Some);
        lemma_linearize_delinearize(s, vars, y[0]);
        let x = spec_delinearize(oe, y[0])->0;
        assert(valid_coords(s, vars, x));
        assert(expr_apply(e, vars, x) == Some(seq![y[0]]));
        assert(seq![y[0]] =~= y);
        assert(valid_coords(expr_source(e), vars, x) && expr_apply_ok(e, vars, x) && expr_apply(e, vars, x)
            == Some(y));
    }
}

proof fn lemma_delinearize_onto(s: SpaceV, vars: Map<Seq<char>, u64>)
    requires
        simplify_extent_ok(volume_of(s)),
        all_some(opt_extents(s, vars)) ==> prod(extents(s, vars)) <= u64::MAX,
    ensures
        maps_onto(ExprV::Delinearize(s), vars),
{
    let e = ExprV::Delinearize(s);
    assert forall|y: Seq<u64>| #[trigger] valid_coords(expr_target(e), vars, y) implies reached(e, vars, y) by {
        let oe = opt_extents(s, vars);
        let ex = extents(s, vars);
        assert forall|i: int| 0 <= i < oe.len() implies #[trigger] oe[i] is Some by {
            assert(eval_extent(s[i].extent, vars) is Some);
        }
        assert forall|i: int| 0 <= i < s.len() implies #[trigger] ex[i] > 0 by {
            assert(eval_extent(s[i].extent, vars) is Some);
            assert(y[i] < ex[i]);
        }
        lemma_volume_of_extents(s, vars);
        lemma_delinearize_linearize(s, vars, y);
        let o = spec_linearize(s, vars, y)->0;
        crate::space::lemma_lin_bound(ex, y);
        let x = seq![o];
        assert(valid_coords(offset_space(s), vars, x));
        assert(delinearize_ok(oe));
        assert(valid_coords(expr_source(e), vars, x) && expr_apply_ok(e, vars, x) && expr_apply(e, vars, x)
            == Some(y));
    }
}

proof fn lemma_reshape_onto(s: SpaceV, t: SpaceV, vars: Map<Seq<char>, u64>)
    requires
        all_some(opt_extents(s, vars)),
        prod(extents(s, vars)) <= u64::MAX,
        all_some(opt_extents(t, vars)) ==> prod(extents(t, vars)) <= prod(extents(s, vars)),
    ensures
        maps_onto(ExprV::Reshape(s, t), vars),
{
    let e = ExprV::Reshape(s, t);
    assert forall|y: Seq<u64>| #[trigger] valid_coords(expr_target(e), vars, y) implies reached(e, vars, y) by {
        let ot = opt_extents(t, vars);
        let et = extents(t, vars);
        let os = opt_extents(s, vars);
        let es = extents(s, vars);
        assert forall|i: int| 0 <= i < ot.len() implies #[trigger] ot[i] is Some by {
            assert(eval_extent(t[i].extent, vars) is Some);
        }
        assert forall|i: int| 0 <= i < t.len() implies #[trigger] et[i] > 0 by {
            assert(eval_extent(t[i].extent, vars) is Some);
            assert(y[i] < et[i]);
        }
        crate::space::lemma_prod_positive(et);
        lemma_delinearize_linearize(t, vars, y);
        let o = spec_linearize(t, vars, y)->0;
        crate::space::lemma_lin_bound(et, y);
        assert forall|i: int| 0 <= i < os.len() && #[trigger] os[i] == Some(0u64) implies exists|j: int|
            i < j < os.len() && os[j] is None by {
            crate::extent_law::lemma_prod_zero(es, i);
        }
        assert(o as nat / prod(es) == 0) by (nonlinear_arith)
            requires
                o < prod(es),
        ;
        assert(spec_delinearize(os, o) is Some);
        lemma_linearize_delinearize(s, vars, o);
        let x = spec_delinearize(os, o)->0;
        assert(valid_coords(s, vars, x));
        assert(delinearize_ok(ot));
        assert(valid_coords(expr_source(e), vars, x) && expr_apply_ok(e, vars, x) && expr_apply(e, vars, x)
            == Some(y));
    }
}

proof fn lemma_flip_onto(s: SpaceV, dims: Seq<bool>, vars: Map<Seq<char>, u64>)
    requires
        dims.len() >= s.len(),
    ensures
        maps_onto(ExprV::Flip(s, dims), vars),
{
    let e = ExprV::Flip(s, dims);
    assert forall|y: Seq<u64>| #[trigger] valid_coords(expr_target(e), vars, y) implies reached(e, vars, y) by {
        let x = Seq::new(
            y.len(),
            |i: int|
                if dims[i] {
                    (ext_at(s, vars, i)->0 - 1 - y[i]) as u64
                } else {
                    y[i]
                },
        );
        assert forall|i: int| 0 <= i < s.len() implies {
            &&& (#[trigger] eval_extent(s[i].extent, vars)) is Some
            &&& x[i] < eval_extent(s[i].extent, vars)->0
        } by {
            assert(eval_extent(s[i].extent, vars) is Some);
            assert(y[i] < eval_extent(s[i].extent, vars)->0);
        }
        let z = expr_apply(e, vars, x)->0;
        assert(expr_apply(e, vars, x) is Some);
        assert forall|i: int| 0 <= i < y.len() implies z[i] == y[i] by {
            assert(eval_extent(s[i].extent, vars) is Some);
            assert(y[i] < eval_extent(s[i].extent, vars)->0);
        }
        assert(z =~= y);
        assert(valid_coords(expr_source(e), vars, x) && expr_apply_ok(e, vars, x) && expr_apply(e, vars, x)
            == Some(y));
    }
}

proof fn lemma_permute_onto(s: SpaceV, p: Seq<usize>, vars: Map<Seq<char>, u64>)
    requires
        is_permutation(p, s.len() as int),
    ensures
        maps_onto(ExprV::Permute(s, p), vars),
{
    let e = ExprV::Permute(s, p);
    let n = s.len() as int;
    let blanks = Seq::new(s.len(), |j: int| blank_factor());
    lemma_scatter_at(blanks, s, p, n);
    assert forall|y: Seq<u64>| #[trigger] valid_coords(expr_target(e), vars, y) implies reached(e, vars, y) by {
        let t = permuted(s, p);
        let x = Seq::new(s.len(), |i: int| y[p[i] as int]);
        assert forall|i: int| 0 <= i < s.len() implies {
            &&& (#[trigger] eval_extent(s[i].extent, vars)) is Some
            &&& x[i] < eval_extent(s[i].extent, vars)->0
        } by {
            assert(t[p[i] as int] == s[i]);
            assert(eval_extent(t[p[i] as int].extent, vars) is Some);
        }
        let zeros = Seq::new(s.len(), |i: int| 0u64);
        lemma_scatter_at(zeros, x, p, n);
        let z = scatter(zeros, x, p, n);
        assert forall|k: int| 0 <= k < n implies z[k] == y[k] by {
            assert(hits(p, k));
            let i = choose|i: int| 0 <= i < p.len() && #[trigger] p[i] == k;
            assert(z[p[i] as int] == x[i]);
        }
        assert(z =~= y);
        assert(valid_coords(expr_source(e), vars, x) && expr_apply_ok(e, vars, x) && expr_apply(e, vars, x)
            == Some(y));
    }
}

proof fn lemma_broadcast_onto(s: SpaceV, t: SpaceV, vars: Map<Seq<char>, u64>)
    requires
        extents_dominate(s, t, vars),
    ensures
        maps_onto(ExprV::Broadcast(s, t), vars),
{
    let e = ExprV::Broadcast(s, t);
    assert forall|y: Seq<u64>| #[trigger] valid_coords(expr_target(e), vars, y) implies reached(e, vars, y) by {
        let x = Seq::new(
            y.len(),
            |i: int|
                if ext_at(s, vars, i)->0 > 1 && ext_at(t, vars, i)->0 == 1 {
                    0u64
                } else {
                    y[i]
                },
        );
        assert forall|i: int| 0 <= i < s.len() implies {
            &&& (#[trigger] eval_extent(s[i].extent, vars)) is Some
            &&& x[i] < eval_extent(s[i].extent, vars)->0
        } by {
            assert(eval_extent(t[i].extent, vars) is Some);
            assert(y[i] < eval_extent(t[i].extent, vars)->0);
        }
        assert(!some_unvalued(t, vars, x.len() as int)) by {
            assert forall|j: int| 0 <= j < x.len() && j < t.len() implies !(#[trigger] ext_at(t, vars, j) is None) by {
                assert(eval_extent(t[j].extent, vars) is Some);
            }
        }
        let z = expr_apply(e, vars, x)->0;
        assert forall|i: int| 0 <= i < y.len() implies z[i] == y[i] by {
            assert(eval_extent(t[i].extent, vars) is Some);
            assert(y[i] < eval_extent(t[i].extent, vars)->0);
        }
        assert(z =~= y);
        assert(scan_covered(t, vars, x.len() as int));
        assert(valid_coords(expr_source(e), vars, x) && expr_apply_ok(e, vars, x) && expr_apply(e, vars, x)
            == Some(y));
    }
}

proof fn lemma_repeat_onto(s: SpaceV, t: SpaceV, vars: Map<Seq<char>, u64>)
    requires
        extents_dominate(s, t, vars),
    ensures
        maps_onto(ExprV::Repeat(s, t), vars),
{
    let e = ExprV::Repeat(s, t);
    assert forall|y: Seq<u64>| #[trigger] valid_coords(expr_target(e), vars, y) implies reached(e, vars, y) by {
        assert forall|i: int| 0 <= i < s.len() implies {
            &&& (#[trigger] eval_extent(s[i].extent, vars)) is Some
            &&& y[i] < eval_extent(s[i].extent, vars)->0
        } by {
            assert(eval_extent(t[i].extent, vars) is Some);
            assert(y[i] < eval_extent(t[i].extent, vars)->0);
        }
        assert(!some_unvalued(t, vars, y.len() as int)) by {
            assert forall|j: int| 0 <= j < y.len() && j < t.len() implies !(#[trigger] ext_at(t, vars, j) is None) by {
                assert(eval_extent(t[j].extent, vars) is Some);
            }
        }
        let z = expr_apply(e, vars, y)->0;
        assert forall|i: int| 0 <= i < y.len() implies z[i] == y[i] by {
            assert(eval_extent(t[i].extent, vars) is Some);
            assert(y[i] < eval_extent(t[i].extent, vars)->0);
            vstd::arithmetic::div_mod::lemma_small_mod(y[i] as nat, eval_extent(t[i].extent, vars)->0 as nat);
        }
        assert(z =~= y);
        assert forall|i: int|
            0 <= i < y.len() && i < t.len() && #[trigger] prefix_valued(t, vars, i) implies ext_at(t, vars, i)
            != Some(0u64) by {
            assert(eval_extent(t[i].extent, vars) is Some);
            assert(y[i] < eval_extent(t[i].extent, vars)->0);
        }
        assert(scan_covered(t, vars, y.len() as int));
        assert(valid_coords(expr_source(e), vars, y) && expr_apply_ok(e, vars, y) && expr_apply(e, vars, y)
            == Some(y));
    }
}

proof fn lemma_split_onto(s: SpaceV, idx: usize, n1: u64, vars: Map<Seq<char>, u64>)
    requires
        idx < s.len(),
        n1 > 0,
        s[idx as int].extent matches crate::space::ExtentV::Constant(n) && n % n1 == 0,
    ensures
        maps_onto(ExprV::Split(s, idx, n1), vars),
{
    let e = ExprV::Split(s, idx, n1);
    let i = idx as int;
    let n = s[i].extent->Constant_0;
    let q = (n / n1) as u64;
    assert forall|y: Seq<u64>| #[trigger] valid_coords(expr_target(e), vars, y) implies reached(e, vars, y) by {
        let t = split_space(s, i, n1);
        assert(t[i].extent == crate::space::ExtentV::Constant(q));
        assert(t[i + 1].extent == crate::space::ExtentV::Constant(n1));
        assert(eval_extent(t[i].extent, vars) == Some(q));
        assert(eval_extent(t[i + 1].extent, vars) == Some(n1));
        let a = y[i];
        let b = y[i + 1];
        assert(a < q && b < n1);
        let v = a * n1 + b;
        assert(v < n && v / (n1 as int) == a && v % (n1 as int) == b) by (nonlinear_arith)
            requires
                a < q,
                b < n1,
                v == a * n1 + b,
                q == n / n1,
                n % n1 == 0,
                n1 > 0,
        {
            assert(n == q * n1);
            assert(v < q * n1) by {
                assert(a * n1 + b < a * n1 + n1);
                assert(a * n1 + n1 == (a + 1) * n1);
                assert((a + 1) * n1 <= q * n1);
            }
            vstd::arithmetic::div_mod::lemma_fundamental_div_mod(v as int, n1 as int);
            vstd::arithmetic::div_mod::lemma_div_multiples_vanish_fancy(a as int, b as int, n1 as int);
            vstd::arithmetic::div_mod::lemma_mod_multiples_vanish(a as int, b as int, n1 as int);
            vstd::arithmetic::div_mod::lemma_small_mod(b as nat, n1 as nat);
        }
        let x = y.remove(i + 1).update(i, v as u64);
        assert(x.len() == s.len());
        assert forall|j: int| 0 <= j < s.len() implies {
            &&& (#[trigger] eval_extent(s[j].extent, vars)) is Some
            &&& x[j] < eval_extent(s[j].extent, vars)->0
        } by {
            if j < i {
                assert(t[j] == s[j]);
                assert(eval_extent(t[j].extent, vars) is Some);
            } else if j > i {
                assert(t[j + 1] == s[j]);
                assert(eval_extent(t[j + 1].extent, vars) is Some);
                assert(x[j] == y[j + 1]);
            } else {
                assert(eval_extent(s[j].extent, vars) == Some(n));
            }
        }
        let z = x.remove(i).insert(i, (x[i] / n1) as u64).insert(i + 1, (x[i] % n1) as u64);
        assert(z =~= y) by {
            assert forall|j: int| 0 <= j < y.len() implies z[j] == y[j] by {
                if j > i + 1 {
                    assert(z[j] == x[j - 1]);
                }
            }
        }
        assert(valid_coords(expr_source(e), vars, x) && expr_apply_ok(e, vars, x) && expr_apply(e, vars, x)
            == Some(y));
    }
}

proof fn lemma_join_onto(s: SpaceV, idx: usize, vars: Map<Seq<char>, u64>)
    requires
        idx + 1 < s.len(),
    ensures
        maps_onto(ExprV::Join(s, idx), vars),
{
    let e = ExprV::Join(s, idx);
    let i = idx as int;
    assert forall|y: Seq<u64>| #[trigger] valid_coords(expr_target(e), vars, y) implies reached(e, vars, y) by {
        let t = join_space(s, i);
        let e1 = s[i].extent;
        let e2 = s[i + 1].extent;
        assert(t[i].extent == crate::space::ExtentV::Product(seq![e1, e2]));
        assert(eval_extent(t[i].extent, vars) is Some);
        let w = eval_extent(t[i].extent, vars)->0;
        assert(y[i] < w);
        let ps = seq![e1, e2];
        assert(ps[0] == e1 && ps[1] == e2);
        assert(eval_product(ps, vars, 0) == Some(1u64));
        assert(eval_product(ps, vars, 2) == Some(w));
        assert(eval_product(ps, vars, 1) is Some);
        assert(eval_extent(e1, vars) is Some);
        assert(eval_extent(e2, vars) is Some);
        let a = eval_extent(e1, vars)->0;
        let b = eval_extent(e2, vars)->0;
        assert(1 * a == a);
        assert(eval_product(ps, vars, 1) == Some(a));
        assert(w == a * b);
        assert(b > 0) by (nonlinear_arith)
            requires
                y[i] < a * b,
        ;
        let q = (y[i] / b) as u64;
        let r = (y[i] % b) as u64;
        vstd::arithmetic::div_mod::lemma_fundamental_div_mod(y[i] as int, b as int);
        vstd::arithmetic::div_mod::lemma_mod_bound(y[i] as int, b as int);
        assert(q < a) by {
            vstd::arithmetic::div_mod::lemma_div_is_ordered(y[i] as int, (a * b) as int, b as int);
            vstd::arithmetic::div_mod::lemma_div_by_multiple(a as int, b as int);
            if q >= a {
                assert(y[i] / b >= a);
                assert(b * (y[i] / b) >= b * a) by (nonlinear_arith)
                    requires
                        y[i] / b >= a,
                        b > 0,
                ;
                assert(b * a == a * b) by (nonlinear_arith);
            }
        }
        let x = y.update(i, q).insert(i + 1, r);
        assert(x.len() == s.len());
        assert forall|j: int| 0 <= j < s.len() implies {
            &&& (#[trigger] eval_extent(s[j].extent, vars)) is Some
            &&& x[j] < eval_extent(s[j].extent, vars)->0
        } by {
            if j < i {
                assert(t[j] == s[j]);
                assert(eval_extent(t[j].extent, vars) is Some);
            } else if j > i + 1 {
                assert(t[j - 1] == s[j]);
                assert(eval_extent(t[j - 1].extent, vars) is Some);
                assert(x[j] == y[j - 1]);
            }
        }
        assert(ext_at(s, vars, i + 1) == Some(b));
        assert(x[i] == q && x[i + 1] == r);
        assert(q * b + r == y[i]) by (nonlinear_arith)
            requires
                y[i] == b * (y[i] / b) + y[i] % b,
                q == y[i] / b,
                r == y[i] % b,
        ;
        let z = x.remove(i).remove(i).insert(i, (x[i] * b + x[i + 1]) as u64);
        assert(z =~= y) by {
            assert forall|j: int| 0 <= j < y.len() implies z[j] == y[j] by {
                if j > i {
                    assert(z[j] == x[j + 1]);
                }
            }
        }
        assert(valid_coords(expr_source(e), vars, x) && expr_apply_ok(e, vars, x) && expr_apply(e, vars, x)
            == Some(y));
    }
}

proof fn lemma_squeeze_onto(s: SpaceV, idx: usize, vars: Map<Seq<char>, u64>)
    requires
        idx < s.len(),
        eval_extent(s[idx as int].extent, vars) matches Some(v) && v > 0,
    ensures
        maps_onto(ExprV::Squeeze(s, idx), vars),
{
    let e = ExprV::Squeeze(s, idx);
    let i = idx as int;
    let v = eval_extent(s[i].extent, vars)->0;
    assert forall|y: Seq<u64>| #[trigger] valid_coords(expr_target(e), vars, y) implies reached(e, vars, y) by {
        let t = s.remove(i);
        let x = y.insert(i, 0u64);
        assert forall|j: int| 0 <= j < s.len() implies {
            &&& (#[trigger] eval_extent(s[j].extent, vars)) is Some
            &&& x[j] < eval_extent(s[j].extent, vars)->0
        } by {
            if j < i {
                assert(t[j] == s[j]);
                assert(x[j] == y[j]);
                assert(eval_extent(t[j].extent, vars) is Some);
                assert(y[j] < eval_extent(t[j].extent, vars)->0);
            } else if j > i {
                assert(t[j - 1] == s[j]);
                assert(x[j] == y[j - 1]);
                assert(eval_extent(t[j - 1].extent, vars) is Some);
                assert(y[j - 1] < eval_extent(t[j - 1].extent, vars)->0);
            } else {
                assert(x[j] == 0);
            }
        }
        assert(x.remove(i) =~= y);
        assert(valid_coords(expr_source(e), vars, x) && expr_apply_ok(e, vars, x) && expr_apply(e, vars, x)
            == Some(y));
    }
}

proof fn lemma_unsqueeze_onto(s: SpaceV, idx: usize, f: FactorV, vars: Map<Seq<char>, u64>)
    requires
        idx <= s.len(),
        eval_extent(f.extent, vars) matches Some(v) ==> v <= 1,
    ensures
        maps_onto(ExprV::Unsqueeze(s, idx, f), vars),
{
    let e = ExprV::Unsqueeze(s, idx, f);
    let i = idx as int;
    assert forall|y: Seq<u64>| #[trigger] valid_coords(expr_target(e), vars, y) implies reached(e, vars, y) by {
        let t = s.insert(i, f);
        assert(t[i] == f);
        assert(eval_extent(t[i].extent, vars) is Some);
        assert(y[i] == 0);
        let x = y.remove(i);
        assert forall|j: int| 0 <= j < s.len() implies {
            &&& (#[trigger] eval_extent(s[j].extent, vars)) is Some
            &&& x[j] < eval_extent(s[j].extent, vars)->0
        } by {
            if j < i {
                assert(t[j] == s[j]);
                assert(eval_extent(t[j].extent, vars) is Some);
            } else {
                assert(t[j + 1] == s[j]);
                assert(eval_extent(t[j + 1].extent, vars) is Some);
            }
        }
        assert(x.insert(i, 0u64) =~= y);
        assert(valid_coords(expr_source(e), vars, x) && expr_apply_ok(e, vars, x) && expr_apply(e, vars, x)
            == Some(y));
    }
}

/// A point of the second of two compatible spaces is a point of the first.
proof fn lemma_compatible_back(a: SpaceV, b: SpaceV, vars: Map<Seq<char>, u64>, x: Seq<u64>)
    requires
        spaces_compatible(a, b),
        valid_coords(b, vars, x),
    ensures
        valid_coords(a, vars, x),
{
    assert forall|i: int| 0 <= i < a.len() implies {
        &&& (#[trigger] eval_extent(a[i].extent, vars)) is Some
        &&& x[i] < eval_extent(a[i].extent, vars)->0
    } by {
        assert(a[i].extent == b[i].extent);
        assert(eval_extent(b[i].extent, vars) is Some);
    }
}

proof fn lemma_composition_onto(l1: ExprV, l2: ExprV, vars: Map<Seq<char>, u64>)
    requires
        maps_onto(l1, vars),
        maps_onto(l2, vars),
        spaces_compatible(expr_target(l1), expr_source(l2)),
    ensures
        maps_onto(ExprV::Composition(Box::new(l1), Box::new(l2)), vars),
{
    let e = ExprV::Composition(Box::new(l1), Box::new(l2));
    assert forall|y: Seq<u64>| #[trigger] valid_coords(expr_target(e), vars, y) implies reached(e, vars, y) by {
        assert(valid_coords(expr_target(l2), vars, y));
        assert(reached(l2, vars, y));
        let m = choose|m: Seq<u64>|
            #[trigger] valid_coords(expr_source(l2), vars, m) && expr_apply_ok(l2, vars, m) && expr_apply(l2, vars, m)
                == Some(y);
        lemma_compatible_back(expr_target(l1), expr_source(l2), vars, m);
        assert(valid_coords(expr_target(l1), vars, m));
        assert(reached(l1, vars, m));
        let x = choose|x: Seq<u64>|
            #[trigger] valid_coords(expr_source(l1), vars, x) && expr_apply_ok(l1, vars, x) && expr_apply(l1, vars, x)
                == Some(m);
        assert(valid_coords(expr_source(e), vars, x) && expr_apply_ok(e, vars, x) && expr_apply(e, vars, x)
            == Some(y));
    }
}

/// Points of the two parts of a space are the two parts of a point of it.
pub proof fn lemma_valid_concat(a: SpaceV, b: SpaceV, vars: Map<Seq<char>, u64>, y: Seq<u64>)
    ensures
        valid_coords(a + b, vars, y) ==> valid_coords(a, vars, y.take(a.len() as int)) && valid_coords(
            b,
            vars,
            y.skip(a.len() as int),
        ),
        valid_coords(a, vars, y.take(a.len() as int)) && valid_coords(b, vars, y.skip(a.len() as int)) && y.len()
            == a.len() + b.len() ==> valid_coords(a + b, vars, y),
{
    let n = a.len() as int;
    if valid_coords(a + b, vars, y) {
        assert forall|i: int| 0 <= i < a.len() implies {
            &&& (#[trigger] eval_extent(a[i].extent, vars)) is Some
            &&& y.take(n)[i] < eval_extent(a[i].extent, vars)->0
        } by {
            assert((a + b)[i] == a[i]);
            assert(eval_extent((a + b)[i].extent, vars) is Some);
        }
        assert forall|i: int| 0 <= i < b.len() implies {
            &&& (#[trigger] eval_extent(b[i].extent, vars)) is Some
            &&& y.skip(n)[i] < eval_extent(b[i].extent, vars)->0
        } by {
            assert((a + b)[n + i] == b[i]);
            assert(eval_extent((a + b)[n + i].extent, vars) is Some);
        }
    }
    if valid_coords(a, vars, y.take(n)) && valid_coords(b, vars, y.skip(n)) && y.len() == a.len() + b.len() {
        assert forall|i: int| 0 <= i < (a + b).len() implies {
            &&& (#[trigger] eval_extent((a + b)[i].extent, vars)) is Some
            &&& y[i] < eval_extent((a + b)[i].extent, vars)->0
        } by {
            if i < n {
                assert(y.take(n)[i] == y[i]);
                assert(eval_extent(a[i].extent, vars) is Some);
            } else {
                assert(y.skip(n)[i - n] == y[i]);
                assert((a + b)[i] == b[i - n]);
                assert(eval_extent(b[i - n].extent, vars) is Some);
            }
        }
    }
}

proof fn lemma_product_onto(l1: ExprV, l2: ExprV, vars: Map<Seq<char>, u64>)
    requires
        maps_onto(l1, vars),
        maps_onto(l2, vars),
        expr_source_ok(l1),
    ensures
        maps_onto(ExprV::Product(Box::new(l1), Box::new(l2)), vars),
{
    let e = ExprV::Product(Box::new(l1), Box::new(l2));
    assert forall|y: Seq<u64>| #[trigger] valid_coords(expr_target(e), vars, y) implies reached(e, vars, y) by {
        let t1 = expr_target(l1);
        let t2 = expr_target(l2);
        lemma_valid_concat(t1, t2, vars, y);
        let y1 = y.take(t1.len() as int);
        let y2 = y.skip(t1.len() as int);
        assert(valid_coords(t1, vars, y1));
        assert(valid_coords(t2, vars, y2));
        assert(reached(l1, vars, y1));
        assert(reached(l2, vars, y2));
        let x1 = choose|x: Seq<u64>|
            #[trigger] valid_coords(expr_source(l1), vars, x) && expr_apply_ok(l1, vars, x) && expr_apply(l1, vars, x)
                == Some(y1);
        let x2 = choose|x: Seq<u64>|
            #[trigger] valid_coords(expr_source(l2), vars, x) && expr_apply_ok(l2, vars, x) && expr_apply(l2, vars, x)
                == Some(y2);
        let x = x1 + x2;
        let n1 = expr_source(l1).len() as int;
        assert(x.take(n1) =~= x1);
        assert(x.skip(n1) =~= x2);
        lemma_valid_concat(expr_source(l1), expr_source(l2), vars, x);
        assert(y1 + y2 =~= y);
        assert(valid_coords(expr_source(e), vars, x) && expr_apply_ok(e, vars, x) && expr_apply(e, vars, x)
            == Some(y));
    }
}

/// On the covered layouts (see [`surjectivity_covered`]), where the
/// surjectivity judgment is `True` the layout reaches its whole target: every point of
/// the target space is the image of a point of the source space that the
/// layout maps without panic.
pub proof fn lemma_surjective_judgment_sound(e: ExprV, vars: Map<Seq<char>, u64>)
    requires
        surjectivity_covered(e, vars),
        surjective_judgment(e) == Judgment::True,
    ensures
        maps_onto(e, vars),
    decreases e,
{
    match e {
        ExprV::Composition(l1, l2) => {
            lemma_surjective_judgment_sound(*l1, vars);
            lemma_surjective_judgment_sound(*l2, vars);
            lemma_composition_onto(*l1, *l2, vars);
        },
        ExprV::Product(l1, l2) => {
            lemma_surjective_judgment_sound(*l1, vars);
            lemma_surjective_judgment_sound(*l2, vars);
            lemma_product_onto(*l1, *l2, vars);
        },
        ExprV::Identity(s) => lemma_identity_onto(s, vars),
        ExprV::Linearize(s) => lemma_linearize_onto(s, vars),
        ExprV::Delinearize(s) => lemma_delinearize_onto(s, vars),
        ExprV::Permute(s, p) => lemma_permute_onto(s, p, vars),
        ExprV::Reshape(s, t) => {
            crate::judgment_laws::lemma_const_volume(s, vars, crate::analysis::const_volume(s)->0);
            crate::judgment_laws::lemma_const_volume(t, vars, crate::analysis::const_volume(t)->0);
            lemma_reshape_onto(s, t, vars);
        },
        ExprV::Flip(s, dims) => lemma_flip_onto(s, dims, vars),
        ExprV::Broadcast(s, t) => lemma_broadcast_onto(s, t, vars),
        ExprV::Repeat(s, t) => lemma_repeat_onto(s, t, vars),
        ExprV::Join(s, idx) => lemma_join_onto(s, idx, vars),
        ExprV::Split(s, idx, n1) => lemma_split_onto(s, idx, n1, vars),
        ExprV::Squeeze(s, idx) => lemma_squeeze_onto(s, idx, vars),
        ExprV::Unsqueeze(s, idx, f) => lemma_unsqueeze_onto(s, idx, f, vars),
        _ => {},
    }
}

} // verus!
