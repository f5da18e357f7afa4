//! Images lie in the target: on the layouts covered here, the image of every
//! point of the source that the layout maps without panic is a point of its
//! target space. (A split is left out: it sends `v` to `(v / n1, v % n1)`
//! while its target has extents `n1` and `n / n1`.)
use vstd::prelude::*;
use crate::space::{
    SpaceV, valid_coords, scatter, eval_extent, eval_product, opt_extents, extents, prod,
    volume_of, simplify_extent_ok, spec_linearize, spec_delinearize, spaces_compatible, permuted, blank_factor,
    lemma_linearize_delinearize, lemma_lin_bound,
};
use crate::extent_law::lemma_volume_of_extents;
use crate::layout::expr::{ExprV, expr_source, expr_target, join_space, split_space};
use crate::layout::apply::{expr_apply, expr_apply_ok, ext_at, some_unvalued, prefix_valued};
use crate::layout::inverse::{is_permutation, hits, lemma_scatter_at};
use crate::surjectivity_law::lemma_valid_concat;

verus! {

/// The spaces have the same rank, and every extent of `t` has a value at
/// least the matching extent of `s` plus its left padding.
pub open spec fn pads_fit(s: SpaceV, t: SpaceV, padding: Seq<(u64, u64)>, vars: Map<Seq<char>, u64>) -> bool {
    &&& t.len() == s.len()
    &&& forall|i: int|
        0 <= i < s.len() ==> (#[trigger] eval_extent(t[i].extent, vars)) is Some && (eval_extent(
            s[i].extent,
            vars,
        ) is Some ==> eval_extent(s[i].extent, vars)->0 + padding[i].0 <= eval_extent(t[i].extent, vars)->0)
}

/// Every extent of `t` that has a value is 1 or at least the matching extent
/// of `s`.
pub open spec fn broadcast_fits(s: SpaceV, t: SpaceV, vars: Map<Seq<char>, u64>) -> bool {
    &&& t.len() == s.len()
    &&& forall|i: int|
        0 <= i < s.len() && (#[trigger] eval_extent(t[i].extent, vars)) is Some ==> eval_extent(t[i].extent, vars)
            == Some(1u64) || (eval_extent(s[i].extent, vars) is Some && eval_extent(s[i].extent, vars)->0
            <= eval_extent(t[i].extent, vars)->0)
}

/// The layouts whose images are shown to lie in their targets: identities,
/// linearizations (whose volume simplifies), delinearizations, permutations
/// (of all the dimensions), reshapes, binary shadows, flips, slices, joins
/// whose joined extent fits in 64 bits, splits of a constant extent that the
/// split size divides, squeezes, unsqueezes of a factor of
/// positive extent, pads whose target extents hold the padded source,
/// broadcasts onto extents 1 or at least the source's, repeats onto a space
/// of the same rank, and compositions (with an inner target compatible with
/// the outer source) and products of them.
pub open spec fn image_covered(e: ExprV, vars: Map<Seq<char>, u64>) -> bool
    decreases e,
{
    match e {
        ExprV::Composition(l1, l2) => {
            &&& image_covered(*l1, vars)
            &&& image_covered(*l2, vars)
            &&& spaces_compatible(expr_target(*l1), expr_source(*l2))
        },
        ExprV::Product(l1, l2) => image_covered(*l1, vars) && image_covered(*l2, vars),
        ExprV::Identity(_) => true,
        ExprV::Linearize(s) => simplify_extent_ok(volume_of(s)),
        ExprV::Delinearize(_) => true,
        ExprV::Permute(s, p) => is_permutation(p, s.len() as int),
        ExprV::Reshape(_, _) => true,
        ExprV::BinaryShadow(_, _) => true,
        ExprV::Flip(_, _) => true,
        ExprV::Slice(_, _) => true,
        ExprV::Join(s, idx) => idx + 1 < s.len() && (eval_extent(s[idx as int].extent, vars) matches Some(a)
            && eval_extent(s[idx + 1].extent, vars) matches Some(b) ==> a * b <= u64::MAX),
        ExprV::Split(s, idx, n1) => idx < s.len() && n1 > 0 && (s[idx as int].extent matches crate::space::ExtentV::Constant(n)
            && n % n1 == 0),
        ExprV::Squeeze(s, idx) => idx < s.len(),
        ExprV::Unsqueeze(s, idx, f) => idx <= s.len() && (eval_extent(f.extent, vars) matches Some(v) && v >= 1),
        ExprV::Pad(s, t, padding) => pads_fit(s, t, padding, vars),
        ExprV::Broadcast(s, t) => broadcast_fits(s, t, vars),
        ExprV::Repeat(s, t) => t.len() == s.len(),
    }
}

proof fn lemma_compatible_forward(a: SpaceV, b: SpaceV, vars: Map<Seq<char>, u64>, x: Seq<u64>)
    requires
        spaces_compatible(a, b),
        valid_coords(a, vars, x),
    ensures
        valid_coords(b, vars, x),
{
    assert forall|i: int| 0 <= i < b.len() implies {
        &&& (#[trigger] eval_extent(b[i].extent, vars)) is Some
        &&& x[i] < eval_extent(b[i].extent, vars)->0
    } by {
        assert(a[i].extent == b[i].extent);
        assert(eval_extent(a[i].extent, vars) is Some);
    }
}

/// Delinearizing an offset into `s`, where it gives digits, gives a point of `s`.
proof fn lemma_digits_valid(s: SpaceV, vars: Map<Seq<char>, u64>, o: u64)
    requires
        crate::space::delinearize_ok(opt_extents(s, vars)),
        spec_delinearize(opt_extents(s, vars), o) is Some,
    ensures
        valid_coords(s, vars, spec_delinearize(opt_extents(s, vars), o)->0),
{
    lemma_linearize_delinearize(s, vars, o);
}

proof fn lemma_linearize_image(s: SpaceV, vars: Map<Seq<char>, u64>, x: Seq<u64>)
    requires
        simplify_extent_ok(volume_of(s)),
        valid_coords(s, vars, x),
        prod(extents(s, vars)) <= u64::MAX,
    ensures
        valid_coords(expr_target(ExprV::Linearize(s)), vars, expr_apply(ExprV::Linearize(s), vars, x)->0),
{
    let ex = extents(s, vars);
    assert forall|i: int| 0 <= i < opt_extents(s, vars).len() implies #[trigger] opt_extents(s, vars)[i] is Some by {
        assert(eval_extent(s[i].extent, vars) is Some);
    }
    assert forall|i: int| 0 <= i < s.len() implies #[trigger] ex[i] > 0 by {
        assert(eval_extent(s[i].extent, vars) is Some);
        assert(x[i] < ex[i]);
    }
    assert forall|j: int| 0 <= j < ex.len() implies #[trigger] x[j] < ex[j] by {
        assert(eval_extent(s[j].extent, vars) is Some);
    }
    lemma_volume_of_extents(s, vars);
    lemma_lin_bound(ex, x);
}

proof fn lemma_permute_image(s: SpaceV, p: Seq<usize>, vars: Map<Seq<char>, u64>, x: Seq<u64>)
    requires
        is_permutation(p, s.len() as int),
        valid_coords(s, vars, x),
    ensures
        valid_coords(permuted(s, p), vars, expr_apply(ExprV::Permute(s, p), vars, x)->0),
{
    let n = s.len() as int;
    let zeros = Seq::new(s.len(), |i: int| 0u64);
    let blanks = Seq::new(s.len(), |j: int| blank_factor());
    lemma_scatter_at(zeros, x, p, n);
    lemma_scatter_at(blanks, s, p, n);
    let y = scatter(zeros, x, p, n);
    let t = permuted(s, p);
    assert forall|k: int| 0 <= k < t.len() implies {
        &&& (#[trigger] eval_extent(t[k].extent, vars)) is Some
        &&& y[k] < eval_extent(t[k].extent, vars)->0
    } by {
        assert(hits(p, k));
        let i = choose|i: int| 0 <= i < p.len() && #[trigger] p[i] == k;
        assert(t[p[i] as int] == s[i]);
        assert(y[p[i] as int] == x[i]);
        assert(eval_extent(s[i].extent, vars) is Some);
    }
}

proof fn lemma_join_image(s: SpaceV, idx: usize, vars: Map<Seq<char>, u64>, x: Seq<u64>)
    requires
        idx + 1 < s.len(),
        eval_extent(s[idx as int].extent, vars) matches Some(a) && eval_extent(s[idx + 1].extent, vars) matches Some(
            b,
        ) ==> a * b <= u64::MAX,
        valid_coords(s, vars, x),
        expr_apply_ok(ExprV::Join(s, idx), vars, x),
    ensures
        valid_coords(join_space(s, idx as int), vars, expr_apply(ExprV::Join(s, idx), vars, x)->0),
{
    let i = idx as int;
    let t = join_space(s, i);
    let e1 = s[i].extent;
    let e2 = s[i + 1].extent;
    assert(eval_extent(e1, vars) is Some);
    assert(eval_extent(e2, vars) is Some);
    let a = eval_extent(e1, vars)->0;
    let b = eval_extent(e2, vars)->0;
    let ps = seq![e1, e2];
    assert(ps[0] == e1 && ps[1] == e2);
    assert(eval_product(ps, vars, 0) == Some(1u64));
    assert(1 * a == a);
    assert(eval_product(ps, vars, 1) == Some(a));
    assert(a * b <= u64::MAX);
    assert(eval_product(ps, vars, 2) == Some((a * b) as u64));
    assert(t[i].extent == crate::space::ExtentV::Product(ps));
    let v = x[i] * b + x[i + 1];
    assert(x[i] < a && x[i + 1] < b);
    assert(v < a * b) by (nonlinear_arith)
        requires
            x[i] < a,
            x[i + 1] < b,
            v == x[i] * b + x[i + 1],
    ;
    let y = x.remove(i).remove(i).insert(i, v as u64);
    assert(ext_at(s, vars, i + 1) == Some(b));
    assert(expr_apply(ExprV::Join(s, idx), vars, x) == Some(y));
    assert forall|j: int| 0 <= j < t.len() implies {
        &&& (#[trigger] eval_extent(t[j].extent, vars)) is Some
        &&& y[j] < eval_extent(t[j].extent, vars)->0
    } by {
        if j < i {
            assert(t[j] == s[j]);
            assert(y[j] == x[j]);
            assert(eval_extent(s[j].extent, vars) is Some);
        } else if j > i {
            assert(t[j] == s[j + 1]);
            assert(y[j] == x[j + 1]);
            assert(eval_extent(s[j + 1].extent, vars) is Some);
        }
    }
}

proof fn lemma_split_image(s: SpaceV, idx: usize, n1: u64, vars: Map<Seq<char>, u64>, x: Seq<u64>)
    requires
        idx < s.len(),
        n1 > 0,
        s[idx as int].extent matches crate::space::ExtentV::Constant(n) && n % n1 == 0,
        valid_coords(s, vars, x),
    ensures
        valid_coords(split_space(s, idx as int, n1), vars, expr_apply(ExprV::Split(s, idx, n1), vars, x)->0),
{
    let i = idx as int;
    let t = split_space(s, i, n1);
    let n = s[i].extent->Constant_0;
    let v = x[i];
    assert(eval_extent(s[i].extent, vars) == Some(n));
    assert(v < n);
    let q = (n / n1) as u64;
    assert(v / n1 < q && v % n1 < n1) by (nonlinear_arith)
        requires
            v < n,
            n % n1 == 0,
            n1 > 0,
            q == n / n1,
    {
        assert(n == n1 * q);
        assert(v / n1 < q) by {
            if v / n1 >= q {
                assert(v >= n1 * (v / n1));
                assert(n1 * (v / n1) >= n1 * q);
            }
        }
    }
    let y = x.remove(i).insert(i, (v / n1) as u64).insert(i + 1, (v % n1) as u64);
    assert(expr_apply(ExprV::Split(s, idx, n1), vars, x) == Some(y));
    assert forall|j: int| 0 <= j < t.len() implies {
        &&& (#[trigger] eval_extent(t[j].extent, vars)) is Some
        &&& y[j] < eval_extent(t[j].extent, vars)->0
    } by {
        if j < i {
            assert(t[j] == s[j]);
            assert(y[j] == x[j]);
            assert(eval_extent(s[j].extent, vars) is Some);
        } else if j > i + 1 {
            assert(t[j] == s[j - 1]);
            assert(y[j] == x[j - 1]);
            assert(eval_extent(s[j - 1].extent, vars) is Some);
        }
    }
}

proof fn lemma_pointwise_image(e: ExprV, vars: Map<Seq<char>, u64>, x: Seq<u64>)
    requires
        e is Flip || e is Slice || e is Pad || e is Broadcast || e is Repeat,
        image_covered(e, vars),
        valid_coords(expr_source(e), vars, x),
        expr_apply_ok(e, vars, x),
        expr_apply(e, vars, x) is Some,
    ensures
        valid_coords(expr_target(e), vars, expr_apply(e, vars, x)->0),
{
    let y = expr_apply(e, vars, x)->0;
    let t = expr_target(e);
    match e {
        ExprV::Flip(s, dims) => {
            assert forall|i: int| 0 <= i < t.len() implies {
                &&& (#[trigger] eval_extent(t[i].extent, vars)) is Some
                &&& y[i] < eval_extent(t[i].extent, vars)->0
            } by {
                assert(eval_extent(s[i].extent, vars) is Some);
                assert(x[i] < eval_extent(s[i].extent, vars)->0);
            }
        },
        ExprV::Slice(s, ranges) => {
            assert forall|i: int| 0 <= i < t.len() implies {
                &&& (#[trigger] eval_extent(t[i].extent, vars)) is Some
                &&& y[i] < eval_extent(t[i].extent, vars)->0
            } by {
                assert(ranges[i].0 <= x[i] < ranges[i].1) by {
                    if !(ranges[i].0 <= x[i] < ranges[i].1) {
                        assert(!(ranges[i].0 <= x[i] < ranges[i].1));
                    }
                }
            }
        },
        ExprV::Pad(s, tt, padding) => {
            assert forall|i: int| 0 <= i < t.len() implies {
                &&& (#[trigger] eval_extent(t[i].extent, vars)) is Some
                &&& y[i] < eval_extent(t[i].extent, vars)->0
            } by {
                assert(eval_extent(s[i].extent, vars) is Some);
                assert(x[i] < eval_extent(s[i].extent, vars)->0);
                assert(eval_extent(tt[i].extent, vars) is Some);
            }
        },
        ExprV::Broadcast(s, tt) => {
            assert forall|i: int| 0 <= i < t.len() implies {
                &&& (#[trigger] eval_extent(t[i].extent, vars)) is Some
                &&& y[i] < eval_extent(t[i].extent, vars)->0
            } by {
                assert(eval_extent(s[i].extent, vars) is Some);
                assert(x[i] < eval_extent(s[i].extent, vars)->0);
                if ext_at(tt, vars, i) is None {
                    assert(some_unvalued(tt, vars, x.len() as int));
                }
            }
        },
        ExprV::Repeat(s, tt) => {
            assert forall|i: int| 0 <= i < t.len() implies {
                &&& (#[trigger] eval_extent(t[i].extent, vars)) is Some
                &&& y[i] < eval_extent(t[i].extent, vars)->0
            } by {
                assert(eval_extent(s[i].extent, vars) is Some);
                assert(x[i] < eval_extent(s[i].extent, vars)->0);
                if ext_at(tt, vars, i) is None {
                    assert(some_unvalued(tt, vars, x.len() as int));
                }
                assert(prefix_valued(tt, vars, i)) by {
                    assert forall|j: int| 0 <= j < i implies j < tt.len() && (#[trigger] ext_at(tt, vars, j)) is Some by {
                        if ext_at(tt, vars, j) is None {
                            assert(some_unvalued(tt, vars, x.len() as int));
                        }
                    }
                }
                let te = ext_at(tt, vars, i)->0;
                assert(te != 0);
                if te < ext_at(s, vars, i)->0 {
                    vstd::arithmetic::div_mod::lemma_mod_bound(x[i] as int, te as int);
                }
            }
        },
        _ => {},
    }
}

proof fn lemma_shift_image(e: ExprV, vars: Map<Seq<char>, u64>, x: Seq<u64>)
    requires
        e is Squeeze || e is Unsqueeze,
        image_covered(e, vars),
        valid_coords(expr_source(e), vars, x),
        expr_apply_ok(e, vars, x),
        expr_apply(e, vars, x) is Some,
    ensures
        valid_coords(expr_target(e), vars, expr_apply(e, vars, x)->0),
{
    let y = expr_apply(e, vars, x)->0;
    let t = expr_target(e);
    match e {
        ExprV::Squeeze(s, idx) => {
            let i = idx as int;
            assert forall|j: int| 0 <= j < t.len() implies {
                &&& (#[trigger] eval_extent(t[j].extent, vars)) is Some
                &&& y[j] < eval_extent(t[j].extent, vars)->0
            } by {
                if j < i {
                    assert(t[j] == s[j] && y[j] == x[j]);
                    assert(eval_extent(s[j].extent, vars) is Some);
                } else {
                    assert(t[j] == s[j + 1] && y[j] == x[j + 1]);
                    assert(eval_extent(s[j + 1].extent, vars) is Some);
                }
            }
        },
        ExprV::Unsqueeze(s, idx, f) => {
            let i = idx as int;
            assert forall|j: int| 0 <= j < t.len() implies {
                &&& (#[trigger] eval_extent(t[j].extent, vars)) is Some
                &&& y[j] < eval_extent(t[j].extent, vars)->0
            } by {
                if j < i {
                    assert(t[j] == s[j] && y[j] == x[j]);
                    assert(eval_extent(s[j].extent, vars) is Some);
                } else if j > i {
                    assert(t[j] == s[j - 1] && y[j] == x[j - 1]);
                    assert(eval_extent(s[j - 1].extent, vars) is Some);
                } else {
                    assert(t[j] == f && y[j] == 0);
                }
            }
        },
        _ => {},
    }
}

proof fn lemma_product_image(l1: ExprV, l2: ExprV, vars: Map<Seq<char>, u64>, x: Seq<u64>)
    requires
        valid_coords(expr_source(ExprV::Product(Box::new(l1), Box::new(l2))), vars, x),
        expr_apply(ExprV::Product(Box::new(l1), Box::new(l2)), vars, x) is Some,
        valid_coords(
            expr_target(l1),
            vars,
            expr_apply(l1, vars, x.take(expr_source(l1).len() as int))->0,
        ),
        valid_coords(
            expr_target(l2),
            vars,
            expr_apply(l2, vars, x.skip(expr_source(l1).len() as int))->0,
        ),
    ensures
        valid_coords(
            expr_target(ExprV::Product(Box::new(l1), Box::new(l2))),
            vars,
            expr_apply(ExprV::Product(Box::new(l1), Box::new(l2)), vars, x)->0,
        ),
{
    let n1 = expr_source(l1).len() as int;
    let o1 = expr_apply(l1, vars, x.take(n1))->0;
    let o2 = expr_apply(l2, vars, x.skip(n1))->0;
    let y = o1 + o2;
    let t1 = expr_target(l1);
    assert(y.take(t1.len() as int) =~= o1);
    assert(y.skip(t1.len() as int) =~= o2);
    lemma_valid_concat(t1, expr_target(l2), vars, y);
}

/// On the covered layouts (see [`image_covered`]), the image of every point
/// of the source that the layout maps without panic is a point of the target.
pub proof fn lemma_image_in_target(e: ExprV, vars: Map<Seq<char>, u64>, x: Seq<u64>)
    requires
        image_covered(e, vars),
        valid_coords(expr_source(e), vars, x),
        expr_apply_ok(e, vars, x),
        expr_apply(e, vars, x) is Some,
    ensures
        valid_coords(expr_target(e), vars, expr_apply(e, vars, x)->0),
    decreases e,
{
    match e {
        ExprV::Composition(l1, l2) => {
            lemma_image_in_target(*l1, vars, x);
            let m = expr_apply(*l1, vars, x)->0;
            lemma_compatible_forward(expr_target(*l1), expr_source(*l2), vars, m);
            lemma_image_in_target(*l2, vars, m);
        },
        ExprV::Product(l1, l2) => {
            let n1 = expr_source(*l1).len() as int;
            lemma_valid_concat(expr_source(*l1), expr_source(*l2), vars, x);
            lemma_image_in_target(*l1, vars, x.take(n1));
            lemma_image_in_target(*l2, vars, x.skip(n1));
            lemma_product_image(*l1, *l2, vars, x);
        },
        ExprV::Identity(_) => {},
        ExprV::Linearize(s) => lemma_linearize_image(s, vars, x),
        ExprV::Delinearize(s) => {
            assert(x =~= seq![x[0]]);
            lemma_digits_valid(s, vars, x[0]);
        },
        ExprV::Permute(s, p) => lemma_permute_image(s, p, vars, x),
        ExprV::Reshape(s, t) => {
            lemma_digits_valid(t, vars, spec_linearize(s, vars, x)->0);
        },
        ExprV::BinaryShadow(s, m) => {
            lemma_digits_valid(
                s,
                vars,
                crate::layout::scalar::bit_linear(spec_linearize(s, vars, x)->0, m),
            );
        },
        ExprV::Join(s, idx) => lemma_join_image(s, idx, vars, x),
        ExprV::Split(s, idx, n1) => lemma_split_image(s, idx, n1, vars, x),
        ExprV::Squeeze(_, _) => lemma_shift_image(e, vars, x),
        ExprV::Unsqueeze(_, _, _) => lemma_shift_image(e, vars, x),
        _ => lemma_pointwise_image(e, vars, x),
    }
}

} // verus!
