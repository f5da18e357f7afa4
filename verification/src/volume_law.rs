//! The generators that neither add nor drop points keep the volume: the
//! simplified volume of the target has the value of that of the source.
use vstd::prelude::*;
use crate::space::{
    SpaceV, ExtentV, eval_extent, opt_extents, extents, all_some, prod, volume_of, simplify_extent,
    simplify_extent_ok, lemma_prod_split, lemma_prod_skip,
};
use crate::extent_law::{lemma_volume_value, lemma_volume_of_extents, lemma_prod_zero};
use crate::space::{permuted, scatter, blank_factor, positions_below};
use crate::layout::expr::{ExprV, expr_source, expr_source_ok, expr_target, join_space, split_space};
use crate::layout::inverse::{is_permutation, hits, lemma_scatter_at};

verus! {

/// The value of the simplified volume of a space.
pub open spec fn volume_eval(s: SpaceV, vars: Map<Seq<char>, u64>) -> Option<u64> {
    eval_extent(simplify_extent(volume_of(s)), vars)
}

/// The generators covered: identities, flips, binary shadows,
/// linearizations, delinearizations, permutations of all dimensions, joins,
/// and splits of a constant extent that the split size divides.
pub open spec fn volume_covered(e: ExprV) -> bool {
    match e {
        ExprV::Identity(_) => true,
        ExprV::Permute(s, p) => is_permutation(p, s.len() as int),
        ExprV::Flip(_, _) => true,
        ExprV::BinaryShadow(_, _) => true,
        ExprV::Linearize(_) => true,
        ExprV::Delinearize(_) => true,
        ExprV::Join(s, idx) => idx + 1 < s.len(),
        ExprV::Split(s, idx, n1) => idx < s.len() && n1 > 0 && (s[idx as int].extent matches ExtentV::Constant(n)
            && n % n1 == 0),
        _ => false,
    }
}

proof fn lemma_all_positive(ex: Seq<u64>)
    requires
        prod(ex) > 0,
    ensures
        forall|i: int| 0 <= i < ex.len() ==> #[trigger] ex[i] > 0,
{
    assert forall|i: int| 0 <= i < ex.len() implies #[trigger] ex[i] > 0 by {
        if ex[i] == 0 {
            lemma_prod_zero(ex, i);
        }
    }
}

pub(crate) proof fn lemma_prod_single(w: u64)
    ensures
        prod(seq![w]) == w,
{
    assert(seq![w].drop_first() =~= Seq::<u64>::empty());
    assert(prod(seq![w].drop_first()) == 1);
    assert(prod(seq![w]) == seq![w][0] as nat * prod(seq![w].drop_first()));
}

proof fn lemma_prod_concat(u: Seq<u64>, v: Seq<u64>)
    ensures
        prod(u + v) == prod(u) * prod(v),
{
    lemma_prod_split(u + v, u.len() as int);
    assert((u + v).take(u.len() as int) =~= u);
    assert((u + v).skip(u.len() as int) =~= v);
}

/// Where the extents of a space have values, the space whose extents are
/// those values in a new order of parts `a + m + b` has the product of the
/// parts as volume.
proof fn lemma_replace_middle(ex: Seq<u64>, i: int, k: int, mid: Seq<u64>)
    requires
        0 <= i,
        0 <= k,
        i + k <= ex.len(),
        prod(mid) == prod(ex.skip(i).take(k)),
    ensures
        prod(ex.take(i) + mid + ex.skip(i + k)) == prod(ex),
{
    lemma_prod_concat(ex.take(i) + mid, ex.skip(i + k));
    lemma_prod_concat(ex.take(i), mid);
    lemma_prod_split(ex, i);
    lemma_prod_split(ex.skip(i), k);
    assert(ex.skip(i).skip(k) =~= ex.skip(i + k));
    let a = prod(ex.take(i));
    let c = prod(mid);
    let d = prod(ex.skip(i + k));
    assert(a * c * d == a * (c * d)) by (nonlinear_arith);
}

/// The product of a sequence is that of the rest times any one entry.
proof fn lemma_prod_remove(e: Seq<u64>, k: int)
    requires
        0 <= k < e.len(),
    ensures
        prod(e) == prod(e.remove(k)) * e[k],
{
    lemma_prod_split(e, k);
    lemma_prod_skip(e, k);
    assert(e.remove(k) =~= e.take(k) + e.skip(k + 1));
    lemma_prod_concat(e.take(k), e.skip(k + 1));
    let a = prod(e.take(k));
    let c = prod(e.skip(k + 1));
    let b = e[k] as nat;
    assert(a * (b * c) == (a * c) * b) by (nonlinear_arith);
}

/// Two sequences whose entries correspond one to one have one product:
/// entry `i` of `e1` is entry `p[i]` of `e2`.
proof fn lemma_prod_rearranged(e1: Seq<u64>, e2: Seq<u64>, p: Seq<usize>)
    requires
        e1.len() == p.len(),
        e2.len() == p.len(),
        positions_below(p, p.len() as int),
        forall|i: int, j: int| 0 <= i < j < p.len() ==> p[i] != p[j],
        forall|i: int| 0 <= i < p.len() ==> e2[#[trigger] p[i] as int] == e1[i],
    ensures
        prod(e1) == prod(e2),
    decreases e1.len(),
{
    let n = e1.len() as int;
    if n > 0 {
        let k = p[n - 1] as int;
        let e1s = e1.drop_last();
        let e2s = e2.remove(k);
        let ps = Seq::new((n - 1) as nat, |i: int| if p[i] < p[n - 1] { p[i] } else { (p[i] - 1) as usize });
        assert forall|i: int| 0 <= i < ps.len() implies #[trigger] ps[i] < ps.len() by {
            assert(p[i] != p[n - 1]);
            assert(p[i] < n);
        }
        assert forall|i: int, j: int| 0 <= i < j < ps.len() implies ps[i] != ps[j] by {
            assert(p[i] != p[n - 1]);
            assert(p[j] != p[n - 1]);
            assert(p[i] != p[j]);
        }
        assert forall|i: int| 0 <= i < ps.len() implies e2s[#[trigger] ps[i] as int] == e1s[i] by {
            assert(p[i] != p[n - 1]);
            assert(e2[p[i] as int] == e1[i]);
        }
        lemma_prod_rearranged(e1s, e2s, ps);
        lemma_prod_split(e1, n - 1);
        assert(e1.take(n - 1) =~= e1s);
        assert(e1.skip(n - 1) =~= seq![e1[n - 1]]);
        lemma_prod_single(e1[n - 1]);
        lemma_prod_remove(e2, k);
        assert(e2[p[n - 1] as int] == e1[n - 1]);
    } else {
        assert(e2.len() == 0);
    }
}

/// Permuting all the dimensions of a space keeps its volume.
proof fn lemma_permute_volume(s: SpaceV, p: Seq<usize>, vars: Map<Seq<char>, u64>)
    requires
        is_permutation(p, s.len() as int),
        all_some(opt_extents(s, vars)),
    ensures
        all_some(opt_extents(permuted(s, p), vars)),
        prod(extents(permuted(s, p), vars)) == prod(extents(s, vars)),
{
    let base = Seq::new(s.len(), |j: int| blank_factor());
    let t = permuted(s, p);
    lemma_scatter_at(base, s, p, p.len() as int);
    assert(t == scatter(base, s, p, p.len() as int));
    assert(t.len() == s.len());
    assert forall|j: int| 0 <= j < opt_extents(t, vars).len() implies #[trigger] opt_extents(t, vars)[j] is Some by {
        assert(hits(p, j));
        let i = choose|i: int| 0 <= i < p.len() && #[trigger] p[i] == j;
        assert(t[p[i] as int] == s[i]);
        assert(opt_extents(s, vars)[i] is Some);
    }
    let ex = extents(s, vars);
    let et = extents(t, vars);
    assert forall|i: int| 0 <= i < p.len() implies et[#[trigger] p[i] as int] == ex[i] by {
        assert(t[p[i] as int] == s[i]);
    }
    lemma_prod_rearranged(ex, et, p);
}

proof fn lemma_join_volume(s: SpaceV, idx: int, vars: Map<Seq<char>, u64>)
    requires
        0 <= idx,
        idx + 1 < s.len(),
        all_some(opt_extents(s, vars)),
        prod(extents(s, vars)) <= u64::MAX,
        prod(extents(s, vars)) > 0,
    ensures
        all_some(opt_extents(join_space(s, idx), vars)),
        prod(extents(join_space(s, idx), vars)) == prod(extents(s, vars)),
{
    let ex = extents(s, vars);
    let t = join_space(s, idx);
    lemma_all_positive(ex);
    assert(opt_extents(s, vars)[idx] is Some && opt_extents(s, vars)[idx + 1] is Some);
    let a = ex[idx];
    let b = ex[idx + 1];
    lemma_prod_split(ex, idx);
    lemma_prod_skip(ex, idx);
    lemma_prod_skip(ex, idx + 1);
    lemma_prod_split(ex.skip(idx), 2);
    assert(ex.skip(idx).skip(2) =~= ex.skip(idx + 2));
    assert(ex.skip(idx).take(2) =~= seq![a, b]);
    assert(seq![a, b].drop_first() =~= seq![b]);
    lemma_prod_single(b);
    assert(prod(seq![a, b]) == a * b);
    lemma_prod_concat(ex.take(idx), ex.skip(idx));
    // a * b fits: it divides the whole product
    let rest = prod(ex.skip(idx + 2));
    crate::space::lemma_prod_positive(ex.skip(idx + 2));
    assert forall|j: int| 0 <= j < ex.skip(idx + 2).len() implies #[trigger] ex.skip(idx + 2)[j] > 0 by {
        assert(ex.skip(idx + 2)[j] == ex[idx + 2 + j]);
    }
    crate::space::lemma_prod_positive(ex.skip(idx + 2));
    assert forall|j: int| 0 <= j < ex.take(idx).len() implies #[trigger] ex.take(idx)[j] > 0 by {
        assert(ex.take(idx)[j] == ex[j]);
    }
    crate::space::lemma_prod_positive(ex.take(idx));
    let pre = prod(ex.take(idx));
    assert(prod(ex.skip(idx)) == a * (b * rest));
    assert(a * b <= pre * (a * (b * rest))) by (nonlinear_arith)
        requires
            pre >= 1,
            rest >= 1,
    ;
    let ps = seq![s[idx].extent, s[idx + 1].extent];
    assert(ps[0] == s[idx].extent && ps[1] == s[idx + 1].extent);
    assert(crate::space::eval_product(ps, vars, 0) == Some(1u64));
    assert(1 * a == a);
    assert(crate::space::eval_product(ps, vars, 1) == Some(a));
    assert(crate::space::eval_product(ps, vars, 2) == Some((a * b) as u64));
    let et = extents(t, vars);
    assert(all_some(opt_extents(t, vars))) by {
        assert forall|j: int| 0 <= j < opt_extents(t, vars).len() implies #[trigger] opt_extents(t, vars)[j] is Some by {
            if j < idx {
                assert(t[j] == s[j]);
                assert(opt_extents(s, vars)[j] is Some);
            } else if j > idx {
                assert(t[j] == s[j + 1]);
                assert(opt_extents(s, vars)[j + 1] is Some);
            }
        }
    }
    assert(et =~= ex.take(idx) + seq![(a * b) as u64] + ex.skip(idx + 2)) by {
        assert forall|j: int| 0 <= j < et.len() implies et[j] == (ex.take(idx) + seq![(a * b) as u64] + ex.skip(
            idx + 2,
        ))[j] by {
            if j < idx {
                assert(t[j] == s[j]);
            } else if j > idx {
                assert(t[j] == s[j + 1]);
            }
        }
    }
    lemma_prod_single((a * b) as u64);
    lemma_replace_middle(ex, idx, 2, seq![(a * b) as u64]);
}

proof fn lemma_split_volume(s: SpaceV, idx: int, n1: u64, vars: Map<Seq<char>, u64>)
    requires
        0 <= idx < s.len(),
        n1 > 0,
        s[idx].extent matches ExtentV::Constant(n) && n % n1 == 0,
        all_some(opt_extents(s, vars)),
    ensures
        all_some(opt_extents(split_space(s, idx, n1), vars)),
        prod(extents(split_space(s, idx, n1), vars)) == prod(extents(s, vars)),
{
    let ex = extents(s, vars);
    let t = split_space(s, idx, n1);
    let n = s[idx].extent->Constant_0;
    let q = (n / n1) as u64;
    assert(ex[idx] == n);
    assert(n1 * q == n) by (nonlinear_arith)
        requires
            n % n1 == 0,
            n1 > 0,
            q == n / n1,
    ;
    let mid = seq![q, n1];
    assert(mid.drop_first() =~= seq![n1]);
    lemma_prod_single(n1);
    assert(q * n1 == n1 * q) by (nonlinear_arith);
    lemma_prod_single(n);
    assert(ex.skip(idx).take(1) =~= seq![n]);
    let et = extents(t, vars);
    assert(all_some(opt_extents(t, vars))) by {
        assert forall|j: int| 0 <= j < opt_extents(t, vars).len() implies #[trigger] opt_extents(t, vars)[j] is Some by {
            if j < idx {
                assert(t[j] == s[j]);
                assert(opt_extents(s, vars)[j] is Some);
            } else if j > idx + 1 {
                assert(t[j] == s[j - 1]);
                assert(opt_extents(s, vars)[j - 1] is Some);
            }
        }
    }
    assert(et =~= ex.take(idx) + mid + ex.skip(idx + 1)) by {
        assert forall|j: int| 0 <= j < et.len() implies et[j] == (ex.take(idx) + mid + ex.skip(idx + 1))[j] by {
            if j < idx {
                assert(t[j] == s[j]);
            } else if j > idx + 1 {
                assert(t[j] == s[j - 1]);
            }
        }
    }
    lemma_replace_middle(ex, idx, 1, mid);
}

/// The generators that neither add nor drop points (see [`volume_covered`])
/// keep the volume: where the simplified volume of the source has a value
/// (positive, unless the generator maps a space onto itself: an identity, a
/// flip or a binary shadow), the simplified volume of the target has the
/// same value.
pub proof fn lemma_generators_keep_volume(e: ExprV, vars: Map<Seq<char>, u64>, w: u64)
    requires
        volume_covered(e),
        expr_source_ok(e),
        simplify_extent_ok(volume_of(expr_source(e))),
        simplify_extent_ok(volume_of(expr_target(e))),
        volume_eval(expr_source(e), vars) == Some(w),
        w > 0 || e is Identity || e is Flip || e is BinaryShadow,
    ensures
        volume_eval(expr_target(e), vars) == Some(w),
{
    let src = expr_source(e);
    let tgt = expr_target(e);
    if e is Identity || e is Flip || e is BinaryShadow {
        assert(tgt == src);
    } else {
        lemma_volume_value(src, vars, w);
        match e {
            ExprV::Linearize(s) => {
                assert(extents(tgt, vars) =~= seq![w]);
                lemma_prod_single(w);
            },
            ExprV::Delinearize(s) => {
                assert(opt_extents(src, vars)[0] is Some);
                let v = eval_extent(simplify_extent(volume_of(s)), vars)->0;
                assert(extents(src, vars) =~= seq![v]);
                lemma_prod_single(v);
                lemma_volume_value(s, vars, w);
            },
            ExprV::Join(s, idx) => lemma_join_volume(s, idx as int, vars),
            ExprV::Permute(s, p) => lemma_permute_volume(s, p, vars),
            ExprV::Split(s, idx, n1) => lemma_split_volume(s, idx as int, n1, vars),
            _ => {},
        }
        lemma_all_positive(extents(tgt, vars));
        lemma_volume_of_extents(tgt, vars);
    }
}

} // verus!
