//! The inverse of a layout, where the expression shows how to undo it.
use vstd::prelude::*;
use crate::space::{
    SpaceV, permuted, positions_below, scatter, lemma_scatter_len, valid_coords, prod, extents,
    opt_extents, spec_delinearize, delinearize_ok, lemma_delinearize_linearize,
    lemma_linearize_delinearize,
};
use crate::layout::apply::expr_apply;
use crate::layout::expr::{Expression, ExprV, expr_view, expr_target_ok};
use crate::layout::gf2::{invert_gf2, gf2_inverse, rows_cover};

verus! {

/// The positions that undo `p`: entry `p[i]` is `i` (a later `i` wins where
/// two entries of `p` are equal); entries that `p` does not reach are 0.
pub open spec fn inverse_positions(p: Seq<usize>) -> Seq<usize> {
    scatter(zero_positions(p.len()), iota(p.len()), p, p.len() as int)
}

/// `n` zeros.
pub open spec fn zero_positions(n: nat) -> Seq<usize> {
    Seq::new(n, |k: int| 0usize)
}

/// The positions `0..n` in order.
pub open spec fn iota(n: nat) -> Seq<usize> {
    Seq::new(n, |i: int| i as usize)
}

/// The inverse of a layout: identities, linearizations, delinearizations,
/// permutations, reshapes and invertible binary shadows are undone by their
/// counterparts; a composition `l1 ; l2` by the inverse of `l2`, then that of
/// `l1`; a product by the product of the inverses of its parts; every other
/// layout has none.
pub open spec fn expr_inverse(e: ExprV) -> Option<ExprV>
    decreases e,
{
    match e {
        ExprV::Identity(s) => Some(ExprV::Identity(s)),
        ExprV::Linearize(s) => Some(ExprV::Delinearize(s)),
        ExprV::Delinearize(s) => Some(ExprV::Linearize(s)),
        ExprV::Permute(s, p) => Some(ExprV::Permute(permuted(s, p), inverse_positions(p))),
        ExprV::Composition(l1, l2) => match expr_inverse(*l1) {
            None => None,
            Some(i1) => match expr_inverse(*l2) {
                None => None,
                Some(i2) => Some(ExprV::Composition(Box::new(i2), Box::new(i1))),
            },
        },
        ExprV::Product(l1, l2) => match expr_inverse(*l1) {
            None => None,
            Some(i1) => match expr_inverse(*l2) {
                None => None,
                Some(i2) => Some(ExprV::Product(Box::new(i1), Box::new(i2))),
            },
        },
        ExprV::Reshape(s, t) => Some(ExprV::Reshape(t, s)),
        ExprV::BinaryShadow(s, m) => match gf2_inverse(m) {
            None => None,
            Some(im) => Some(ExprV::BinaryShadow(s, im)),
        },
        _ => None,
    }
}

/// Inverting does not panic: permutation positions are below the number of
/// positions (and of factors), and binary shadow matrices have rows at least
/// as long as they have rows. The second part of a composition or product is
/// inverted only when the first part has an inverse.
pub open spec fn inverse_ok(e: ExprV) -> bool
    decreases e,
{
    match e {
        ExprV::Permute(s, p) => positions_below(p, p.len() as int) && expr_target_ok(e),
        ExprV::Composition(l1, l2) => inverse_ok(*l1) && (expr_inverse(*l1) is Some ==> inverse_ok(
            *l2,
        )),
        ExprV::Product(l1, l2) => inverse_ok(*l1) && (expr_inverse(*l1) is Some ==> inverse_ok(*l2)),
        ExprV::BinaryShadow(_, m) => rows_cover(m),
        _ => true,
    }
}

/// A layout, if there is one, by its value.
pub open spec fn opt_expr(r: Option<Expression>) -> Option<ExprV> {
    match r {
        Some(e) => Some(expr_view(e)),
        None => None,
    }
}

/// The positions that undo `p`.
pub(crate) fn invert_positions(p: &Vec<usize>) -> (r: Vec<usize>)
    requires
        positions_below(p@, p@.len() as int),
    ensures
        r@ == inverse_positions(p@),
{
    let n = p.len();
    let mut inv: Vec<usize> = Vec::new();
    let mut k: usize = 0;
    while k < n
        invariant
            k <= n,
            n == p.len(),
            inv@ == Seq::new(k as nat, |j: int| 0usize),
        decreases n - k,
    {
        inv.push(0);
        k += 1;
        assert(inv@ =~= Seq::new(k as nat, |j: int| 0usize));
    }
    let ghost base = zero_positions(n as nat);
    let ghost vals = iota(n as nat);
    assert(inv@ =~= base);
    let mut i: usize = 0;
    while i < n
        invariant
            i <= n,
            n == p.len(),
            positions_below(p@, n as int),
            base == zero_positions(n as nat),
            vals == iota(n as nat),
            inv@ == scatter(base, vals, p@, i as int),
        decreases n - i,
    {
        proof {
            lemma_scatter_len(base, vals, p@, i as int);
        }
        let pos = p[i];
        assert(pos < n);
        inv.set(pos, i);
        i += 1;
    }
    inv
}

impl Expression {
    /// The layout that undoes this one, where the expression shows how (see
    /// [`expr_inverse`]).
    pub fn inverse(&self) -> (r: Option<Expression>)
        requires
            inverse_ok(self@),
        ensures
            opt_expr(r) == expr_inverse(self@),
        decreases self,
    {
        match self {
            Expression::Identity(s) => Some(Expression::Identity(s.duplicate())),
            Expression::Linearize(s) => Some(Expression::Delinearize(s.duplicate())),
            Expression::Delinearize(s) => Some(Expression::Linearize(s.duplicate())),
            Expression::Permute(_, p) => {
                let inv_p = invert_positions(p);
                Some(Expression::Permute(self.target_space(), inv_p))
            },
            Expression::Composition(l1, l2) => {
                let inv1 = match l1.inverse() {
                    Some(e) => e,
                    None => {
                        return None;
                    },
                };
                let inv2 = match l2.inverse() {
                    Some(e) => e,
                    None => {
                        return None;
                    },
                };
                Some(Expression::Composition(Box::new(inv2), Box::new(inv1)))
            },
            Expression::Product(l1, l2) => {
                let inv1 = match l1.inverse() {
                    Some(e) => e,
                    None => {
                        return None;
                    },
                };
                let inv2 = match l2.inverse() {
                    Some(e) => e,
                    None => {
                        return None;
                    },
                };
                Some(Expression::Product(Box::new(inv1), Box::new(inv2)))
            },
            Expression::Reshape(s, t) => Some(Expression::Reshape(t.duplicate(), s.duplicate())),
            Expression::BinaryShadow(s, m) => {
                let inv_m = match invert_gf2(m.as_slice()) {
                    Some(im) => im,
                    None => {
                        return None;
                    },
                };
                Some(Expression::BinaryShadow(s.duplicate(), inv_m))
            },
            _ => None,
        }
    }
}


/// The inverse of a linearization takes each offset it gives back to the
/// point it came from, wherever the volume fits in 64 bits.
pub proof fn lemma_inverse_undoes_linearize(s: SpaceV, vars: Map<Seq<char>, u64>, coords: Seq<u64>)
    requires
        valid_coords(s, vars, coords),
        prod(extents(s, vars)) <= u64::MAX,
    ensures
        expr_inverse(ExprV::Linearize(s)) is Some,
        expr_apply(ExprV::Linearize(s), vars, coords) is Some,
        expr_apply(
            expr_inverse(ExprV::Linearize(s))->0,
            vars,
            expr_apply(ExprV::Linearize(s), vars, coords)->0,
        ) == Some(coords),
{
    lemma_delinearize_linearize(s, vars, coords);
}

/// The inverse of a delinearization takes each point it gives back to the
/// offset it came from.
pub proof fn lemma_inverse_undoes_delinearize(s: SpaceV, vars: Map<Seq<char>, u64>, offset: u64)
    requires
        delinearize_ok(opt_extents(s, vars)),
        spec_delinearize(opt_extents(s, vars), offset) is Some,
    ensures
        expr_inverse(ExprV::Delinearize(s)) is Some,
        expr_apply(ExprV::Delinearize(s), vars, seq![offset]) is Some,
        expr_apply(
            expr_inverse(ExprV::Delinearize(s))->0,
            vars,
            expr_apply(ExprV::Delinearize(s), vars, seq![offset])->0,
        ) == Some(seq![offset]),
{
    lemma_linearize_delinearize(s, vars, offset);
}



/// The inverse of a reshape takes each point it gives back to the point it
/// came from, wherever the source volume fits in 64 bits.
pub proof fn lemma_inverse_undoes_reshape(s: SpaceV, t: SpaceV, vars: Map<Seq<char>, u64>, coords: Seq<u64>)
    requires
        valid_coords(s, vars, coords),
        prod(extents(s, vars)) <= u64::MAX,
        delinearize_ok(opt_extents(t, vars)),
        expr_apply(ExprV::Reshape(s, t), vars, coords) is Some,
    ensures
        expr_inverse(ExprV::Reshape(s, t)) is Some,
        expr_apply(
            expr_inverse(ExprV::Reshape(s, t))->0,
            vars,
            expr_apply(ExprV::Reshape(s, t), vars, coords)->0,
        ) == Some(coords),
{
    lemma_delinearize_linearize(s, vars, coords);
    let o = crate::space::spec_linearize(s, vars, coords)->0;
    assert(spec_delinearize(opt_extents(t, vars), o) is Some);
    lemma_linearize_delinearize(t, vars, o);
}

/// `p` is a permutation of `0..n`: every position below `n` is hit by
/// exactly one entry.
pub open spec fn is_permutation(p: Seq<usize>, n: int) -> bool {
    &&& p.len() == n
    &&& positions_below(p, n)
    &&& forall|i: int, j: int| 0 <= i < j < n ==> p[i] != p[j]
    &&& forall|k: int| 0 <= k < n ==> #[trigger] hits(p, k)
}

/// Some entry of `p` is `k`.
pub open spec fn hits(p: Seq<usize>, k: int) -> bool {
    exists|i: int| 0 <= i < p.len() && #[trigger] p[i] == k
}

/// Scattering with distinct positions puts each value at its position.
pub proof fn lemma_scatter_at<A>(base: Seq<A>, vals: Seq<A>, p: Seq<usize>, k: int)
    requires
        0 <= k <= p.len(),
        positions_below(p, base.len() as int),
        forall|i: int, j: int| 0 <= i < j < p.len() ==> p[i] != p[j],
    ensures
        scatter(base, vals, p, k).len() == base.len(),
        forall|i: int| 0 <= i < k ==> #[trigger] scatter(base, vals, p, k)[p[i] as int] == vals[i],
    decreases k,
{
    lemma_scatter_len(base, vals, p, k);
    if k > 0 {
        lemma_scatter_at(base, vals, p, k - 1);
        assert forall|i: int| 0 <= i < k implies #[trigger] scatter(base, vals, p, k)[p[i] as int]
            == vals[i] by {
            if i < k - 1 {
                assert(p[i] != p[k - 1]);
            }
        }
    }
}

/// The inverse of a permutation takes each point it gives back to the point
/// it came from.
pub proof fn lemma_inverse_undoes_permute(
    s: SpaceV,
    p: Seq<usize>,
    vars: Map<Seq<char>, u64>,
    coords: Seq<u64>,
)
    requires
        is_permutation(p, s.len() as int),
        p.len() <= usize::MAX,
        valid_coords(s, vars, coords),
    ensures
        expr_inverse(ExprV::Permute(s, p)) is Some,
        expr_apply(ExprV::Permute(s, p), vars, coords) is Some,
        expr_apply(
            expr_inverse(ExprV::Permute(s, p))->0,
            vars,
            expr_apply(ExprV::Permute(s, p), vars, coords)->0,
        ) == Some(coords),
{
    let n = s.len() as int;
    let y = scatter(Seq::new(s.len(), |i: int| 0u64), coords, p, n);
    lemma_scatter_at(Seq::new(s.len(), |i: int| 0u64), coords, p, n);
    let ps = permuted(s, p);
    lemma_scatter_at(Seq::new(s.len(), |j: int| crate::space::blank_factor()), s, p, n);
    let inv = inverse_positions(p);
    lemma_scatter_at(zero_positions(p.len()), iota(p.len()), p, n);
    assert forall|k: int| 0 <= k < n implies #[trigger] inv[k] < n && p[inv[k] as int] == k by {
        assert(hits(p, k));
        let i = choose|i: int| 0 <= i < p.len() && #[trigger] p[i] == k;
        assert(inv[p[i] as int] == i as usize);
    }
    assert forall|k1: int, k2: int| 0 <= k1 < k2 < n implies inv[k1] != inv[k2] by {
        assert(p[inv[k1] as int] == k1);
        assert(p[inv[k2] as int] == k2);
    }
    assert forall|k: int| 0 <= k < ps.len() implies {
        &&& (#[trigger] crate::space::eval_extent(ps[k].extent, vars)) is Some
        &&& y[k] < crate::space::eval_extent(ps[k].extent, vars)->0
    } by {
        let i = inv[k] as int;
        assert(p[i] == k);
        assert(ps[p[i] as int] == s[i]);
        assert(y[p[i] as int] == coords[i]);
    }
    assert(valid_coords(ps, vars, y));
    let z = scatter(Seq::new(ps.len(), |i: int| 0u64), y, inv, inv.len() as int);
    lemma_scatter_at(Seq::new(ps.len(), |i: int| 0u64), y, inv, n);
    assert forall|i: int| 0 <= i < n implies z[i] == coords[i] by {
        let k = p[i] as int;
        assert(inv[k] as int == i) by {
            assert(p[inv[k] as int] == k);
            if inv[k] as int != i {
                if (inv[k] as int) < i {
                    assert(p[inv[k] as int] != p[i]);
                } else {
                    assert(p[i] != p[inv[k] as int]);
                }
            }
        }
        assert(z[inv[k] as int] == y[k]);
    }
    assert(z =~= coords);
}

} // verus!
