//! Soundness of strides: where the stride of a source dimension is found for
//! a linearization, or through leading permutations, one step along that
//! dimension moves the offset by exactly the stride.
use vstd::prelude::*;
use crate::space::{
    SpaceV, valid_coords, eval_extent, extents, prod, lin_value, spec_linearize, scatter, lemma_prod_skip,
    lemma_lin_bound,
};
use crate::layout::expr::ExprV;
use crate::layout::apply::{expr_apply, expr_apply_ok};
use crate::layout::inverse::{is_permutation, lemma_scatter_at};
use crate::analysis::{stride_of, stride_from, vector_width};
use crate::layout::expr::expr_source;

verus! {

/// The point `x` moved one step along dimension `dim`.
pub open spec fn step(x: Seq<u64>, dim: int) -> Seq<u64> {
    x.update(dim, (x[dim] + 1) as u64)
}

/// The layouts whose strides are shown sound: linearizations, and
/// compositions of a permutation (of all the dimensions) with such a layout.
pub open spec fn stride_covered(e: ExprV) -> bool
    decreases e,
{
    match e {
        ExprV::Linearize(_) => true,
        ExprV::Composition(l1, l2) => match *l1 {
            ExprV::Permute(s, p) => is_permutation(p, s.len() as int) && stride_covered(*l2),
            _ => false,
        },
        _ => false,
    }
}

/// Raising coordinate `k` by one raises the offset by the product of the
/// later extents.
proof fn lemma_lin_step(e: Seq<u64>, c: Seq<u64>, k: int)
    requires
        e.len() == c.len(),
        0 <= k < c.len(),
        c[k] < u64::MAX,
    ensures
        lin_value(e, step(c, k)) == lin_value(e, c) + prod(e.skip(k + 1)),
    decreases k,
{
    let c1 = step(c, k);
    if k == 0 {
        assert(c1.drop_first() =~= c.drop_first());
        assert(e.skip(1) =~= e.drop_first());
        let p = prod(e.drop_first());
        assert((c[0] + 1) as nat * p == c[0] as nat * p + p) by (nonlinear_arith);
    } else {
        lemma_lin_step(e.drop_first(), c.drop_first(), k - 1);
        assert(step(c.drop_first(), k - 1) =~= c1.drop_first());
        assert(e.drop_first().skip(k) =~= e.skip(k + 1));
    }
}

/// The running product from factor `i` on is `acc` times the product of the
/// remaining extents.
proof fn lemma_stride_from(s: SpaceV, vars: Map<Seq<char>, u64>, i: int, acc: int)
    requires
        0 <= i <= s.len(),
        forall|j: int| 0 <= j < s.len() ==> (#[trigger] eval_extent(s[j].extent, vars)) is Some,
    ensures
        stride_from(s, vars, i, acc) == Some(acc * prod(extents(s, vars).skip(i))),
    decreases s.len() - i,
{
    let ex = extents(s, vars);
    if i >= s.len() {
        assert(ex.skip(i).len() == 0);
        assert(prod(ex.skip(i)) == 1);
    } else {
        let v = eval_extent(s[i].extent, vars)->0;
        lemma_stride_from(s, vars, i + 1, acc * v);
        lemma_prod_skip(ex, i);
        assert(ex[i] == v);
        assert(acc * v * prod(ex.skip(i + 1)) == acc * (v * prod(ex.skip(i + 1)))) by (nonlinear_arith);
    }
}

/// The stride of dimension `d` of a linearization is the product of the
/// extents after `d`, where every extent has a value.
pub proof fn lemma_linear_stride(s: SpaceV, vars: Map<Seq<char>, u64>, d: int)
    requires
        0 <= d < s.len(),
        forall|j: int| 0 <= j < s.len() ==> (#[trigger] eval_extent(s[j].extent, vars)) is Some,
    ensures
        stride_of(ExprV::Linearize(s), d, vars) == Some(prod(extents(s, vars).skip(d + 1)) as u64),
{
    lemma_stride_from(s, vars, d + 1, 1);
}

/// On the covered layouts (see [`stride_covered`]), where the stride of
/// dimension `dim` is found, one step along `dim` from a point, to a point
/// that the layout also maps without panic, moves the offset by the stride.
pub proof fn lemma_stride_sound(e: ExprV, vars: Map<Seq<char>, u64>, dim: int, x: Seq<u64>)
    requires
        stride_covered(e),
        stride_of(e, dim, vars) is Some,
        0 <= dim < x.len(),
        x[dim] < u64::MAX,
        expr_apply_ok(e, vars, x),
        expr_apply(e, vars, x) is Some,
        expr_apply_ok(e, vars, step(x, dim)),
        expr_apply(e, vars, step(x, dim)) is Some,
    ensures
        expr_apply(e, vars, x)->0.len() > 0,
        expr_apply(e, vars, step(x, dim))->0[0] == expr_apply(e, vars, x)->0[0] + stride_of(e, dim, vars)->0,
    decreases e,
{
    match e {
        ExprV::Linearize(s) => {
            let x1 = step(x, dim);
            assert(valid_coords(s, vars, x));
            assert(valid_coords(s, vars, x1));
            let ex = extents(s, vars);
            lemma_stride_from(s, vars, dim + 1, 1);
            lemma_lin_step(ex, x, dim);
            lemma_lin_bound(ex, x);
            crate::space::lemma_prod_split(ex, dim + 1);
            assert forall|j: int| 0 <= j < ex.take(dim + 1).len() implies #[trigger] ex.take(dim + 1)[j] > 0 by {
                assert(eval_extent(s[j].extent, vars) is Some);
                assert(x[j] < ex[j]);
            }
            crate::space::lemma_prod_positive(ex.take(dim + 1));
            let a = prod(ex.take(dim + 1));
            let b = prod(ex.skip(dim + 1));
            assert(b <= a * b) by (nonlinear_arith)
                requires
                    a >= 1,
            ;
            lemma_lin_bound(ex, x1);
            assert(spec_linearize(s, vars, x) == Some(lin_value(ex, x) as u64));
            assert(spec_linearize(s, vars, x1) == Some(lin_value(ex, x1) as u64));
        },
        ExprV::Composition(l1, l2) => {
            match *l1 {
                ExprV::Permute(s, p) => {
                    let n = s.len() as int;
                    let x1 = step(x, dim);
                    let zeros = Seq::new(s.len(), |i: int| 0u64);
                    assert(valid_coords(s, vars, x));
                    let y = scatter(zeros, x, p, n);
                    let y1 = scatter(zeros, x1, p, n);
                    lemma_scatter_at(zeros, x, p, n);
                    lemma_scatter_at(zeros, x1, p, n);
                    let q = p[dim] as int;
                    assert(y1 =~= step(y, q)) by {
                        assert forall|k: int| 0 <= k < n implies y1[k] == step(y, q)[k] by {
                            assert(crate::layout::inverse::hits(p, k));
                            let i = choose|i: int| 0 <= i < p.len() && #[trigger] p[i] == k;
                            assert(y1[p[i] as int] == x1[i]);
                            assert(y[p[i] as int] == x[i]);
                            if i == dim {
                                assert(k == q);
                            } else {
                                assert(k != q);
                            }
                        }
                    }
                    assert(y[q] == x[dim]);
                    lemma_stride_sound(*l2, vars, q, y);
                },
                _ => {},
            }
        },
        _ => {},
    }
}

/// On the covered layouts, where the vector width along the innermost source
/// dimension exceeds 1, neighbouring points along that dimension, that the
/// layout maps without panic, map to neighbouring offsets.
pub proof fn lemma_vector_width_sound(e: ExprV, vars: Map<Seq<char>, u64>, x: Seq<u64>)
    requires
        stride_covered(e),
        expr_source(e).len() > 0,
        vector_width(e, vars) > 1,
        expr_source(e).len() - 1 < x.len(),
        x[expr_source(e).len() - 1] < u64::MAX,
        expr_apply_ok(e, vars, x),
        expr_apply(e, vars, x) is Some,
        expr_apply_ok(e, vars, step(x, expr_source(e).len() - 1)),
        expr_apply(e, vars, step(x, expr_source(e).len() - 1)) is Some,
    ensures
        expr_apply(e, vars, step(x, expr_source(e).len() - 1))->0[0] == expr_apply(e, vars, x)->0[0] + 1,
{
    let inner = expr_source(e).len() - 1;
    assert(stride_of(e, inner, vars) == Some(1u64));
    lemma_stride_sound(e, vars, inner, x);
}

} // verus!
