//! `Layout`: a layout expression with builder methods for views on it and
//! the analyses of the expression.
use vstd::prelude::*;
use crate::space::{
    Space, SpaceV, Valuation, KindV, Kind, permuted, positions_below, scatter, valid_coords,
    blank_factor, spaces_compatible,
};
use crate::layout::expr::{
    Expression, ExprV, expr_source, expr_source_ok, expr_target, expr_target_ok, split_space,
};
use crate::layout::scalar::{ScalarExpr, ScalarV, matrix_view};
use crate::layout::apply::{expr_apply, expr_apply_ok};
use crate::layout::lower::{expr_lower, expr_lower_ok};
use crate::layout::as_layout::AsLayout;
use crate::layout::inverse::{
    expr_inverse, inverse_ok, lemma_scatter_at, inverse_positions, invert_positions, zero_positions, iota,
    is_permutation, lemma_inverse_undoes_permute,
};
use crate::layout::inverse_law::{inverse_covered, lemma_inverse_undoes};
use crate::analysis::{
    Judgment, injective_judgment, surjective_judgment, aliasing_judgment, aliasing_ok,
    vector_width, vector_width_ok, simplify_expr_ok, stride_of, stride_ok, canonical, left_assoc,
};

verus! {

/// A layout: an expression, with builder methods that put views in front of
/// it or shadows behind it.
#[derive(Debug, PartialEq)]
pub struct Layout {
    pub expr: Expression,
}

impl View for Layout {
    type V = ExprV;

    open spec fn view(&self) -> ExprV {
        self.expr@
    }
}

impl Clone for Layout {
    fn clone(&self) -> (r: Layout)
        ensures
            r@ == self@,
    {
        Layout { expr: self.expr.duplicate() }
    }
}

/// The positions `n - 1, .., 1, 0`.
pub open spec fn reversed_positions(n: nat) -> Seq<usize> {
    Seq::new(n, |i: int| (n - 1 - i) as usize)
}

/// The positions `0..n` with the last two exchanged.
pub open spec fn last_two_swapped(n: nat) -> Seq<usize> {
    Seq::new(
        n,
        |i: int|
            if i == n - 1 {
                (n - 2) as usize
            } else if i == n - 2 {
                (n - 1) as usize
            } else {
                i as usize
            },
    )
}

/// The column-major layout of `s`: the permutation that reverses the order of
/// the dimensions, then the row-major layout of the reversed space.
pub open spec fn col_major_expr(s: SpaceV) -> ExprV {
    let p = reversed_positions(s.len());
    ExprV::Composition(
        Box::new(ExprV::Permute(s, p)),
        Box::new(ExprV::Linearize(permuted(s, p))),
    )
}

/// The view of `e` through its source permuted by `p` (old dimension `i`
/// becomes new dimension `p[i]`): the permutation by the inverse positions
/// from the permuted space, which reads old dimension `i` from new position
/// `p[i]`, then `e`.
pub open spec fn permuted_expr(e: ExprV, p: Seq<usize>) -> ExprV {
    ExprV::Composition(
        Box::new(ExprV::Permute(permuted(expr_source(e), p), inverse_positions(p))),
        Box::new(e),
    )
}

/// `e` with the last two source dimensions exchanged, when it has two or more.
pub open spec fn transposed_expr(e: ExprV) -> ExprV {
    let rank = expr_source(e).len();
    if rank < 2 {
        e
    } else {
        permuted_expr(e, last_two_swapped(rank))
    }
}

/// Whether the layout analysis finds an `Execution` dimension `i` of the
/// source, with a stride: the pairs of dimension and stride for dimensions
/// `0..k`, in order.
pub open spec fn conflict_strides(e: ExprV, vars: Map<Seq<char>, u64>, k: int) -> Seq<(usize, u64)>
    decreases k,
{
    if k <= 0 {
        seq![]
    } else {
        let prev = conflict_strides(e, vars, k - 1);
        let src = expr_source(e);
        if src[k - 1].kind == KindV::Execution && stride_of(e, k - 1, vars) is Some {
            prev.push(((k - 1) as usize, stride_of(e, k - 1, vars)->0))
        } else {
            prev
        }
    }
}

fn composed(a: Expression, b: Expression) -> (r: Expression)
    ensures
        r@ == ExprV::Composition(Box::new(a@), Box::new(b@)),
{
    Expression::Composition(Box::new(a), Box::new(b))
}

fn reversed_positions_exec(n: usize) -> (r: Vec<usize>)
    ensures
        r@ == reversed_positions(n as nat),
{
    let mut v: Vec<usize> = Vec::new();
    let mut i: usize = 0;
    while i < n
        invariant
            i <= n,
            v@ == reversed_positions(n as nat).take(i as int),
        decreases n - i,
    {
        v.push(n - 1 - i);
        i += 1;
        assert(v@ =~= reversed_positions(n as nat).take(i as int));
    }
    assert(v@ =~= reversed_positions(n as nat));
    v
}

fn last_two_swapped_exec(n: usize) -> (r: Vec<usize>)
    requires
        n >= 2,
    ensures
        r@ == last_two_swapped(n as nat),
{
    let mut v: Vec<usize> = Vec::new();
    let mut i: usize = 0;
    while i < n
        invariant
            i <= n,
            v@ == Seq::new(i as nat, |j: int| j as usize),
        decreases n - i,
    {
        v.push(i);
        i += 1;
        assert(v@ =~= Seq::new(i as nat, |j: int| j as usize));
    }
    v.set(n - 1, n - 2);
    v.set(n - 2, n - 1);
    assert(v@ =~= last_two_swapped(n as nat));
    v
}

impl Layout {
    pub fn new(expr: Expression) -> (r: Layout)
        ensures
            r@ == expr@,
    {
        Layout { expr }
    }

    /// The row-major layout of `space`.
    pub fn row_major(space: Space) -> (r: Layout)
        ensures
            r@ == ExprV::Linearize(space@),
    {
        Layout::new(Expression::Linearize(space))
    }

    /// The column-major layout of `space` (see [`col_major_expr`]).
    pub fn col_major(space: Space) -> (r: Layout)
        ensures
            r@ == col_major_expr(space@),
    {
        let p = reversed_positions_exec(space.rank());
        assert(positions_below(p@, space@.len() as int));
        let transposed_space = space.permute(p.as_slice());
        let perm = Expression::Permute(space, p);
        let lin = Expression::Linearize(transposed_space);
        Layout::new(composed(perm, lin))
    }

    /// The identity layout on `space`.
    pub fn identity(space: Space) -> (r: Layout)
        ensures
            r@ == ExprV::Identity(space@),
    {
        Layout::new(Expression::Identity(space))
    }

    /// The layout with its last two source dimensions exchanged (see
    /// [`transposed_expr`]).
    pub fn transpose(self) -> (r: Layout)
        requires
            expr_source_ok(self@),
        ensures
            r@ == transposed_expr(self@),
    {
        let rank = self.expr.source_space().rank();
        if rank < 2 {
            return self;
        }
        let p = last_two_swapped_exec(rank);
        assert(positions_below(p@, rank as int));
        proof {
            lemma_swap_self_inverse(rank as nat);
        }
        self.permute(p)
    }

    /// The layout seen through its source permuted by `p` (see
    /// [`permuted_expr`]).
    pub fn permute(self, p: Vec<usize>) -> (r: Layout)
        requires
            expr_source_ok(self@),
            p@.len() == expr_source(self@).len(),
            positions_below(p@, expr_source(self@).len() as int),
        ensures
            r@ == permuted_expr(self@, p@),
    {
        let src = self.expr.source_space();
        let new_src = src.permute(p.as_slice());
        let inv = invert_positions(&p);
        let perm = Expression::Permute(new_src, inv);
        Layout::new(composed(perm, self.expr))
    }

    /// The layout seen through the reshape of `new_src` onto its source.
    pub fn reshape(self, new_src: Space) -> (r: Layout)
        requires
            expr_source_ok(self@),
        ensures
            r@ == ExprV::Composition(
                Box::new(ExprV::Reshape(new_src@, expr_source(self@))),
                Box::new(self@),
            ),
    {
        let current_src = self.expr.source_space();
        let view = Expression::Reshape(new_src, current_src);
        Layout::new(composed(view, self.expr))
    }

    /// The layout seen from its source with dimension `dim_idx` split into an
    /// outer extent `n / n1` and an inner extent `n1` (see [`split_space`]):
    /// the join of the split space back into the source, then the layout.
    pub fn split(self, dim_idx: usize, n1: u64) -> (r: Layout)
        requires
            expr_source_ok(self@),
            dim_idx < expr_source(self@).len(),
            n1 != 0,
        ensures
            r@ == ExprV::Composition(
                Box::new(ExprV::Join(split_space(expr_source(self@), dim_idx as int, n1), dim_idx)),
                Box::new(self@),
            ),
    {
        let current_src = self.expr.source_space();
        let new_src = Expression::Split(current_src, dim_idx, n1).target_space();
        let view = Expression::Join(new_src, dim_idx);
        Layout::new(composed(view, self.expr))
    }

    /// The layout seen through the join of source dimensions `dim_idx` and
    /// `dim_idx + 1`.
    pub fn join(self, dim_idx: usize) -> (r: Layout)
        requires
            expr_source_ok(self@),
        ensures
            r@ == ExprV::Composition(
                Box::new(ExprV::Join(expr_source(self@), dim_idx)),
                Box::new(self@),
            ),
    {
        let src = self.expr.source_space();
        let view = Expression::Join(src, dim_idx);
        Layout::new(composed(view, self.expr))
    }

    /// The layout followed by the binary shadow of `matrix` on its target.
    pub fn swizzle(self, matrix: Vec<Vec<u8>>) -> (r: Layout)
        requires
            expr_target_ok(self@),
        ensures
            r@ == ExprV::Composition(
                Box::new(self@),
                Box::new(ExprV::BinaryShadow(expr_target(self@), matrix_view(matrix))),
            ),
    {
        let tgt = self.expr.target_space();
        let shadow = Expression::BinaryShadow(tgt, matrix);
        Layout::new(composed(self.expr, shadow))
    }

    /// This layout, then `other`.
    pub fn compose(self, other: Layout) -> (r: Layout)
        ensures
            r@ == ExprV::Composition(Box::new(self@), Box::new(other@)),
    {
        Layout::new(Expression::Composition(Box::new(self.expr), Box::new(other.expr)))
    }

    /// The product of this layout and `other`, on the product spaces.
    pub fn product(self, other: Layout) -> (r: Layout)
        ensures
            r@ == ExprV::Product(Box::new(self@), Box::new(other@)),
    {
        Layout::new(Expression::Product(Box::new(self.expr), Box::new(other.expr)))
    }

    /// The inverse layout, where the expression shows how to undo it (see
    /// [`expr_inverse`]).
    pub fn inverse(&self) -> (r: Option<Layout>)
        requires
            inverse_ok(self@),
        ensures
            match r {
                Some(l) => expr_inverse(self@) == Some(l@),
                None => expr_inverse(self@) is None,
            },
    {
        match self.expr.inverse() {
            Some(e) => Some(Layout::new(e)),
            None => None,
        }
    }

    /// See [`injective_judgment`].
    pub fn is_injective(&self) -> (r: Judgment)
        ensures
            r == injective_judgment(self@),
    {
        self.expr.is_injective()
    }

    /// See [`surjective_judgment`].
    pub fn is_surjective(&self) -> (r: Judgment)
        ensures
            r == surjective_judgment(self@),
    {
        self.expr.is_surjective()
    }

    /// See [`aliasing_judgment`].
    pub fn is_aliasing(&self, valuation: &Valuation) -> (r: Judgment)
        requires
            aliasing_ok(self@),
        ensures
            r == aliasing_judgment(self@, valuation@),
    {
        self.expr.is_aliasing(valuation)
    }

    /// See [`vector_width`].
    pub fn max_vector_width(&self, valuation: &Valuation) -> (r: u64)
        requires
            vector_width_ok(self@, valuation@),
        ensures
            r == vector_width(self@, valuation@),
    {
        self.expr.max_vector_width(valuation)
    }

    /// Whether the two layouts have compatible sources and the same canonical
    /// form (see [`canonical`]): compositions associated to the left, fused,
    /// and leading identities dropped. `false` does not show that they differ
    /// as maps.
    pub fn equivalent_to(&self, other: &Layout) -> (r: bool)
        requires
            simplify_expr_ok(left_assoc(self@)),
            simplify_expr_ok(left_assoc(other@)),
            expr_source_ok(self@),
            expr_source_ok(other@),
        ensures
            r == (canonical(self@) == canonical(other@) && spaces_compatible(
                expr_source(self@),
                expr_source(other@),
            )),
    {
        let sa = self.expr.source_space();
        let sb = other.expr.source_space();
        if !sa.compatible(&sb) {
            return false;
        }
        let a = self.expr.duplicate().canonical_form();
        let b = other.expr.duplicate().canonical_form();
        a.same_as(&b)
    }

    /// The data movement from this layout to `target`: the inverse of this
    /// layout (see [`expr_inverse`]), then `target`; `None` when this layout
    /// has no inverse.
    pub fn shuffle_to(&self, target: &Layout) -> (r: Option<Layout>)
        requires
            inverse_ok(self@),
        ensures
            match r {
                Some(l) => expr_inverse(self@) is Some && l@ == ExprV::Composition(
                    Box::new(expr_inverse(self@)->0),
                    Box::new(target@),
                ),
                None => expr_inverse(self@) is None,
            },
    {
        match self.expr.inverse() {
            Some(inv) => Some(
                Layout::new(Expression::Composition(Box::new(inv), Box::new(target.expr.duplicate()))),
            ),
            None => None,
        }
    }

    /// The strides of the `Execution` dimensions of the source, in order,
    /// where the stride analysis finds one (see [`conflict_strides`]).
    pub fn bank_conflict_strides(&self, valuation: &Valuation) -> (r: Vec<(usize, u64)>)
        requires
            expr_source_ok(self@),
            forall|i: int|
                0 <= i < expr_source(self@).len() && (#[trigger] expr_source(self@)[i]).kind
                    == KindV::Execution ==> stride_ok(self@, i, valuation@),
        ensures
            r@ == conflict_strides(self@, valuation@, expr_source(self@).len() as int),
    {
        let src = self.expr.source_space();
        let mut out: Vec<(usize, u64)> = Vec::new();
        let mut i: usize = 0;
        while i < src.factors.len()
            invariant
                i <= src.factors.len(),
                src@ == expr_source(self@),
                expr_source_ok(self@),
                forall|k: int|
                    0 <= k < expr_source(self@).len() && (#[trigger] expr_source(self@)[k]).kind
                        == KindV::Execution ==> stride_ok(self@, k, valuation@),
                out@ == conflict_strides(self@, valuation@, i as int),
            decreases src.factors.len() - i,
        {
            assert(src@[i as int] == src.factors[i as int]@);
            let is_exec = match src.factors[i].kind {
                Kind::Execution => true,
                _ => false,
            };
            if is_exec {
                match self.expr.get_stride(i, valuation) {
                    Some(s) => out.push((i, s)),
                    None => {},
                }
            }
            i += 1;
        }
        out
    }
}

impl AsLayout for Layout {
    open spec fn source_ok(&self) -> bool {
        expr_source_ok(self@)
    }

    open spec fn source_spec(&self) -> SpaceV {
        expr_source(self@)
    }

    open spec fn target_ok(&self) -> bool {
        expr_target_ok(self@)
    }

    open spec fn target_spec(&self) -> SpaceV {
        expr_target(self@)
    }

    open spec fn apply_ok(&self, vars: Map<Seq<char>, u64>, input: Seq<u64>) -> bool {
        expr_apply_ok(self@, vars, input)
    }

    open spec fn apply_spec(&self, vars: Map<Seq<char>, u64>, input: Seq<u64>) -> Option<Seq<u64>> {
        expr_apply(self@, vars, input)
    }

    open spec fn lower_ok(&self, vars: Map<Seq<char>, u64>, inputs: Seq<ScalarV>) -> bool {
        expr_lower_ok(self@, vars, inputs)
    }

    open spec fn lower_spec(&self, vars: Map<Seq<char>, u64>, inputs: Seq<ScalarV>) -> (Seq<ScalarV>, ScalarV) {
        expr_lower(self@, vars, inputs)
    }

    fn source(&self) -> (r: Space) {
        self.expr.source_space()
    }

    fn target(&self) -> (r: Space) {
        self.expr.target_space()
    }

    fn apply(&self, valuation: &Valuation, input: &[u64]) -> (r: Option<Vec<u64>>) {
        self.expr.map_point(valuation, input)
    }

    fn lower(&self, valuation: &Valuation, inputs: Vec<ScalarExpr>) -> (r: (Vec<ScalarExpr>, ScalarExpr)) {
        self.expr.lower_exprs(valuation, inputs)
    }
}


/// Exchanging the last two positions twice leaves every sequence as it was,
/// and moves each entry of one to the other position.
proof fn lemma_swap_scatter<A>(base: Seq<A>, vals: Seq<A>)
    requires
        base.len() == vals.len(),
        2 <= vals.len() <= usize::MAX,
    ensures
        scatter(base, vals, last_two_swapped(vals.len()), vals.len() as int) == Seq::new(
            vals.len(),
            |i: int|
                if i == vals.len() - 1 {
                    vals[vals.len() - 2]
                } else if i == vals.len() - 2 {
                    vals[vals.len() - 1]
                } else {
                    vals[i]
                },
        ),
{
    let n = vals.len();
    let q = last_two_swapped(n);
    assert(positions_below(q, base.len() as int));
    lemma_scatter_at(base, vals, q, n as int);
    let r = scatter(base, vals, q, n as int);
    let want = Seq::new(
        n,
        |i: int|
            if i == n - 1 {
                vals[n - 2]
            } else if i == n - 2 {
                vals[n - 1]
            } else {
                vals[i]
            },
    );
    assert forall|i: int| 0 <= i < n implies r[i] == want[i] by {
        let j = if i == n - 1 {
            n - 2
        } else if i == n - 2 {
            n - 1
        } else {
            i
        };
        assert(q[j] as int == i);
    }
    assert(r =~= want);
}

/// Seen through its source permuted by a permutation `p`, a layout maps a
/// point `y` of the permuted space as it maps the point that reads old
/// dimension `i` from new position `p[i]`.
pub proof fn lemma_permute_reads_positions(e: ExprV, p: Seq<usize>, vars: Map<Seq<char>, u64>, y: Seq<u64>)
    requires
        is_permutation(p, expr_source(e).len() as int),
        p.len() <= usize::MAX,
        valid_coords(permuted(expr_source(e), p), vars, y),
    ensures
        expr_apply(permuted_expr(e, p), vars, y) == expr_apply(
            e,
            vars,
            Seq::new(p.len(), |i: int| y[p[i] as int]),
        ),
{
    let src = expr_source(e);
    let n = src.len() as int;
    let x = Seq::new(p.len(), |i: int| y[p[i] as int]);
    let blanks = Seq::new(src.len(), |j: int| blank_factor());
    lemma_scatter_at(blanks, src, p, n);
    let ps = permuted(src, p);
    assert(valid_coords(src, vars, x)) by {
        assert forall|i: int| 0 <= i < src.len() implies {
            &&& (#[trigger] crate::space::eval_extent(src[i].extent, vars)) is Some
            &&& x[i] < crate::space::eval_extent(src[i].extent, vars)->0
        } by {
            assert(ps[p[i] as int] == src[i]);
        }
    }
    let zeros = Seq::new(src.len(), |i: int| 0u64);
    lemma_scatter_at(zeros, x, p, n);
    let z = scatter(zeros, x, p, n);
    assert(z =~= y) by {
        assert forall|j: int| 0 <= j < n implies z[j] == y[j] by {
            assert(crate::layout::inverse::hits(p, j));
            let i = choose|i: int| 0 <= i < p.len() && #[trigger] p[i] == j;
            assert(z[p[i] as int] == x[i]);
        }
    }
    assert(expr_apply(ExprV::Permute(src, p), vars, x) == Some(y));
    lemma_inverse_undoes_permute(src, p, vars, x);
    assert(expr_inverse(ExprV::Permute(src, p)) == Some(ExprV::Permute(ps, inverse_positions(p))));
    assert(expr_apply(ExprV::Permute(ps, inverse_positions(p)), vars, y) == Some(x));
}

/// Seen from its source with dimension `idx` split (see `Layout::split`), a
/// layout maps a point of the split space as it maps the point whose
/// coordinate `idx` joins the outer and inner coordinates, `y[idx] * n1 +
/// y[idx + 1]`, and whose other coordinates are those of `y`.
pub proof fn lemma_split_joins_back(e: ExprV, idx: usize, n1: u64, vars: Map<Seq<char>, u64>, y: Seq<u64>)
    requires
        idx < expr_source(e).len(),
        n1 > 0,
        valid_coords(split_space(expr_source(e), idx as int, n1), vars, y),
    ensures
        expr_apply(
            ExprV::Composition(
                Box::new(ExprV::Join(split_space(expr_source(e), idx as int, n1), idx)),
                Box::new(e),
            ),
            vars,
            y,
        ) == expr_apply(
            e,
            vars,
            y.remove(idx + 1).update(idx as int, (y[idx as int] * n1 + y[idx + 1]) as u64),
        ),
{
    let i = idx as int;
    let t = split_space(expr_source(e), i, n1);
    assert(t[i + 1].extent == crate::space::ExtentV::Constant(n1));
    assert(crate::layout::apply::ext_at(t, vars, i + 1) == Some(n1));
    let v = (y[i] * n1 + y[i + 1]) as u64;
    let j = ExprV::Join(t, idx);
    assert(idx + 1 < t.len());
    assert(expr_apply(j, vars, y) == Some(y.remove(i).remove(i).insert(i, v)));
    assert(y.remove(i).remove(i).insert(i, v) =~= y.remove(i + 1).update(i, v));
}

/// Exchanging the last two positions is its own inverse.
proof fn lemma_swap_self_inverse(n: nat)
    requires
        2 <= n <= usize::MAX,
    ensures
        inverse_positions(last_two_swapped(n)) == last_two_swapped(n),
{
    let q = last_two_swapped(n);
    lemma_swap_scatter(zero_positions(n), iota(n));
    assert(inverse_positions(q) =~= q);
}

/// Transposing a layout twice gives a layout that maps every point of the
/// source as the layout does.
pub proof fn lemma_transpose_twice(e: ExprV, vars: Map<Seq<char>, u64>, x: Seq<u64>)
    requires
        2 <= expr_source(e).len() <= usize::MAX,
        valid_coords(expr_source(e), vars, x),
    ensures
        expr_apply(transposed_expr(transposed_expr(e)), vars, x) == expr_apply(e, vars, x),
{
    let src = expr_source(e);
    let n = src.len();
    let q = last_two_swapped(n);
    lemma_swap_self_inverse(n);
    let s1 = permuted(src, q);
    lemma_swap_scatter(Seq::new(n, |j: int| blank_factor()), src);
    assert(s1.len() == n);
    let t1 = transposed_expr(e);
    assert(expr_source(ExprV::Permute(s1, q)) == s1);
    assert(expr_source(t1) == s1);
    let s2 = permuted(s1, q);
    lemma_swap_scatter(Seq::new(n, |j: int| blank_factor()), s1);
    assert(s2 =~= src);
    let zeros = Seq::new(n, |i: int| 0u64);
    lemma_swap_scatter(zeros, x);
    let y = scatter(zeros, x, q, n as int);
    lemma_swap_scatter(zeros, y);
    let z = scatter(zeros, y, q, n as int);
    assert(z =~= x);
    assert(valid_coords(s1, vars, y)) by {
        assert forall|i: int| 0 <= i < s1.len() implies {
            &&& (#[trigger] crate::space::eval_extent(s1[i].extent, vars)) is Some
            &&& y[i] < crate::space::eval_extent(s1[i].extent, vars)->0
        } by {
            let j = if i == n - 1 {
                n - 2
            } else if i == n - 2 {
                n - 1
            } else {
                i
            };
            assert(s1[i] == src[j]);
            assert(y[i] == x[j]);
        }
    }
    assert(expr_apply(ExprV::Permute(s2, q), vars, x) == Some(y));
    assert(expr_apply(ExprV::Permute(s1, q), vars, y) == Some(z));
    assert(expr_apply(t1, vars, y) == expr_apply(e, vars, x));
}

/// The data movement from `e` to `t` (the inverse of `e`, then `t`, see
/// `Layout::shuffle_to`) takes `e`'s image of a point to `t`'s image of it,
/// for every point that `e` maps without panic, where `e` is built from
/// invertible primitives by compositions and products (see
/// [`inverse_covered`]) and has an inverse.
pub proof fn lemma_shuffle_moves_points(e: ExprV, t: ExprV, vars: Map<Seq<char>, u64>, x: Seq<u64>)
    requires
        inverse_covered(e),
        expr_inverse(e) is Some,
        expr_apply_ok(e, vars, x),
        expr_apply(e, vars, x) is Some,
    ensures
        expr_apply(
            ExprV::Composition(Box::new(expr_inverse(e)->0), Box::new(t)),
            vars,
            expr_apply(e, vars, x)->0,
        ) == expr_apply(t, vars, x),
{
    lemma_inverse_undoes(e, vars, x);
}

} // verus!
