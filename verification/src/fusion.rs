//! The fusion rules of simplification keep the meaning of a layout: where a
//! layout maps a point, its simplified form maps it to the same image.
use vstd::prelude::*;
use crate::space::{
    SpaceV, scatter, positions_below, blank_factor, spaces_compatible, permuted, valid_coords,
    opt_extents, extents, prod, spec_delinearize, lemma_delinearize_linearize,
    lemma_linearize_delinearize,
};
use crate::layout::expr::{ExprV, expr_source, expr_source_ok, offset_space};
use crate::layout::apply::{expr_apply, expr_apply_ok};
use crate::layout::inverse::{is_permutation, hits, lemma_scatter_at};
use crate::analysis::chain_positions;
use crate::analysis::{
    fuse, simplify_expr, byte_dot, byte_matrix_product, attach, left_assoc, drop_leading_identity, canonical,
    is_identity_positions,
};
use crate::layout::gf2::{total, bit, row_times, gf2_dot};
use crate::layout::scalar::{bit_linear, bit_linear_ok};
use crate::layout::inverse_law::lemma_bit_linear_compose;

verus! {

/// A fusion that the rules perform is one whose meaning they keep: two
/// permutations are fused only when both are permutations of all their
/// dimensions, and two binary shadows on the same space only when their
/// matrices have one size (the fused matrix is the product `m2 m1`, as the
/// shadow of `m1` acts first).
pub open spec fn fuses_soundly(a: ExprV, b: ExprV) -> bool {
    match (a, b) {
        (ExprV::Permute(s1, p1), ExprV::Permute(s2, p2)) => spaces_compatible(s1, permuted(s2, p2)) ==> {
            &&& is_permutation(p1, s1.len() as int)
            &&& is_permutation(p2, s2.len() as int)
            &&& s1.len() <= usize::MAX
        },
        (ExprV::BinaryShadow(s1, m1), ExprV::BinaryShadow(s2, m2)) => s1 == s2 ==> m2.len() == m1.len(),
        _ => true,
    }
}

/// Bit 0 of a byte dot product is the GF(2) dot product of the low bits.
proof fn lemma_byte_dot_bit(u: Seq<u8>, b: Seq<Seq<u8>>, j: int, k: int)
    requires
        k >= 0,
    ensures
        bit(byte_dot(u, b, j, k)) == total(row_times(u, b, j), k) % 2,
    decreases k,
{
    if k > 0 {
        lemma_byte_dot_bit(u, b, j, k - 1);
        let x = byte_dot(u, b, j, k - 1);
        let y = u[k - 1] & b[k - 1][j];
        let p = u[k - 1];
        let q = b[k - 1][j];
        assert((x ^ y) % 2 == ((x % 2) + (y % 2)) % 2) by (bit_vector);
        assert((p & q) % 2 == (p % 2) * (q % 2)) by (bit_vector);
        assert(p % 2 <= 1 && q % 2 <= 1);
        let r = total(row_times(u, b, j), k - 1);
        let f = row_times(u, b, j)(k - 1);
        assert(f == if bit(p) == 1 { bit(q) } else { 0 });
        assert(bit(y) == f) by (nonlinear_arith)
            requires
                bit(y) == bit(p) * bit(q),
                f == if bit(p) == 1 { bit(q) } else { 0 },
                0 <= bit(p) <= 1,
        ;
        assert(((r % 2) + f) % 2 == (r + f) % 2) by (nonlinear_arith);
    }
}

/// Applying the bit-linear maps of two matrices of one size, one after the
/// other, is applying that of their bytewise product `m2 m1`.
pub(crate) proof fn lemma_fused_bit_linear(o: u64, m1: Seq<Seq<u8>>, m2: Seq<Seq<u8>>)
    requires
        m2.len() == m1.len(),
        bit_linear_ok(m1),
    ensures
        bit_linear(bit_linear(o, m1), m2) == bit_linear(o, byte_matrix_product(m2, m1)),
        bit_linear_ok(byte_matrix_product(m2, m1)),
{
    let d = m1.len() as int;
    let p = byte_matrix_product(m2, m1);
    assert forall|i: int, t: int| 0 <= i < d && 0 <= t < d implies #[trigger] bit(p[i][t]) == gf2_dot(
        m2,
        m1,
        i,
        t,
        d,
    ) by {
        lemma_byte_dot_bit(m2[i], m1, t, d);
        assert(0 <= total(row_times(m2[i], m1, t), d) % 2 < 2);
    }
    lemma_bit_linear_compose(o, m1, m2, p);
}

/// Two binary shadows on one space, with matrices of one size, map a point
/// as their fusion does.
proof fn lemma_fuse_shadows(s: SpaceV, m1: Seq<Seq<u8>>, m2: Seq<Seq<u8>>, vars: Map<Seq<char>, u64>, x: Seq<u64>)
    requires
        m2.len() == m1.len(),
        expr_apply_ok(ExprV::BinaryShadow(s, m1), vars, x),
        expr_apply(ExprV::BinaryShadow(s, m1), vars, x) is Some,
        expr_apply_ok(ExprV::BinaryShadow(s, m2), vars, expr_apply(ExprV::BinaryShadow(s, m1), vars, x)->0),
        expr_apply(ExprV::BinaryShadow(s, m2), vars, expr_apply(ExprV::BinaryShadow(s, m1), vars, x)->0) is Some,
    ensures
        expr_apply(ExprV::BinaryShadow(s, byte_matrix_product(m2, m1)), vars, x) == expr_apply(
            ExprV::BinaryShadow(s, m2),
            vars,
            expr_apply(ExprV::BinaryShadow(s, m1), vars, x)->0,
        ),
        expr_apply_ok(ExprV::BinaryShadow(s, byte_matrix_product(m2, m1)), vars, x),
{
    assert(valid_coords(s, vars, x));
    assert(bit_linear_ok(m1));
    let o = crate::space::spec_linearize(s, vars, x)->0;
    lemma_fused_bit_linear(o, m1, m2);
    let w1 = bit_linear(o, m1);
    let y1 = expr_apply(ExprV::BinaryShadow(s, m1), vars, x)->0;
    assert(spec_delinearize(opt_extents(s, vars), w1) == Some(y1));
    lemma_linearize_delinearize(s, vars, w1);
    assert(valid_coords(s, vars, y1));
    assert(crate::space::spec_linearize(s, vars, y1)->0 == w1);
}

/// Every fusion in simplifying `e` keeps its meaning (see [`fuses_soundly`]).
pub open spec fn fusion_sound(e: ExprV) -> bool
    decreases e,
{
    match e {
        ExprV::Composition(l1, l2) => fusion_sound(*l1) && fusion_sound(*l2) && fuses_soundly(
            simplify_expr(*l1),
            simplify_expr(*l2),
        ),
        ExprV::Product(l1, l2) => fusion_sound(*l1) && fusion_sound(*l2),
        _ => true,
    }
}

/// Simplifying keeps the source space, and whether it can be computed.
pub proof fn lemma_simplify_keeps_source(e: ExprV)
    ensures
        expr_source(simplify_expr(e)) == expr_source(e),
        expr_source_ok(e) ==> expr_source_ok(simplify_expr(e)),
    decreases e,
{
    match e {
        ExprV::Composition(l1, l2) => {
            lemma_simplify_keeps_source(*l1);
            lemma_simplify_keeps_source(*l2);
            let a = simplify_expr(*l1);
            let b = simplify_expr(*l2);
            assert(expr_source(ExprV::Composition(Box::new(a), Box::new(b))) == expr_source(a));
            match (a, b) {
                (ExprV::Delinearize(s1), ExprV::Linearize(s2)) => {
                    assert(expr_source(ExprV::Identity(offset_space(s1))) == offset_space(s1));
                },
                _ => {},
            }
        },
        ExprV::Product(l1, l2) => {
            lemma_simplify_keeps_source(*l1);
            lemma_simplify_keeps_source(*l2);
        },
        _ => {},
    }
}


/// Two permutations in turn move each coordinate where their chained
/// positions put it.
proof fn lemma_chain_scatter(p1: Seq<usize>, p2: Seq<usize>, x: Seq<u64>)
    requires
        is_permutation(p1, x.len() as int),
        is_permutation(p2, x.len() as int),
    ensures
        is_permutation(chain_positions(p1, p2), x.len() as int),
        scatter(
            Seq::new(x.len(), |i: int| 0u64),
            scatter(Seq::new(x.len(), |i: int| 0u64), x, p1, p1.len() as int),
            p2,
            p2.len() as int,
        ) == scatter(Seq::new(x.len(), |i: int| 0u64), x, chain_positions(p1, p2), p1.len() as int),
{
    let n = x.len() as int;
    let zeros = Seq::new(x.len(), |i: int| 0u64);
    let c = chain_positions(p1, p2);
    assert forall|i: int, j: int| 0 <= i < j < n implies c[i] != c[j] by {
        assert(p1[i] != p1[j]);
        if (p1[i] as int) < (p1[j] as int) {
            assert(p2[p1[i] as int] != p2[p1[j] as int]);
        } else {
            assert(p2[p1[j] as int] != p2[p1[i] as int]);
        }
    }
    assert forall|k: int| 0 <= k < n implies #[trigger] hits(c, k) by {
        assert(hits(p2, k));
        let j = choose|j: int| 0 <= j < p2.len() && #[trigger] p2[j] == k;
        assert(hits(p1, j));
        let i = choose|i: int| 0 <= i < p1.len() && #[trigger] p1[i] == j;
        assert(c[i] == k);
    }
    assert(positions_below(c, n));
    let y = scatter(zeros, x, p1, n);
    lemma_scatter_at(zeros, x, p1, n);
    let z = scatter(zeros, y, p2, n);
    lemma_scatter_at(zeros, y, p2, n);
    let w = scatter(zeros, x, c, n);
    lemma_scatter_at(zeros, x, c, n);
    assert forall|k: int| 0 <= k < n implies z[k] == w[k] by {
        assert(hits(c, k));
        let i = choose|i: int| 0 <= i < c.len() && #[trigger] c[i] == k;
        assert(z[p2[p1[i] as int] as int] == y[p1[i] as int]);
    }
    assert(z =~= w);
}

proof fn lemma_fuse_permutes(s1: SpaceV, p1: Seq<usize>, s2: SpaceV, p2: Seq<usize>, vars: Map<Seq<char>, u64>, x: Seq<u64>)
    requires
        spaces_compatible(s1, permuted(s2, p2)),
        is_permutation(p1, s1.len() as int),
        is_permutation(p2, s2.len() as int),
        expr_apply(ExprV::Permute(s1, p1), vars, x) is Some,
        expr_apply(ExprV::Permute(s2, p2), vars, expr_apply(ExprV::Permute(s1, p1), vars, x)->0) is Some,
    ensures
        expr_apply(ExprV::Permute(s1, chain_positions(p1, p2)), vars, x) == expr_apply(
            ExprV::Permute(s2, p2),
            vars,
            expr_apply(ExprV::Permute(s1, p1), vars, x)->0,
        ),
        expr_apply_ok(ExprV::Permute(s1, chain_positions(p1, p2)), vars, x),
{
    crate::space::lemma_scatter_len(Seq::new(s2.len(), |j: int| blank_factor()), s2, p2, p2.len() as int);
    assert(s1.len() == s2.len());
    assert(valid_coords(s1, vars, x));
    assert(x.len() == s1.len());
    lemma_chain_scatter(p1, p2, x);
    let y = expr_apply(ExprV::Permute(s1, p1), vars, x)->0;
    assert(valid_coords(s2, vars, y));
}

/// One fusion step keeps the map where the composition maps the point.
proof fn lemma_fuse_keeps_map(a: ExprV, b: ExprV, vars: Map<Seq<char>, u64>, x: Seq<u64>)
    requires
        fuses_soundly(a, b),
        expr_apply_ok(ExprV::Composition(Box::new(a), Box::new(b)), vars, x),
        expr_apply(ExprV::Composition(Box::new(a), Box::new(b)), vars, x) is Some,
    ensures
        expr_apply(fuse(a, b), vars, x) == expr_apply(ExprV::Composition(Box::new(a), Box::new(b)), vars, x),
        expr_apply_ok(fuse(a, b), vars, x),
{
    let c = ExprV::Composition(Box::new(a), Box::new(b));
    let m = expr_apply(a, vars, x)->0;
    assert(expr_apply_ok(a, vars, x));
    assert(expr_apply(a, vars, x) == Some(m));
    assert(expr_apply_ok(b, vars, m));
    assert(expr_apply(b, vars, m) is Some);
    assert(expr_apply(c, vars, x) == expr_apply(b, vars, m));
    match (a, b) {
        (ExprV::Linearize(s1), ExprV::Delinearize(s2)) => {
            if s1 == s2 {
                assert(valid_coords(s1, vars, x));
                lemma_delinearize_linearize(s1, vars, x);
            }
        },
        (ExprV::Delinearize(s1), ExprV::Linearize(s2)) => {
            if s1 == s2 {
                let o = x[0];
                assert(x.len() == 1);
                assert(spec_delinearize(opt_extents(s1, vars), o) == Some(m));
                assert(valid_coords(s1, vars, m));
                assert(prod(extents(s1, vars)) <= u64::MAX);
                lemma_linearize_delinearize(s1, vars, o);
                assert(seq![o] =~= x);
            }
        },
        (ExprV::Permute(s1, p1), ExprV::Permute(s2, p2)) => {
            if spaces_compatible(s1, permuted(s2, p2)) {
                lemma_fuse_permutes(s1, p1, s2, p2, vars, x);
            }
        },
        (ExprV::BinaryShadow(s1, m1), ExprV::BinaryShadow(s2, m2)) => {
            if s1 == s2 {
                lemma_fuse_shadows(s1, m1, m2, vars, x);
            }
        },
        (ExprV::Reshape(s1, s2), ExprV::Reshape(s2b, s3)) => {
            if s2 == s2b {
                let o = crate::space::spec_linearize(s1, vars, x)->0;
                assert(valid_coords(s1, vars, x));
                assert(spec_delinearize(opt_extents(s2, vars), o) == Some(m));
                assert(valid_coords(s2, vars, m));
                assert(prod(extents(s2, vars)) <= u64::MAX);
                lemma_linearize_delinearize(s2, vars, o);
            }
        },
        _ => {},
    }
}

/// Where a layout maps a point, its simplified form maps it to the same
/// image, when every fusion performed keeps its meaning (see
/// [`fusion_sound`]).
pub proof fn lemma_simplify_keeps_map(e: ExprV, vars: Map<Seq<char>, u64>, x: Seq<u64>)
    requires
        fusion_sound(e),
        expr_apply_ok(e, vars, x),
        expr_apply(e, vars, x) is Some,
    ensures
        expr_apply(simplify_expr(e), vars, x) == expr_apply(e, vars, x),
        expr_apply_ok(simplify_expr(e), vars, x),
    decreases e,
{
    match e {
        ExprV::Composition(l1, l2) => {
            lemma_simplify_keeps_map(*l1, vars, x);
            let m = expr_apply(*l1, vars, x)->0;
            lemma_simplify_keeps_map(*l2, vars, m);
            let a = simplify_expr(*l1);
            let b = simplify_expr(*l2);
            assert(expr_apply(ExprV::Composition(Box::new(a), Box::new(b)), vars, x) == expr_apply(e, vars, x));
            lemma_fuse_keeps_map(a, b, vars, x);
        },
        ExprV::Product(l1, l2) => {
            let n1 = expr_source(*l1).len() as int;
            lemma_simplify_keeps_source(*l1);
            lemma_simplify_keeps_map(*l1, vars, x.take(n1));
            lemma_simplify_keeps_map(*l2, vars, x.skip(n1));
        },
        _ => {},
    }
}


/// Reassociating `a ; b` to the left keeps its map, its freedom from panic
/// and its source.
pub(crate) proof fn lemma_attach(a: ExprV, b: ExprV, vars: Map<Seq<char>, u64>, x: Seq<u64>)
    ensures
        expr_apply(attach(a, b), vars, x) == expr_apply(ExprV::Composition(Box::new(a), Box::new(b)), vars, x),
        expr_apply_ok(attach(a, b), vars, x) == expr_apply_ok(
            ExprV::Composition(Box::new(a), Box::new(b)),
            vars,
            x,
        ),
        expr_source(attach(a, b)) == expr_source(a),
        expr_source_ok(attach(a, b)) == expr_source_ok(a),
    decreases b,
{
    if let ExprV::Composition(b1, b2) = b {
        lemma_attach(a, *b1, vars, x);
        let c = ExprV::Composition(Box::new(a), Box::new(*b1));
        assert(attach(a, b) == ExprV::Composition(Box::new(attach(a, *b1)), b2));
        match expr_apply(a, vars, x) {
            None => {
                assert(expr_apply(c, vars, x) is None);
            },
            Some(m) => {
                assert(expr_apply(c, vars, x) == expr_apply(*b1, vars, m));
                assert(expr_apply(ExprV::Composition(b1, b2), vars, m) == match expr_apply(*b1, vars, m) {
                    None => None,
                    Some(n) => expr_apply(*b2, vars, n),
                });
                assert(expr_apply_ok(ExprV::Composition(b1, b2), vars, m) == (expr_apply_ok(*b1, vars, m) && (
                expr_apply(*b1, vars, m) matches Some(n) ==> expr_apply_ok(*b2, vars, n))));
            },
        }
    }
}

/// Associating the compositions of a layout to the left keeps its map, its
/// freedom from panic and its source.
pub proof fn lemma_left_assoc_keeps_map(e: ExprV, vars: Map<Seq<char>, u64>, x: Seq<u64>)
    ensures
        expr_apply(left_assoc(e), vars, x) == expr_apply(e, vars, x),
        expr_apply_ok(left_assoc(e), vars, x) == expr_apply_ok(e, vars, x),
        expr_source(left_assoc(e)) == expr_source(e),
        expr_source_ok(left_assoc(e)) == expr_source_ok(e),
    decreases e,
{
    match e {
        ExprV::Composition(l1, l2) => {
            let a = left_assoc(*l1);
            let b = left_assoc(*l2);
            lemma_left_assoc_keeps_map(*l1, vars, x);
            lemma_attach(a, b, vars, x);
            if let Some(m) = expr_apply(*l1, vars, x) {
                lemma_left_assoc_keeps_map(*l2, vars, m);
            }
        },
        ExprV::Product(l1, l2) => {
            let n1 = expr_source(*l1).len() as int;
            lemma_left_assoc_keeps_map(*l1, vars, x.take(n1));
            lemma_left_assoc_keeps_map(*l2, vars, x.skip(n1));
        },
        _ => {},
    }
}

/// Dropping the leading identities keeps the map on the points of the source.
pub proof fn lemma_drop_leading_identity(e: ExprV, vars: Map<Seq<char>, u64>, x: Seq<u64>)
    requires
        valid_coords(expr_source(e), vars, x),
    ensures
        expr_apply(drop_leading_identity(e), vars, x) == expr_apply(e, vars, x),
    decreases e,
{
    match e {
        ExprV::Composition(l1, l2) => {
            lemma_drop_leading_identity(*l1, vars, x);
        },
        ExprV::Permute(s, p) => {
            if is_identity_positions(p, s.len()) {
                let n = s.len() as int;
                let zeros = Seq::new(s.len(), |i: int| 0u64);
                assert(positions_below(p, n));
                lemma_scatter_at(zeros, x, p, n);
                let y = scatter(zeros, x, p, n);
                assert forall|i: int| 0 <= i < n implies y[i] == x[i] by {
                    assert(y[p[i] as int] == x[i]);
                }
                assert(y =~= x);
            }
        },
        _ => {},
    }
}

pub(crate) proof fn lemma_compatible_valid(a: SpaceV, b: SpaceV, vars: Map<Seq<char>, u64>, x: Seq<u64>)
    requires
        spaces_compatible(a, b),
        valid_coords(a, vars, x),
    ensures
        valid_coords(b, vars, x),
{
    assert forall|i: int| 0 <= i < b.len() implies {
        &&& (#[trigger] crate::space::eval_extent(b[i].extent, vars)) is Some
        &&& x[i] < crate::space::eval_extent(b[i].extent, vars)->0
    } by {
        assert(a[i].extent == b[i].extent);
        assert(crate::space::eval_extent(a[i].extent, vars) is Some);
    }
}

/// Where a layout maps a point of its source, its canonical form (see
/// [`canonical`]) maps it to the same image, when every fusion performed
/// keeps its meaning.
pub proof fn lemma_canonical_keeps_map(e: ExprV, vars: Map<Seq<char>, u64>, x: Seq<u64>)
    requires
        fusion_sound(left_assoc(e)),
        valid_coords(expr_source(e), vars, x),
        expr_apply_ok(e, vars, x),
        expr_apply(e, vars, x) is Some,
    ensures
        expr_apply(canonical(e), vars, x) == expr_apply(e, vars, x),
{
    let la = left_assoc(e);
    lemma_left_assoc_keeps_map(e, vars, x);
    lemma_simplify_keeps_map(la, vars, x);
    lemma_simplify_keeps_source(la);
    lemma_drop_leading_identity(simplify_expr(la), vars, x);
}

/// Layouts judged equivalent (see `Layout::equivalent_to`: compatible
/// sources and the same canonical form) map every point of the source that
/// both map, without panic, to the same image, when their fusions keep
/// meaning. (Where one of them leaves a point unmapped the other may map it:
/// the rules fuse two reshapes through a smaller middle space into one. Where
/// every fusion is exact, `undefined_law` shows agreement on every point.)
pub proof fn lemma_equivalent_layouts_agree(a: ExprV, b: ExprV, vars: Map<Seq<char>, u64>, x: Seq<u64>)
    requires
        canonical(a) == canonical(b),
        spaces_compatible(expr_source(a), expr_source(b)),
        valid_coords(expr_source(a), vars, x),
        fusion_sound(left_assoc(a)),
        fusion_sound(left_assoc(b)),
        expr_apply_ok(a, vars, x),
        expr_apply_ok(b, vars, x),
        expr_apply(a, vars, x) is Some,
        expr_apply(b, vars, x) is Some,
    ensures
        expr_apply(a, vars, x) == expr_apply(b, vars, x),
{
    lemma_compatible_valid(expr_source(a), expr_source(b), vars, x);
    lemma_canonical_keeps_map(a, vars, x);
    lemma_canonical_keeps_map(b, vars, x);
}

} // verus!
