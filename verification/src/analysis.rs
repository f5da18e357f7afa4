//! Structural judgments on layouts (injectivity, surjectivity, aliasing),
//! algebraic simplification, the layered normal form, and stride analysis.
use vstd::prelude::*;
use crate::space::{
    Space, SpaceV, Valuation, Extent, ExtentV, eval_extent, simplify_extent, simplify_extent_ok, volume_of,
    permuted, positions_below, spaces_compatible,
};
use crate::layout::gf2::{invert_gf2, gf2_inverse, rows_cover};
use crate::layout::scalar::{
    ScalarExpr, ScalarV, matrix_view, rows_view, lemma_rows_push, eval_scalar, eval_scalar_ok,
};
use crate::layout::lower::{expr_lower, expr_lower_ok, scalars_view, and_of, mk_and};
use crate::layout::scalar::{simplify_scalar, simplify_scalar_ok};
use crate::layout::apply::{expr_apply, expr_apply_ok};
use crate::layout::as_layout::AsLayout;
use crate::layout::expr::{
    Expression, ExprV, expr_source, expr_source_ok, expr_target, expr_target_ok, offset_space,
    offset_space_of,
};

verus! {

/// A three-valued answer: proved true, proved false, or not decided by the
/// structure of the layout.
#[derive(Debug, Clone, Copy, PartialEq, Eq, Structural)]
pub enum Judgment {
    True,
    False,
    Unknown,
}

/// The judgment on a composite from those on its parts: true when both are
/// true, false when either is false, unknown otherwise.
pub open spec fn combine(a: Judgment, b: Judgment) -> Judgment {
    if a == Judgment::True && b == Judgment::True {
        Judgment::True
    } else if a == Judgment::False || b == Judgment::False {
        Judgment::False
    } else {
        Judgment::Unknown
    }
}

fn combine_exec(a: Judgment, b: Judgment) -> (r: Judgment)
    ensures
        r == combine(a, b),
{
    match (a, b) {
        (Judgment::True, Judgment::True) => Judgment::True,
        (Judgment::False, _) | (_, Judgment::False) => Judgment::False,
        _ => Judgment::Unknown,
    }
}

/// The product of the extents of the first `k` factors of `s`, when all of
/// them are constants and every partial product fits in 64 bits.
pub open spec fn const_product(s: SpaceV, k: int) -> Option<u64>
    decreases k,
{
    if k <= 0 {
        Some(1u64)
    } else {
        match const_product(s, k - 1) {
            Some(p) => match s[k - 1].extent {
                ExtentV::Constant(c) => if p * c <= u64::MAX {
                    Some((p * c) as u64)
                } else {
                    None
                },
                _ => None,
            },
            None => None,
        }
    }
}

/// The volume of a space whose extents are all constants (see
/// [`const_product`]).
pub open spec fn const_volume(s: SpaceV) -> Option<u64> {
    const_product(s, s.len() as int)
}

/// `v` is a multiple of `2^d`.
pub open spec fn whole_blocks(v: u64, d: nat) -> bool
    decreases d,
{
    if d == 0 {
        true
    } else {
        v % 2 == 0 && whole_blocks(v / 2, (d - 1) as nat)
    }
}

/// The matrix is square (or wider) and invertible over GF(2).
pub open spec fn invertible_matrix(m: Seq<Seq<u8>>) -> bool {
    rows_cover(m) && gf2_inverse(m) is Some
}

/// Whether a layout maps distinct points to distinct points, judged by its
/// structure: broadcasts and repeats are not injective; a reshape is when
/// both volumes are constants and the target's is at least the source's, a
/// binary shadow when its matrix is invertible over GF(2), and undecided
/// otherwise; compositions and products combine their parts; every other
/// primitive is injective.
pub open spec fn injective_judgment(e: ExprV) -> Judgment
    decreases e,
{
    match e {
        ExprV::Composition(l1, l2) => combine(injective_judgment(*l1), injective_judgment(*l2)),
        ExprV::Product(l1, l2) => combine(injective_judgment(*l1), injective_judgment(*l2)),
        ExprV::Broadcast(_, _) => Judgment::False,
        ExprV::Repeat(_, _) => Judgment::False,
        ExprV::Reshape(s, t) => match (const_volume(s), const_volume(t)) {
            (Some(a), Some(b)) => if a <= b {
                Judgment::True
            } else {
                Judgment::Unknown
            },
            _ => Judgment::Unknown,
        },
        ExprV::BinaryShadow(_, m) => if invertible_matrix(m) {
            Judgment::True
        } else {
            Judgment::Unknown
        },
        _ => Judgment::True,
    }
}

/// Whether a layout reaches every point of its target, judged by its
/// structure: slices and pads do not; a reshape does when both volumes are
/// constants and the target's is at most the source's, a binary shadow when
/// its matrix is invertible over GF(2) and its space has a constant volume
/// that is a multiple of `2^d` (`d` the size of the matrix), and both are
/// undecided otherwise; compositions and products combine their parts; every
/// other primitive does.
pub open spec fn surjective_judgment(e: ExprV) -> Judgment
    decreases e,
{
    match e {
        ExprV::Composition(l1, l2) => combine(surjective_judgment(*l1), surjective_judgment(*l2)),
        ExprV::Product(l1, l2) => combine(surjective_judgment(*l1), surjective_judgment(*l2)),
        ExprV::Slice(_, _) => Judgment::False,
        ExprV::Pad(_, _, _) => Judgment::False,
        ExprV::Reshape(s, t) => match (const_volume(s), const_volume(t)) {
            (Some(a), Some(b)) => if b <= a {
                Judgment::True
            } else {
                Judgment::Unknown
            },
            _ => Judgment::Unknown,
        },
        ExprV::BinaryShadow(s, m) => if invertible_matrix(m) && (const_volume(s) matches Some(v) && whole_blocks(
            v,
            m.len(),
        )) {
            Judgment::True
        } else {
            Judgment::Unknown
        },
        _ => Judgment::True,
    }
}

proof fn lemma_const_product_none(s: SpaceV, k: int, n: int)
    requires
        0 <= k <= n,
        const_product(s, k) is None,
    ensures
        const_product(s, n) is None,
    decreases n - k,
{
    if k < n {
        lemma_const_product_none(s, k + 1, n);
    }
}

/// The constant volume of a space, if it has one (see [`const_volume`]).
fn constant_volume(s: &Space) -> (r: Option<u64>)
    ensures
        r == const_volume(s@),
{
    let n = s.factors.len();
    let mut p: u64 = 1;
    let mut i: usize = 0;
    while i < n
        invariant
            i <= n,
            n == s@.len(),
            const_product(s@, i as int) == Some(p),
        decreases n - i,
    {
        match &s.factors[i].extent {
            Extent::Constant(c) => {
                assert(s@[i as int].extent == ExtentV::Constant(*c));
                match p.checked_mul(*c) {
                    Some(q) => {
                        p = q;
                    },
                    None => {
                        proof {
                            lemma_const_product_none(s@, i + 1, n as int);
                        }
                        return None;
                    },
                }
            },
            _ => {
                assert(!(s@[i as int].extent is Constant));
                proof {
                    lemma_const_product_none(s@, i + 1, n as int);
                }
                return None;
            },
        }
        i += 1;
    }
    Some(p)
}

fn whole_blocks_exec(v: u64, d: usize) -> (r: bool)
    ensures
        r == whole_blocks(v, d as nat),
{
    let mut w = v;
    let mut k = d;
    while k > 0
        invariant
            whole_blocks(v, d as nat) == whole_blocks(w, k as nat),
        decreases k,
    {
        if w % 2 != 0 {
            return false;
        }
        w = w / 2;
        k -= 1;
    }
    true
}

/// Whether the matrix is square (or wider) and invertible over GF(2).
fn invertible_matrix_exec(m: &Vec<Vec<u8>>) -> (r: bool)
    ensures
        r == invertible_matrix(matrix_view(*m)),
{
    let n = m.len();
    let mut i: usize = 0;
    while i < n
        invariant
            i <= n,
            n == m@.len(),
            forall|j: int| 0 <= j < i ==> (#[trigger] matrix_view(*m)[j]).len() >= n,
        decreases n - i,
    {
        if m[i].len() < n {
            assert(matrix_view(*m)[i as int].len() < matrix_view(*m).len());
            return false;
        }
        i += 1;
    }
    assert(rows_cover(matrix_view(*m)));
    invert_gf2(m.as_slice()).is_some()
}

/// The negation of a judgment; unknown stays unknown.
pub open spec fn negate(j: Judgment) -> Judgment {
    match j {
        Judgment::True => Judgment::False,
        Judgment::False => Judgment::True,
        Judgment::Unknown => Judgment::Unknown,
    }
}

/// The value of the simplified volume of a space.
pub open spec fn volume_value(s: SpaceV, vars: Map<Seq<char>, u64>) -> Option<u64> {
    eval_extent(simplify_extent(volume_of(s)), vars)
}

/// Whether two points of the source share a point of the target: a reshape
/// aliases when its source volume exceeds its target volume (unknown when a
/// volume has no value); broadcasts and repeats alias; every other layout
/// aliases exactly when it is judged not injective.
pub open spec fn aliasing_judgment(e: ExprV, vars: Map<Seq<char>, u64>) -> Judgment {
    match e {
        ExprV::Reshape(s, t) => match (volume_value(s, vars), volume_value(t, vars)) {
            (Some(vs), Some(vt)) => if vs > vt {
                Judgment::True
            } else {
                Judgment::False
            },
            _ => Judgment::Unknown,
        },
        ExprV::Broadcast(_, _) => Judgment::True,
        ExprV::Repeat(_, _) => Judgment::True,
        _ => negate(injective_judgment(e)),
    }
}

/// Judging aliasing does not panic: the volumes of a reshape simplify.
pub open spec fn aliasing_ok(e: ExprV) -> bool {
    match e {
        ExprV::Reshape(s, t) => simplify_extent_ok(volume_of(s)) && simplify_extent_ok(volume_of(t)),
        _ => true,
    }
}

impl Expression {
    /// The structural injectivity judgment (see [`injective_judgment`]).
    pub fn is_injective(&self) -> (r: Judgment)
        ensures
            r == injective_judgment(self@),
        decreases self,
    {
        match self {
            Expression::Composition(l1, l2) => combine_exec(l1.is_injective(), l2.is_injective()),
            Expression::Product(l1, l2) => combine_exec(l1.is_injective(), l2.is_injective()),
            Expression::Broadcast(_, _) | Expression::Repeat(_, _) => Judgment::False,
            Expression::Reshape(s, t) => match (constant_volume(s), constant_volume(t)) {
                (Some(a), Some(b)) => if a <= b {
                    Judgment::True
                } else {
                    Judgment::Unknown
                },
                _ => Judgment::Unknown,
            },
            Expression::BinaryShadow(_, m) => if invertible_matrix_exec(m) {
                Judgment::True
            } else {
                Judgment::Unknown
            },
            _ => Judgment::True,
        }
    }

    /// The structural surjectivity judgment (see [`surjective_judgment`]).
    pub fn is_surjective(&self) -> (r: Judgment)
        ensures
            r == surjective_judgment(self@),
        decreases self,
    {
        match self {
            Expression::Composition(l1, l2) => combine_exec(l1.is_surjective(), l2.is_surjective()),
            Expression::Product(l1, l2) => combine_exec(l1.is_surjective(), l2.is_surjective()),
            Expression::Slice(_, _) | Expression::Pad(_, _, _) => Judgment::False,
            Expression::Reshape(s, t) => match (constant_volume(s), constant_volume(t)) {
                (Some(a), Some(b)) => if b <= a {
                    Judgment::True
                } else {
                    Judgment::Unknown
                },
                _ => Judgment::Unknown,
            },
            Expression::BinaryShadow(s, m) => {
                if !invertible_matrix_exec(m) {
                    return Judgment::Unknown;
                }
                match constant_volume(s) {
                    Some(v) => if whole_blocks_exec(v, m.len()) {
                        Judgment::True
                    } else {
                        Judgment::Unknown
                    },
                    None => Judgment::Unknown,
                }
            },
            _ => Judgment::True,
        }
    }

    /// The aliasing judgment under a valuation (see [`aliasing_judgment`]).
    pub fn is_aliasing(&self, valuation: &Valuation) -> (r: Judgment)
        requires
            aliasing_ok(self@),
        ensures
            r == aliasing_judgment(self@, valuation@),
    {
        match self {
            Expression::Reshape(s, t) => {
                let vol_s = valuation.get_extent(&s.volume_extent());
                let vol_t = valuation.get_extent(&t.volume_extent());
                match (vol_s, vol_t) {
                    (Some(vs), Some(vt)) => if vs > vt {
                        Judgment::True
                    } else {
                        Judgment::False
                    },
                    _ => Judgment::Unknown,
                }
            },
            Expression::Broadcast(_, _) | Expression::Repeat(_, _) => Judgment::True,
            _ => match self.is_injective() {
                Judgment::True => Judgment::False,
                Judgment::False => Judgment::True,
                Judgment::Unknown => Judgment::Unknown,
            },
        }
    }
}


/// Bits `0..k` of the dot product, bytewise, of row `u` with column `j` of
/// `b`: the `xor` of `u[t] & b[t][j]`.
pub open spec fn byte_dot(u: Seq<u8>, b: Seq<Seq<u8>>, j: int, k: int) -> u8
    decreases k,
{
    if k <= 0 {
        0
    } else {
        byte_dot(u, b, j, k - 1) ^ (u[k - 1] & b[k - 1][j])
    }
}

/// The `d x d` product of `m1` and `m2` with `&` for product and `xor` for
/// sum, over whole bytes, where `d` is the number of rows of `m1`.
pub open spec fn byte_matrix_product(m1: Seq<Seq<u8>>, m2: Seq<Seq<u8>>) -> Seq<Seq<u8>> {
    let d = m1.len();
    Seq::new(d, |i: int| Seq::new(d, |j: int| byte_dot(m1[i], m2, j, d as int)))
}

/// The product is defined: the rows of `m1` and the rows and columns of `m2`
/// reach `d`.
pub open spec fn byte_product_ok(m1: Seq<Seq<u8>>, m2: Seq<Seq<u8>>) -> bool {
    let d = m1.len();
    &&& forall|i: int| 0 <= i < d ==> (#[trigger] m1[i]).len() >= d
    &&& m2.len() >= d
    &&& forall|k: int| 0 <= k < d ==> (#[trigger] m2[k]).len() >= d
}

/// The positions of a permutation followed by another: entry `i` is `p2[p1[i]]`.
pub open spec fn chain_positions(p1: Seq<usize>, p2: Seq<usize>) -> Seq<usize> {
    Seq::new(p1.len(), |i: int| p2[p1[i] as int])
}

/// One step of simplification of a composition of two already simplified
/// layouts: a linearization followed by the delinearization of the same
/// space is the identity on it; a delinearization followed by the
/// linearization of the same space is the identity on its offsets; two
/// reshapes through the same space are one reshape; two permutations whose
/// spaces match are one; two binary shadows on the same space are one, with
/// the bytewise product `m2 m1` of their matrices (the first acts first).
/// Anything else stays a composition.
pub open spec fn fuse(a: ExprV, b: ExprV) -> ExprV {
    match (a, b) {
        (ExprV::Linearize(s1), ExprV::Delinearize(s2)) if s1 == s2 => ExprV::Identity(s1),
        (ExprV::Delinearize(s1), ExprV::Linearize(s2)) if s1 == s2 => ExprV::Identity(
            offset_space(s1),
        ),
        (ExprV::Reshape(s1, s2), ExprV::Reshape(s2b, s3)) if s2 == s2b => ExprV::Reshape(s1, s3),
        (ExprV::Permute(s1, p1), ExprV::Permute(s2, p2)) if spaces_compatible(
            s1,
            permuted(s2, p2),
        ) => ExprV::Permute(s1, chain_positions(p1, p2)),
        (ExprV::BinaryShadow(s1, m1), ExprV::BinaryShadow(s2, m2)) if s1 == s2 => ExprV::BinaryShadow(
            s1,
            byte_matrix_product(m2, m1),
        ),
        _ => ExprV::Composition(Box::new(a), Box::new(b)),
    }
}

/// Fusing does not panic: the volume of a delinearized space simplifies, the
/// second of two permutations has positions in range (and the first has
/// positions below its length where they fuse), and fused binary shadow
/// matrices are large enough.
pub open spec fn fuse_ok(a: ExprV, b: ExprV) -> bool {
    match (a, b) {
        (ExprV::Delinearize(s1), ExprV::Linearize(s2)) => s1 == s2 ==> simplify_extent_ok(
            volume_of(s1),
        ),
        (ExprV::Permute(s1, p1), ExprV::Permute(s2, p2)) => {
            &&& p2.len() <= s2.len()
            &&& positions_below(p2, s2.len() as int)
            &&& spaces_compatible(s1, permuted(s2, p2)) ==> positions_below(p1, p2.len() as int)
        },
        (ExprV::BinaryShadow(s1, m1), ExprV::BinaryShadow(s2, m2)) => s1 == s2 ==> byte_product_ok(
            m2,
            m1,
        ),
        _ => true,
    }
}

/// Recursive simplification: the parts of compositions and products are
/// simplified, then a composition is fused (see [`fuse`]).
pub open spec fn simplify_expr(e: ExprV) -> ExprV
    decreases e,
{
    match e {
        ExprV::Composition(l1, l2) => fuse(simplify_expr(*l1), simplify_expr(*l2)),
        ExprV::Product(l1, l2) => ExprV::Product(
            Box::new(simplify_expr(*l1)),
            Box::new(simplify_expr(*l2)),
        ),
        _ => e,
    }
}

/// Simplifying does not panic (see [`fuse_ok`]).
pub open spec fn simplify_expr_ok(e: ExprV) -> bool
    decreases e,
{
    match e {
        ExprV::Composition(l1, l2) => simplify_expr_ok(*l1) && simplify_expr_ok(*l2) && fuse_ok(
            simplify_expr(*l1),
            simplify_expr(*l2),
        ),
        ExprV::Product(l1, l2) => simplify_expr_ok(*l1) && simplify_expr_ok(*l2),
        _ => true,
    }
}

fn chain_positions_exec(p1: &Vec<usize>, p2: &Vec<usize>) -> (r: Vec<usize>)
    requires
        positions_below(p1@, p2@.len() as int),
    ensures
        r@ == chain_positions(p1@, p2@),
{
    let mut out: Vec<usize> = Vec::new();
    let mut i: usize = 0;
    while i < p1.len()
        invariant
            i <= p1.len(),
            positions_below(p1@, p2@.len() as int),
            out@ == chain_positions(p1@, p2@).take(i as int),
        decreases p1.len() - i,
    {
        let k = p1[i];
        out.push(p2[k]);
        i += 1;
        assert(out@ =~= chain_positions(p1@, p2@).take(i as int));
    }
    assert(out@ =~= chain_positions(p1@, p2@));
    out
}

fn byte_matrix_product_exec(m1: &Vec<Vec<u8>>, m2: &Vec<Vec<u8>>) -> (r: Vec<Vec<u8>>)
    requires
        byte_product_ok(matrix_view(*m1), matrix_view(*m2)),
    ensures
        matrix_view(r) == byte_matrix_product(matrix_view(*m1), matrix_view(*m2)),
{
    let ghost a = matrix_view(*m1);
    let ghost b = matrix_view(*m2);
    let ghost want = byte_matrix_product(a, b);
    let d = m1.len();
    let mut out: Vec<Vec<u8>> = Vec::new();
    let mut i: usize = 0;
    while i < d
        invariant
            i <= d,
            d == m1.len(),
            a == matrix_view(*m1),
            b == matrix_view(*m2),
            want == byte_matrix_product(a, b),
            byte_product_ok(a, b),
            rows_view(out@) == want.take(i as int),
        decreases d - i,
    {
        let mut row: Vec<u8> = Vec::new();
        let mut j: usize = 0;
        while j < d
            invariant
                i < d,
                j <= d,
                d == m1.len(),
                a == matrix_view(*m1),
                b == matrix_view(*m2),
                want == byte_matrix_product(a, b),
                byte_product_ok(a, b),
                row@ == want[i as int].take(j as int),
            decreases d - j,
        {
            let mut acc: u8 = 0;
            let mut k: usize = 0;
            assert(a[i as int].len() >= d);
            while k < d
                invariant
                    i < d,
                    j < d,
                    k <= d,
                    d == m1.len(),
                    a == matrix_view(*m1),
                    b == matrix_view(*m2),
                    byte_product_ok(a, b),
                    acc == byte_dot(a[i as int], b, j as int, k as int),
                decreases d - k,
            {
                assert(a[i as int].len() >= d);
                assert(b[k as int].len() >= d);
                acc = acc ^ (m1[i][k] & m2[k][j]);
                k += 1;
            }
            row.push(acc);
            j += 1;
            assert(row@ =~= want[i as int].take(j as int));
        }
        assert(row@ =~= want[i as int]);
        proof {
            lemma_rows_push(out@, row);
            assert(want.take(i as int + 1) =~= want.take(i as int).push(row@));
        }
        out.push(row);
        i += 1;
        assert(rows_view(out@) =~= want.take(i as int));
    }
    assert(rows_view(out@) =~= want);
    out
}

/// One fusion step (see [`fuse`]).
fn fuse_exec(a: Expression, b: Expression) -> (r: Expression)
    requires
        fuse_ok(a@, b@),
    ensures
        r@ == fuse(a@, b@),
{
    let fused: Option<Expression> = match (&a, &b) {
        (Expression::Linearize(s1), Expression::Delinearize(s2)) => {
            if s1.same_as(s2) {
                Some(Expression::Identity(s1.duplicate()))
            } else {
                None
            }
        },
        (Expression::Delinearize(s1), Expression::Linearize(s2)) => {
            if s1.same_as(s2) {
                Some(Expression::Identity(offset_space_of(s1)))
            } else {
                None
            }
        },
        (Expression::Reshape(s1, s2), Expression::Reshape(s2b, s3)) => {
            if s2.same_as(s2b) {
                Some(Expression::Reshape(s1.duplicate(), s3.duplicate()))
            } else {
                None
            }
        },
        (Expression::Permute(s1, p1), Expression::Permute(s2, p2)) => {
            if s1.compatible(&s2.permute(p2.as_slice())) {
                Some(Expression::Permute(s1.duplicate(), chain_positions_exec(p1, p2)))
            } else {
                None
            }
        },
        (Expression::BinaryShadow(s1, m1), Expression::BinaryShadow(s2, m2)) => {
            if s1.same_as(s2) {
                Some(Expression::BinaryShadow(s1.duplicate(), byte_matrix_product_exec(m2, m1)))
            } else {
                None
            }
        },
        _ => None,
    };
    match fused {
        Some(e) => e,
        None => Expression::Composition(Box::new(a), Box::new(b)),
    }
}

/// `b` after `a`, with the compositions on the left spine of `b` reassociated
/// to the left: `a ; (b1 ; b2)` becomes `(a ; b1) ; b2`.
pub open spec fn attach(a: ExprV, b: ExprV) -> ExprV
    decreases b,
{
    match b {
        ExprV::Composition(b1, b2) => ExprV::Composition(Box::new(attach(a, *b1)), b2),
        _ => ExprV::Composition(Box::new(a), Box::new(b)),
    }
}

/// The layout with every composition associated to the left, so that
/// neighbouring layers meet in one composition node.
pub open spec fn left_assoc(e: ExprV) -> ExprV
    decreases e,
{
    match e {
        ExprV::Composition(l1, l2) => attach(left_assoc(*l1), left_assoc(*l2)),
        ExprV::Product(l1, l2) => ExprV::Product(Box::new(left_assoc(*l1)), Box::new(left_assoc(*l2))),
        _ => e,
    }
}

/// `p` lists the positions `0..n` in order.
pub open spec fn is_identity_positions(p: Seq<usize>, n: nat) -> bool {
    &&& p.len() == n
    &&& forall|i: int| 0 <= i < n ==> #[trigger] p[i] == i
}

/// The layout with the permutations that move nothing, on the left spine of
/// its compositions, replaced by identities, and the identities that lead a
/// composition dropped.
pub open spec fn drop_leading_identity(e: ExprV) -> ExprV
    decreases e,
{
    match e {
        ExprV::Composition(l1, l2) => {
            let a = drop_leading_identity(*l1);
            if a is Identity {
                *l2
            } else {
                ExprV::Composition(Box::new(a), l2)
            }
        },
        ExprV::Permute(s, p) => if is_identity_positions(p, s.len()) {
            ExprV::Identity(s)
        } else {
            e
        },
        _ => e,
    }
}

/// The canonical form that equivalence compares: compositions associated to
/// the left, simplified by the fusion rules, and leading identities dropped.
pub open spec fn canonical(e: ExprV) -> ExprV {
    drop_leading_identity(simplify_expr(left_assoc(e)))
}

fn attach_exec(a: Expression, b: Expression) -> (r: Expression)
    ensures
        r@ == attach(a@, b@),
    decreases b,
{
    match b {
        Expression::Composition(b1, b2) => Expression::Composition(Box::new(attach_exec(a, *b1)), b2),
        other => Expression::Composition(Box::new(a), Box::new(other)),
    }
}

fn left_assoc_exec(e: Expression) -> (r: Expression)
    ensures
        r@ == left_assoc(e@),
    decreases e,
{
    match e {
        Expression::Composition(l1, l2) => {
            let a = left_assoc_exec(*l1);
            let b = left_assoc_exec(*l2);
            attach_exec(a, b)
        },
        Expression::Product(l1, l2) => {
            let a = left_assoc_exec(*l1);
            let b = left_assoc_exec(*l2);
            Expression::Product(Box::new(a), Box::new(b))
        },
        other => other,
    }
}

fn identity_positions_exec(p: &Vec<usize>, n: usize) -> (r: bool)
    ensures
        r == is_identity_positions(p@, n as nat),
{
    if p.len() != n {
        return false;
    }
    let mut i: usize = 0;
    while i < n
        invariant
            i <= n,
            p@.len() == n,
            forall|j: int| 0 <= j < i ==> #[trigger] p@[j] == j,
        decreases n - i,
    {
        if p[i] != i {
            return false;
        }
        i += 1;
    }
    true
}

fn drop_leading_identity_exec(e: Expression) -> (r: Expression)
    ensures
        r@ == drop_leading_identity(e@),
    decreases e,
{
    match e {
        Expression::Composition(l1, l2) => {
            let a = drop_leading_identity_exec(*l1);
            if let Expression::Identity(_) = a {
                *l2
            } else {
                Expression::Composition(Box::new(a), l2)
            }
        },
        Expression::Permute(s, p) => {
            if identity_positions_exec(&p, s.rank()) {
                Expression::Identity(s)
            } else {
                Expression::Permute(s, p)
            }
        },
        other => other,
    }
}

impl Expression {
    /// The canonical form of the layout (see [`canonical`]).
    pub fn canonical_form(self) -> (r: Expression)
        requires
            simplify_expr_ok(left_assoc(self@)),
        ensures
            r@ == canonical(self@),
    {
        let a = left_assoc_exec(self);
        let b = a.simplify_recursive();
        drop_leading_identity_exec(b)
    }
}

impl Expression {
    /// The layout simplified by the fusion rules, bottom up (see
    /// [`simplify_expr`]).
    pub fn simplify_recursive(self) -> (r: Expression)
        requires
            simplify_expr_ok(self@),
        ensures
            r@ == simplify_expr(self@),
        decreases self,
    {
        match self {
            Expression::Composition(l1, l2) => {
                let a = (*l1).simplify_recursive();
                let b = (*l2).simplify_recursive();
                fuse_exec(a, b)
            },
            Expression::Product(l1, l2) => {
                let a = (*l1).simplify_recursive();
                let b = (*l2).simplify_recursive();
                Expression::Product(Box::new(a), Box::new(b))
            },
            _ => self,
        }
    }
}


/// The number of nodes of a layout expression.
pub open spec fn expr_size(e: ExprV) -> nat
    decreases e,
{
    match e {
        ExprV::Composition(l1, l2) => 1 + expr_size(*l1) + expr_size(*l2),
        ExprV::Product(l1, l2) => 1 + expr_size(*l1) + expr_size(*l2),
        _ => 1,
    }
}

/// Simplifying never grows a layout, and the parts of a simplified composition
/// are smaller than the layout.
pub proof fn lemma_simplify_size(e: ExprV)
    ensures
        expr_size(simplify_expr(e)) <= expr_size(e),
        simplify_expr(e) matches ExprV::Composition(l1, l2) ==> expr_size(*l1) < expr_size(e)
            && expr_size(*l2) < expr_size(e),
    decreases e,
{
    match e {
        ExprV::Composition(l1, l2) => {
            lemma_simplify_size(*l1);
            lemma_simplify_size(*l2);
        },
        ExprV::Product(l1, l2) => {
            lemma_simplify_size(*l1);
            lemma_simplify_size(*l2);
        },
        _ => {},
    }
}

/// The layer a primitive layout belongs to: views move no data, placements
/// map points to offsets and back, shadows permute bits of offsets;
/// compositions and products are complex.
pub enum Layer {
    View,
    Placement,
    Shadow,
    Complex,
}

/// The layer of a layout (see [`Layer`]).
pub open spec fn layer_of(e: ExprV) -> Layer {
    match e {
        ExprV::Linearize(_) => Layer::Placement,
        ExprV::Delinearize(_) => Layer::Placement,
        ExprV::BinaryShadow(_, _) => Layer::Shadow,
        ExprV::Composition(_, _) => Layer::Complex,
        ExprV::Product(_, _) => Layer::Complex,
        _ => Layer::View,
    }
}

/// The name of a layer.
pub open spec fn layer_name(l: Layer) -> Seq<char> {
    match l {
        Layer::View => "View"@,
        Layer::Placement => "Placement"@,
        Layer::Shadow => "Shadow"@,
        Layer::Complex => "Complex"@,
    }
}

fn layer_exec(e: &Expression) -> (r: Layer)
    ensures
        r == layer_of(e@),
{
    match e {
        Expression::Linearize(_) | Expression::Delinearize(_) => Layer::Placement,
        Expression::BinaryShadow(_, _) => Layer::Shadow,
        Expression::Composition(_, _) | Expression::Product(_, _) => Layer::Complex,
        _ => Layer::View,
    }
}

/// A layout split into three layers, applied in turn: a view, a placement
/// and a shadow.
pub struct LayeredNormalForm {
    pub view: Expression,
    pub placement: Expression,
    pub shadow: Expression,
}

impl View for LayeredNormalForm {
    type V = (ExprV, ExprV, ExprV);

    open spec fn view(&self) -> (ExprV, ExprV, ExprV) {
        (self.view@, self.placement@, self.shadow@)
    }
}

/// A layout that maps every point to itself: an identity, or a composition
/// of such.
pub open spec fn passes_through(e: ExprV) -> bool
    decreases e,
{
    match e {
        ExprV::Identity(_) => true,
        ExprV::Composition(a, b) => passes_through(*a) && passes_through(*b),
        _ => false,
    }
}

/// The layers of two normal forms can be composed layer by layer without
/// reordering maps: the shadow of the first is trivial or the view and
/// placement of the second are, and the placement of the first is trivial or
/// the view of the second is.
pub open spec fn layers_in_order(n1: (ExprV, ExprV, ExprV), n2: (ExprV, ExprV, ExprV)) -> bool {
    &&& passes_through(n1.2) || (passes_through(n2.0) && passes_through(n2.1))
    &&& passes_through(n1.1) || passes_through(n2.0)
}

/// The layered normal form: the simplified layout, when it is a composition
/// whose parts' layers come in order (see [`layers_in_order`]), is split part
/// by part and the layers of the parts are composed and simplified; a
/// composition whose layers would be reordered stays whole in the view
/// layer; an identity is the identity in every layer; any other layout is
/// placed in its own layer with identities on its source or target in the
/// others (a complex one counts as a view).
pub open spec fn normal_form(e: ExprV) -> (ExprV, ExprV, ExprV)
    decreases expr_size(e),
{
    let simplified = simplify_expr(e);
    match simplified {
        ExprV::Composition(l1, l2) => {
            proof {
                lemma_simplify_size(e);
            }
            let n1 = normal_form(*l1);
            let n2 = normal_form(*l2);
            if layers_in_order(n1, n2) {
                (
                    simplify_expr(ExprV::Composition(Box::new(n1.0), Box::new(n2.0))),
                    simplify_expr(ExprV::Composition(Box::new(n1.1), Box::new(n2.1))),
                    simplify_expr(ExprV::Composition(Box::new(n1.2), Box::new(n2.2))),
                )
            } else {
                let tgt = expr_target(simplified);
                (simplified, ExprV::Identity(tgt), ExprV::Identity(tgt))
            }
        },
        ExprV::Identity(s) => (ExprV::Identity(s), ExprV::Identity(s), ExprV::Identity(s)),
        _ => {
            let src = expr_source(simplified);
            let tgt = expr_target(simplified);
            match layer_of(simplified) {
                Layer::Placement => (ExprV::Identity(src), simplified, ExprV::Identity(tgt)),
                Layer::Shadow => (ExprV::Identity(src), ExprV::Identity(src), simplified),
                _ => (simplified, ExprV::Identity(tgt), ExprV::Identity(tgt)),
            }
        },
    }
}

/// Normalizing does not panic: every simplification along the way is
/// defined, and so are the source and target of a layout placed in a layer.
pub open spec fn normal_form_ok(e: ExprV) -> bool
    decreases expr_size(e),
{
    let simplified = simplify_expr(e);
    &&& simplify_expr_ok(e)
    &&& match simplified {
        ExprV::Composition(l1, l2) => {
            proof {
                lemma_simplify_size(e);
            }
            let n1 = normal_form(*l1);
            let n2 = normal_form(*l2);
            &&& normal_form_ok(*l1)
            &&& normal_form_ok(*l2)
            &&& if layers_in_order(n1, n2) {
                &&& simplify_expr_ok(ExprV::Composition(Box::new(n1.0), Box::new(n2.0)))
                &&& simplify_expr_ok(ExprV::Composition(Box::new(n1.1), Box::new(n2.1)))
                &&& simplify_expr_ok(ExprV::Composition(Box::new(n1.2), Box::new(n2.2)))
            } else {
                expr_target_ok(*l2)
            }
        },
        ExprV::Identity(_) => true,
        _ => expr_source_ok(simplified) && expr_target_ok(simplified),
    }
}

fn passes_through_exec(e: &Expression) -> (r: bool)
    ensures
        r == passes_through(e@),
    decreases e,
{
    match e {
        Expression::Identity(_) => true,
        Expression::Composition(a, b) => passes_through_exec(a) && passes_through_exec(b),
        _ => false,
    }
}

impl Expression {
    /// The name of the layer of this layout: "View", "Placement", "Shadow"
    /// or "Complex" (see [`layer_of`]).
    pub fn layer_type(&self) -> (r: &'static str)
        ensures
            r@ == layer_name(layer_of(self@)),
    {
        match layer_exec(self) {
            Layer::View => "View",
            Layer::Placement => "Placement",
            Layer::Shadow => "Shadow",
            Layer::Complex => "Complex",
        }
    }

    /// The layered normal form (see [`normal_form`]).
    pub fn normalize(self) -> (r: LayeredNormalForm)
        requires
            normal_form_ok(self@),
        ensures
            r@ == normal_form(self@),
        decreases expr_size(self@),
    {
        let ghost e = self@;
        let simplified = self.simplify_recursive();
        match simplified {
            Expression::Composition(l1, l2) => {
                proof {
                    lemma_simplify_size(e);
                }
                let nf1 = l1.duplicate().normalize();
                let nf2 = l2.duplicate().normalize();
                let in_order = (passes_through_exec(&nf1.shadow) || (passes_through_exec(&nf2.view)
                    && passes_through_exec(&nf2.placement))) && (passes_through_exec(&nf1.placement)
                    || passes_through_exec(&nf2.view));
                if in_order {
                    LayeredNormalForm {
                        view: Expression::Composition(Box::new(nf1.view), Box::new(nf2.view)).simplify_recursive(),
                        placement: Expression::Composition(
                            Box::new(nf1.placement),
                            Box::new(nf2.placement),
                        ).simplify_recursive(),
                        shadow: Expression::Composition(Box::new(nf1.shadow), Box::new(nf2.shadow)).simplify_recursive(),
                    }
                } else {
                    let tgt = l2.target_space();
                    LayeredNormalForm {
                        view: Expression::Composition(l1, l2),
                        placement: Expression::Identity(tgt.duplicate()),
                        shadow: Expression::Identity(tgt),
                    }
                }
            },
            Expression::Identity(s) => LayeredNormalForm {
                view: Expression::Identity(s.duplicate()),
                placement: Expression::Identity(s.duplicate()),
                shadow: Expression::Identity(s),
            },
            _ => {
                let src = simplified.source_space();
                let tgt = simplified.target_space();
                match layer_exec(&simplified) {
                    Layer::Placement => LayeredNormalForm {
                        view: Expression::Identity(src),
                        placement: simplified,
                        shadow: Expression::Identity(tgt),
                    },
                    Layer::Shadow => LayeredNormalForm {
                        view: Expression::Identity(src.duplicate()),
                        placement: Expression::Identity(src),
                        shadow: simplified,
                    },
                    _ => LayeredNormalForm {
                        view: simplified,
                        placement: Expression::Identity(tgt.duplicate()),
                        shadow: Expression::Identity(tgt),
                    },
                }
            },
        }
    }
}

/// Left division of a product by its left factor: `t x r` divided by `t` is
/// `r`, and `(t x a) x r` divided by `t` is `a x r`; anything else has no
/// quotient.
pub open spec fn left_quotient(e: ExprV, target: ExprV) -> Option<ExprV> {
    match e {
        ExprV::Product(t, r) => if *t == target {
            Some(*r)
        } else {
            match *t {
                ExprV::Product(t_inner, a) => if *t_inner == target {
                    Some(ExprV::Product(a, r))
                } else {
                    None
                },
                _ => None,
            }
        },
        _ => None,
    }
}

impl Expression {
    /// The quotient of this layout by `target` on the left (see
    /// [`left_quotient`]).
    pub fn left_div(self, target: Expression) -> (r: Option<Expression>)
        ensures
            crate::layout::inverse::opt_expr(r) == left_quotient(self@, target@),
    {
        match self {
            Expression::Product(t, r) => {
                if (*t).same_as(&target) {
                    Some(*r)
                } else {
                    match *t {
                        Expression::Product(t_inner, a) => {
                            if (*t_inner).same_as(&target) {
                                Some(Expression::Product(a, r))
                            } else {
                                None
                            }
                        },
                        _ => None,
                    }
                }
            },
            _ => None,
        }
    }
}

proof fn lemma_product_assoc(t: ExprV, a: ExprV, r: ExprV, vars: Map<Seq<char>, u64>, x: Seq<u64>)
    requires
        x.len() >= expr_source(t).len() + expr_source(a).len(),
    ensures
        expr_apply(ExprV::Product(Box::new(t), Box::new(ExprV::Product(Box::new(a), Box::new(r)))), vars, x)
            == expr_apply(ExprV::Product(Box::new(ExprV::Product(Box::new(t), Box::new(a))), Box::new(r)), vars, x),
{
    let nt = expr_source(t).len() as int;
    let na = expr_source(a).len() as int;
    let ta = ExprV::Product(Box::new(t), Box::new(a));
    let ar = ExprV::Product(Box::new(a), Box::new(r));
    assert(expr_source(ta).len() == nt + na);
    let xt = x.take(nt + na);
    let y = x.skip(nt);
    assert(xt.take(nt) =~= x.take(nt));
    assert(xt.skip(nt) =~= y.take(na));
    assert(y.skip(na) =~= x.skip(nt + na));
    let pt = expr_apply(t, vars, x.take(nt));
    let pa = expr_apply(a, vars, y.take(na));
    let pr = expr_apply(r, vars, x.skip(nt + na));
    assert(expr_apply(ta, vars, xt) == match pt {
        None => None,
        Some(o1) => match pa {
            None => None,
            Some(o2) => Some(o1 + o2),
        },
    });
    assert(expr_apply(ar, vars, y) == match pa {
        None => None,
        Some(o1) => match pr {
            None => None,
            Some(o2) => Some(o1 + o2),
        },
    });
    if pt is Some && pa is Some && pr is Some {
        assert(pt->0 + pa->0 + pr->0 =~= pt->0 + (pa->0 + pr->0));
    }
}

/// The quotient recomposes: the product of `target` and the quotient of `e`
/// by `target` maps every point with as many coordinates as the source of `e`
/// as `e` does.
pub proof fn lemma_left_div_recomposes(e: ExprV, target: ExprV, vars: Map<Seq<char>, u64>, x: Seq<u64>)
    requires
        left_quotient(e, target) is Some,
        x.len() == expr_source(e).len(),
    ensures
        expr_apply(ExprV::Product(Box::new(target), Box::new(left_quotient(e, target)->0)), vars, x)
            == expr_apply(e, vars, x),
{
    if let ExprV::Product(t, r) = e {
        if *t != target {
            if let ExprV::Product(t_inner, a) = *t {
                lemma_product_assoc(*t_inner, *a, *r, vars, x);
            }
        }
    }
}

/// Dividing a product by its left factor gives its right factor back.
pub proof fn lemma_left_div_product(t: ExprV, r: ExprV)
    ensures
        left_quotient(ExprV::Product(Box::new(t), Box::new(r)), t) == Some(r),
{
}


/// The product of the extents of factors `i..` of `s`, times `acc`, taken in
/// order; `None` when an extent has no value.
pub open spec fn stride_from(s: SpaceV, vars: Map<Seq<char>, u64>, i: int, acc: int) -> Option<int>
    decreases s.len() - i,
{
    if i >= s.len() {
        Some(acc)
    } else {
        match eval_extent(s[i].extent, vars) {
            None => None,
            Some(v) => stride_from(s, vars, i + 1, acc * v),
        }
    }
}

/// The running product of [`stride_from`] fits in 64 bits until it stops.
pub open spec fn stride_from_ok(s: SpaceV, vars: Map<Seq<char>, u64>, i: int, acc: int) -> bool
    decreases s.len() - i,
{
    if i >= s.len() {
        true
    } else {
        match eval_extent(s[i].extent, vars) {
            None => true,
            Some(v) => acc * v <= u64::MAX && stride_from_ok(s, vars, i + 1, acc * v),
        }
    }
}

/// The symbolic inputs `Input(0), .., Input(n - 1)`.
pub open spec fn input_scalars(n: nat) -> Seq<ScalarV> {
    Seq::new(n, |i: int| ScalarV::Input(i as usize))
}

/// `n` zero coordinates.
pub open spec fn zero_coords(n: nat) -> Seq<u64> {
    Seq::new(n, |i: int| 0u64)
}

/// The stride found by probing the lowering: the first lowered coordinate at
/// the unit point of dimension `dim`, minus (wrapping) its value at the
/// origin; `None` when the lowering has no coordinates.
pub open spec fn probe_stride(e: ExprV, dim: int, vars: Map<Seq<char>, u64>) -> Option<u64> {
    let n = expr_source(e).len();
    let lowered = expr_lower(e, vars, input_scalars(n)).0;
    if lowered.len() == 0 {
        None
    } else {
        let c0 = zero_coords(n);
        let c1 = c0.update(dim, 1u64);
        Some(eval_scalar(lowered[0], c1).wrapping_sub(eval_scalar(lowered[0], c0)))
    }
}

/// Probing does not panic: the layout lowers, `dim` is a source dimension,
/// and the first lowered coordinate evaluates at both points.
pub open spec fn probe_ok(e: ExprV, dim: int, vars: Map<Seq<char>, u64>) -> bool {
    let n = expr_source(e).len();
    let lowered = expr_lower(e, vars, input_scalars(n)).0;
    &&& expr_source_ok(e)
    &&& expr_lower_ok(e, vars, input_scalars(n))
    &&& lowered.len() > 0 ==> {
        &&& 0 <= dim < n
        &&& eval_scalar_ok(lowered[0], zero_coords(n))
        &&& eval_scalar_ok(lowered[0], zero_coords(n).update(dim, 1u64))
    }
}

/// The offset stride of source dimension `dim`: 1 for an identity; the
/// product of the later extents for a linearization; through a leading
/// permutation, the stride of the permuted dimension in the rest; in a
/// product, the stride in the left part times the volume of the right
/// target, or the stride in the right part; otherwise found by probing the
/// lowering (see [`probe_stride`]).
pub open spec fn stride_of(e: ExprV, dim: int, vars: Map<Seq<char>, u64>) -> Option<u64>
    decreases e,
{
    match e {
        ExprV::Identity(_) => Some(1),
        ExprV::Linearize(s) => match stride_from(s, vars, dim + 1, 1) {
            Some(v) => Some(v as u64),
            None => None,
        },
        ExprV::Composition(l1, l2) => match *l1 {
            ExprV::Permute(_, p) => stride_of(*l2, p[dim] as int, vars),
            _ => probe_stride(e, dim, vars),
        },
        ExprV::Product(l1, l2) => {
            let n1 = expr_source(*l1).len() as int;
            if dim < n1 {
                match stride_of(*l1, dim, vars) {
                    None => None,
                    Some(s1) => match volume_value(expr_target(*l2), vars) {
                        None => None,
                        Some(v2) => Some((s1 * v2) as u64),
                    },
                }
            } else {
                stride_of(*l2, dim - n1, vars)
            }
        },
        _ => probe_stride(e, dim, vars),
    }
}

/// Finding the stride does not panic: indices are in range and products fit
/// in 64 bits (see [`stride_of`]).
pub open spec fn stride_ok(e: ExprV, dim: int, vars: Map<Seq<char>, u64>) -> bool
    decreases e,
{
    match e {
        ExprV::Identity(_) => true,
        ExprV::Linearize(s) => dim + 1 <= usize::MAX && stride_from_ok(s, vars, dim + 1, 1),
        ExprV::Composition(l1, l2) => match *l1 {
            ExprV::Permute(_, p) => 0 <= dim < p.len() && stride_ok(*l2, p[dim] as int, vars),
            _ => probe_ok(e, dim, vars),
        },
        ExprV::Product(l1, l2) => {
            let n1 = expr_source(*l1).len() as int;
            &&& expr_source_ok(*l1)
            &&& dim < n1 ==> {
                &&& stride_ok(*l1, dim, vars)
                &&& stride_of(*l1, dim, vars) is Some ==> {
                    &&& expr_target_ok(*l2)
                    &&& simplify_extent_ok(volume_of(expr_target(*l2)))
                    &&& volume_value(expr_target(*l2), vars) is Some ==> stride_of(*l1, dim, vars)->0
                        * volume_value(expr_target(*l2), vars)->0 <= u64::MAX
                }
            }
            &&& dim >= n1 ==> stride_ok(*l2, dim - n1, vars)
        },
        _ => probe_ok(e, dim, vars),
    }
}

/// The largest power of two that is at most `n` (1 when `n` is 0).
pub open spec fn floor_pow2(n: u64) -> u64
    decreases n,
{
    if n <= 1 {
        1
    } else {
        (2 * floor_pow2(n / 2)) as u64
    }
}

fn floor_pow2_exec(n: u64) -> (r: u64)
    ensures
        r == floor_pow2(n),
        r >= 1,
        n >= 1 ==> r <= n,
    decreases n,
{
    if n <= 1 {
        1
    } else {
        let h = floor_pow2_exec(n / 2);
        2 * h
    }
}

/// The widest power-of-two vector along the innermost source dimension: the
/// largest power of two within its extent (1 when it has no value) when its
/// stride is 1, else 1; 1 for a source with no dimensions.
pub open spec fn vector_width(e: ExprV, vars: Map<Seq<char>, u64>) -> u64 {
    let src = expr_source(e);
    if src.len() == 0 {
        1
    } else {
        let inner = src.len() - 1;
        let extent = match eval_extent(src[inner].extent, vars) {
            Some(v) => v,
            None => 1,
        };
        match stride_of(e, inner, vars) {
            Some(v) => if v == 1 {
                floor_pow2(extent)
            } else {
                1
            },
            None => 1,
        }
    }
}

/// Finding the vector width does not panic.
pub open spec fn vector_width_ok(e: ExprV, vars: Map<Seq<char>, u64>) -> bool {
    &&& expr_source_ok(e)
    &&& expr_source(e).len() > 0 ==> stride_ok(e, expr_source(e).len() - 1, vars)
}

fn input_scalars_exec(n: usize) -> (r: Vec<ScalarExpr>)
    ensures
        scalars_view(r@) == input_scalars(n as nat),
{
    let mut v: Vec<ScalarExpr> = Vec::new();
    let mut i: usize = 0;
    while i < n
        invariant
            i <= n,
            v.len() == i,
            scalars_view(v@) == input_scalars(n as nat).take(i as int),
        decreases n - i,
    {
        let e = ScalarExpr::Input(i);
        assert(e@ == ScalarV::Input(i));
        v.push(e);
        assert(scalars_view(v@)[i as int] == ScalarV::Input(i));
        i += 1;
        assert(scalars_view(v@) =~= input_scalars(n as nat).take(i as int));
    }
    assert(scalars_view(v@) =~= input_scalars(n as nat));
    v
}

fn zero_coords_exec(n: usize) -> (r: Vec<u64>)
    ensures
        r@ == zero_coords(n as nat),
{
    let mut v: Vec<u64> = Vec::new();
    let mut i: usize = 0;
    while i < n
        invariant
            i <= n,
            v@ == zero_coords(n as nat).take(i as int),
        decreases n - i,
    {
        v.push(0);
        i += 1;
        assert(v@ =~= zero_coords(n as nat).take(i as int));
    }
    assert(v@ =~= zero_coords(n as nat));
    v
}


/// The stride of dimension `dim_idx` of a linearization of `s`.
fn linear_stride(s: &Space, dim_idx: usize, valuation: &Valuation) -> (r: Option<u64>)
    requires
        dim_idx + 1 <= usize::MAX,
        stride_from_ok(s@, valuation@, dim_idx + 1, 1),
    ensures
        r == stride_of(ExprV::Linearize(s@), dim_idx as int, valuation@),
{
    let ghost vars = valuation@;
    let mut stride: u64 = 1;
    let mut i: usize = dim_idx + 1;
    while i < s.factors.len()
        invariant
            dim_idx + 1 <= i,
            vars == valuation@,
            stride_from(s@, vars, dim_idx + 1, 1) == stride_from(s@, vars, i as int, stride as int),
            stride_from_ok(s@, vars, i as int, stride as int),
        decreases s.factors.len() - i,
    {
        assert(s@[i as int] == s.factors[i as int]@);
        let v = match valuation.get_extent(&s.factors[i].extent) {
            Some(v) => v,
            None => {
                assert(stride_from(s@, vars, i as int, stride as int) is None);
                return None;
            },
        };
        stride = stride * v;
        i += 1;
    }
    Some(stride)
}

/// The stride of a dimension of the left part of a product.
fn product_stride(l1: &Expression, l2: &Expression, dim_idx: usize, valuation: &Valuation) -> (r: Option<u64>)
    requires
        expr_source_ok(l1@),
        dim_idx < expr_source(l1@).len(),
        stride_ok(ExprV::Product(Box::new(l1@), Box::new(l2@)), dim_idx as int, valuation@),
    ensures
        r == stride_of(ExprV::Product(Box::new(l1@), Box::new(l2@)), dim_idx as int, valuation@),
    decreases 1 + expr_size(l1@) + expr_size(l2@), 0int,
{
    let s1 = match l1.get_stride(dim_idx, valuation) {
        Some(v) => v,
        None => {
            return None;
        },
    };
    let v2 = match valuation.get_extent(&l2.target_space().volume_extent()) {
        Some(v) => v,
        None => {
            return None;
        },
    };
    Some(s1 * v2)
}

impl Expression {
    fn probe(&self, dim_idx: usize, valuation: &Valuation) -> (r: Option<u64>)
        requires
            probe_ok(self@, dim_idx as int, valuation@),
        ensures
            r == probe_stride(self@, dim_idx as int, valuation@),
    {
        let src = self.source_space();
        let inputs = input_scalars_exec(src.factors.len());
        let (lowered, _) = self.lower_exprs(valuation, inputs);
        if lowered.len() == 0 {
            return None;
        }
        let coords0 = zero_coords_exec(src.factors.len());
        let mut coords1 = zero_coords_exec(src.factors.len());
        coords1.set(dim_idx, 1);
        let v0 = lowered[0].eval(coords0.as_slice());
        let v1 = lowered[0].eval(coords1.as_slice());
        Some(v1.wrapping_sub(v0))
    }

    /// The offset stride of source dimension `dim_idx` (see [`stride_of`]).
    #[verifier::rlimit(50)]
    pub fn get_stride(&self, dim_idx: usize, valuation: &Valuation) -> (r: Option<u64>)
        requires
            stride_ok(self@, dim_idx as int, valuation@),
        ensures
            r == stride_of(self@, dim_idx as int, valuation@),
        decreases expr_size(self@), 1int,
    {
        let ghost vars = valuation@;
        match self {
            Expression::Identity(_) => Some(1),
            Expression::Linearize(s) => linear_stride(s, dim_idx, valuation),
            Expression::Composition(l1, l2) => {
                match &**l1 {
                    Expression::Permute(ps, p) => {
                        assert((**l1)@ == ExprV::Permute(ps@, p@));
                        let out_idx = p[dim_idx];
                        l2.get_stride(out_idx, valuation)
                    },
                    _ => self.probe(dim_idx, valuation),
                }
            },
            Expression::Product(l1, l2) => {
                let n1 = l1.source_space().factors.len();
                if dim_idx < n1 {
                    product_stride(l1, l2, dim_idx, valuation)
                } else {
                    l2.get_stride(dim_idx - n1, valuation)
                }
            },
            _ => self.probe(dim_idx, valuation),
        }
    }

    /// The widest power-of-two vector along the innermost source dimension
    /// (see [`vector_width`]).
    pub fn max_vector_width(&self, valuation: &Valuation) -> (r: u64)
        requires
            vector_width_ok(self@, valuation@),
        ensures
            r == vector_width(self@, valuation@),
    {
        let src = self.source_space();
        if src.factors.len() == 0 {
            return 1;
        }
        let inner_idx = src.factors.len() - 1;
        let stride = self.get_stride(inner_idx, valuation);
        assert(src@[inner_idx as int] == src.factors[inner_idx as int]@);
        let extent = match valuation.get_extent(&src.factors[inner_idx].extent) {
            Some(v) => v,
            None => 1,
        };
        match stride {
            Some(v) => if v == 1 {
                floor_pow2_exec(extent)
            } else {
                1
            },
            None => 1,
        }
    }
}


/// The domain of a layered form: the conjunction of the domains of its
/// layers, simplified.
pub open spec fn layered_domain(d1: ScalarV, d2: ScalarV, d3: ScalarV) -> ScalarV {
    simplify_scalar(and_of(d1, and_of(d2, d3)))
}

impl AsLayout for LayeredNormalForm {
    open spec fn source_ok(&self) -> bool {
        expr_source_ok(self.view@)
    }

    open spec fn source_spec(&self) -> SpaceV {
        expr_source(self.view@)
    }

    open spec fn target_ok(&self) -> bool {
        expr_target_ok(self.shadow@)
    }

    open spec fn target_spec(&self) -> SpaceV {
        expr_target(self.shadow@)
    }

    open spec fn apply_ok(&self, vars: Map<Seq<char>, u64>, input: Seq<u64>) -> bool {
        &&& expr_apply_ok(self.view@, vars, input)
        &&& match expr_apply(self.view@, vars, input) {
            None => true,
            Some(v) => {
                &&& expr_apply_ok(self.placement@, vars, v)
                &&& match expr_apply(self.placement@, vars, v) {
                    None => true,
                    Some(p) => expr_apply_ok(self.shadow@, vars, p),
                }
            },
        }
    }

    /// The view, then the placement, then the shadow.
    open spec fn apply_spec(&self, vars: Map<Seq<char>, u64>, input: Seq<u64>) -> Option<Seq<u64>> {
        match expr_apply(self.view@, vars, input) {
            None => None,
            Some(v) => match expr_apply(self.placement@, vars, v) {
                None => None,
                Some(p) => expr_apply(self.shadow@, vars, p),
            },
        }
    }

    open spec fn lower_ok(&self, vars: Map<Seq<char>, u64>, inputs: Seq<ScalarV>) -> bool {
        let lv = expr_lower(self.view@, vars, inputs);
        let lp = expr_lower(self.placement@, vars, lv.0);
        let ls = expr_lower(self.shadow@, vars, lp.0);
        &&& expr_lower_ok(self.view@, vars, inputs)
        &&& expr_lower_ok(self.placement@, vars, lv.0)
        &&& expr_lower_ok(self.shadow@, vars, lp.0)
        &&& simplify_scalar_ok(and_of(lv.1, and_of(lp.1, ls.1)))
    }

    /// The three layers lowered in turn; the domain is the conjunction of
    /// theirs (see [`layered_domain`]).
    open spec fn lower_spec(&self, vars: Map<Seq<char>, u64>, inputs: Seq<ScalarV>) -> (Seq<ScalarV>, ScalarV) {
        let lv = expr_lower(self.view@, vars, inputs);
        let lp = expr_lower(self.placement@, vars, lv.0);
        let ls = expr_lower(self.shadow@, vars, lp.0);
        (ls.0, layered_domain(lv.1, lp.1, ls.1))
    }

    fn source(&self) -> (r: Space) {
        self.view.source_space()
    }

    fn target(&self) -> (r: Space) {
        self.shadow.target_space()
    }

    fn apply(&self, valuation: &Valuation, input: &[u64]) -> (r: Option<Vec<u64>>) {
        let v = match self.view.map_point(valuation, input) {
            Some(v) => v,
            None => {
                return None;
            },
        };
        let p = match self.placement.map_point(valuation, v.as_slice()) {
            Some(p) => p,
            None => {
                return None;
            },
        };
        self.shadow.map_point(valuation, p.as_slice())
    }

    #[verifier::rlimit(80)]
    fn lower(&self, valuation: &Valuation, inputs: Vec<ScalarExpr>) -> (r: (Vec<ScalarExpr>, ScalarExpr)) {
        let (v, d1) = self.view.lower_exprs(valuation, inputs);
        let (p, d2) = self.placement.lower_exprs(valuation, v);
        let (s, d3) = self.shadow.lower_exprs(valuation, p);
        let both = mk_and(d1, mk_and(d2, d3));
        let domain = both.simplify();
        (s, domain)
    }
}

} // verus!
