//! Layout expressions: their values, copies, comparison, and their source
//! and target spaces.
use vstd::prelude::*;
use crate::space::{
    Space, SpaceV, Factor, FactorV, Kind, Extent, ExtentV, offset_kind, simplify_extent,
    simplify_extent_ok, volume_of, permuted, positions_below,
};
use crate::layout::scalar::{matrix_view, copy_matrix};

verus! {

/// A layout: a map from the points of its source space to the points of its
/// target space, built from primitive layouts by composition and product.
#[derive(Debug, PartialEq)]
pub enum Expression {
    Identity(Space),
    Linearize(Space),
    Delinearize(Space),
    Permute(Space, Vec<usize>),
    Composition(Box<Expression>, Box<Expression>),
    Product(Box<Expression>, Box<Expression>),
    Reshape(Space, Space),
    BinaryShadow(Space, Vec<Vec<u8>>),
    Slice(Space, Vec<(u64, u64)>),
    Broadcast(Space, Space),
    Pad(Space, Space, Vec<(u64, u64)>),
    Flip(Space, Vec<bool>),
    Split(Space, usize, u64),
    Join(Space, usize),
    Squeeze(Space, usize),
    Unsqueeze(Space, usize, Factor),
    Repeat(Space, Space),
}

/// The value of an [`Expression`].
pub enum ExprV {
    Identity(SpaceV),
    Linearize(SpaceV),
    Delinearize(SpaceV),
    Permute(SpaceV, Seq<usize>),
    Composition(Box<ExprV>, Box<ExprV>),
    Product(Box<ExprV>, Box<ExprV>),
    Reshape(SpaceV, SpaceV),
    BinaryShadow(SpaceV, Seq<Seq<u8>>),
    Slice(SpaceV, Seq<(u64, u64)>),
    Broadcast(SpaceV, SpaceV),
    Pad(SpaceV, SpaceV, Seq<(u64, u64)>),
    Flip(SpaceV, Seq<bool>),
    Split(SpaceV, usize, u64),
    Join(SpaceV, usize),
    Squeeze(SpaceV, usize),
    Unsqueeze(SpaceV, usize, FactorV),
    Repeat(SpaceV, SpaceV),
}

pub open spec fn expr_view(e: Expression) -> ExprV
    decreases e,
{
    match e {
        Expression::Identity(s) => ExprV::Identity(s@),
        Expression::Linearize(s) => ExprV::Linearize(s@),
        Expression::Delinearize(s) => ExprV::Delinearize(s@),
        Expression::Permute(s, p) => ExprV::Permute(s@, p@),
        Expression::Composition(a, b) => ExprV::Composition(
            Box::new(expr_view(*a)),
            Box::new(expr_view(*b)),
        ),
        Expression::Product(a, b) => ExprV::Product(Box::new(expr_view(*a)), Box::new(expr_view(*b))),
        Expression::Reshape(s, t) => ExprV::Reshape(s@, t@),
        Expression::BinaryShadow(s, m) => ExprV::BinaryShadow(s@, matrix_view(m)),
        Expression::Slice(s, r) => ExprV::Slice(s@, r@),
        Expression::Broadcast(s, t) => ExprV::Broadcast(s@, t@),
        Expression::Pad(s, t, p) => ExprV::Pad(s@, t@, p@),
        Expression::Flip(s, d) => ExprV::Flip(s@, d@),
        Expression::Split(s, i, n) => ExprV::Split(s@, i, n),
        Expression::Join(s, i) => ExprV::Join(s@, i),
        Expression::Squeeze(s, i) => ExprV::Squeeze(s@, i),
        Expression::Unsqueeze(s, i, f) => ExprV::Unsqueeze(s@, i, f@),
        Expression::Repeat(s, t) => ExprV::Repeat(s@, t@),
    }
}

impl View for Expression {
    type V = ExprV;

    open spec fn view(&self) -> ExprV {
        expr_view(*self)
    }
}

// ---------------------------------------------------------------------------
// Copies and comparison
// ---------------------------------------------------------------------------

pub fn copy_seq<T: Copy>(v: &Vec<T>) -> (r: Vec<T>)
    ensures
        r@ == v@,
{
    let mut out: Vec<T> = Vec::new();
    let mut i: usize = 0;
    while i < v.len()
        invariant
            i <= v.len(),
            out@ == v@.take(i as int),
        decreases v.len() - i,
    {
        out.push(v[i]);
        assert(v@.take(i as int + 1) =~= v@.take(i as int).push(v@[i as int]));
        i += 1;
    }
    assert(v@.take(v.len() as int) =~= v@);
    out
}

fn same_usizes(a: &Vec<usize>, b: &Vec<usize>) -> (r: bool)
    ensures
        r == (a@ == b@),
{
    if a.len() != b.len() {
        return false;
    }
    let mut i: usize = 0;
    while i < a.len()
        invariant
            i <= a.len(),
            a.len() == b.len(),
            forall|j: int| 0 <= j < i ==> a@[j] == b@[j],
        decreases a.len() - i,
    {
        if a[i] != b[i] {
            return false;
        }
        i += 1;
    }
    assert(a@ =~= b@);
    true
}

fn same_pairs(a: &Vec<(u64, u64)>, b: &Vec<(u64, u64)>) -> (r: bool)
    ensures
        r == (a@ == b@),
{
    if a.len() != b.len() {
        return false;
    }
    let mut i: usize = 0;
    while i < a.len()
        invariant
            i <= a.len(),
            a.len() == b.len(),
            forall|j: int| 0 <= j < i ==> a@[j] == b@[j],
        decreases a.len() - i,
    {
        if a[i].0 != b[i].0 || a[i].1 != b[i].1 {
            return false;
        }
        i += 1;
    }
    assert(a@ =~= b@);
    true
}

fn same_bools(a: &Vec<bool>, b: &Vec<bool>) -> (r: bool)
    ensures
        r == (a@ == b@),
{
    if a.len() != b.len() {
        return false;
    }
    let mut i: usize = 0;
    while i < a.len()
        invariant
            i <= a.len(),
            a.len() == b.len(),
            forall|j: int| 0 <= j < i ==> a@[j] == b@[j],
        decreases a.len() - i,
    {
        if a[i] != b[i] {
            return false;
        }
        i += 1;
    }
    assert(a@ =~= b@);
    true
}

fn same_bytes(a: &Vec<u8>, b: &Vec<u8>) -> (r: bool)
    ensures
        r == (a@ == b@),
{
    if a.len() != b.len() {
        return false;
    }
    let mut i: usize = 0;
    while i < a.len()
        invariant
            i <= a.len(),
            a.len() == b.len(),
            forall|j: int| 0 <= j < i ==> a@[j] == b@[j],
        decreases a.len() - i,
    {
        if a[i] != b[i] {
            return false;
        }
        i += 1;
    }
    assert(a@ =~= b@);
    true
}

/// Whether two bit matrices have the same rows.
pub fn same_matrix(a: &Vec<Vec<u8>>, b: &Vec<Vec<u8>>) -> (r: bool)
    ensures
        r == (matrix_view(*a) == matrix_view(*b)),
{
    if a.len() != b.len() {
        proof {
            if matrix_view(*a) == matrix_view(*b) {
                assert(matrix_view(*a).len() == matrix_view(*b).len());
            }
        }
        return false;
    }
    let mut i: usize = 0;
    while i < a.len()
        invariant
            i <= a.len(),
            a.len() == b.len(),
            forall|j: int| 0 <= j < i ==> a[j]@ == b[j]@,
        decreases a.len() - i,
    {
        if !same_bytes(&a[i], &b[i]) {
            proof {
                if matrix_view(*a) == matrix_view(*b) {
                    assert(matrix_view(*a)[i as int] == matrix_view(*b)[i as int]);
                }
            }
            return false;
        }
        i += 1;
    }
    assert(matrix_view(*a) =~= matrix_view(*b));
    true
}

impl Expression {
    /// A copy with the same value.
    pub fn duplicate(&self) -> (r: Expression)
        ensures
            r@ == self@,
        decreases self,
    {
        match self {
            Expression::Identity(s) => Expression::Identity(s.duplicate()),
            Expression::Linearize(s) => Expression::Linearize(s.duplicate()),
            Expression::Delinearize(s) => Expression::Delinearize(s.duplicate()),
            Expression::Permute(s, p) => Expression::Permute(s.duplicate(), copy_seq(p)),
            Expression::Composition(a, b) => Expression::Composition(
                Box::new((**a).duplicate()),
                Box::new((**b).duplicate()),
            ),
            Expression::Product(a, b) => Expression::Product(
                Box::new((**a).duplicate()),
                Box::new((**b).duplicate()),
            ),
            Expression::Reshape(s, t) => Expression::Reshape(s.duplicate(), t.duplicate()),
            Expression::BinaryShadow(s, m) => Expression::BinaryShadow(s.duplicate(), copy_matrix(m)),
            Expression::Slice(s, r) => Expression::Slice(s.duplicate(), copy_seq(r)),
            Expression::Broadcast(s, t) => Expression::Broadcast(s.duplicate(), t.duplicate()),
            Expression::Pad(s, t, p) => Expression::Pad(s.duplicate(), t.duplicate(), copy_seq(p)),
            Expression::Flip(s, d) => Expression::Flip(s.duplicate(), copy_seq(d)),
            Expression::Split(s, i, n) => Expression::Split(s.duplicate(), *i, *n),
            Expression::Join(s, i) => Expression::Join(s.duplicate(), *i),
            Expression::Squeeze(s, i) => Expression::Squeeze(s.duplicate(), *i),
            Expression::Unsqueeze(s, i, f) => Expression::Unsqueeze(s.duplicate(), *i, f.duplicate()),
            Expression::Repeat(s, t) => Expression::Repeat(s.duplicate(), t.duplicate()),
        }
    }

    /// Whether two layouts are the same expression.
    pub fn same_as(&self, other: &Expression) -> (r: bool)
        ensures
            r == (self@ == other@),
        decreases self,
    {
        match (self, other) {
            (Expression::Identity(a), Expression::Identity(b)) => a.same_as(b),
            (Expression::Linearize(a), Expression::Linearize(b)) => a.same_as(b),
            (Expression::Delinearize(a), Expression::Delinearize(b)) => a.same_as(b),
            (Expression::Permute(a, p), Expression::Permute(b, q)) => a.same_as(b) && same_usizes(p, q),
            (Expression::Composition(a1, b1), Expression::Composition(a2, b2)) => {
                (**a1).same_as(&**a2) && (**b1).same_as(&**b2)
            },
            (Expression::Product(a1, b1), Expression::Product(a2, b2)) => {
                (**a1).same_as(&**a2) && (**b1).same_as(&**b2)
            },
            (Expression::Reshape(a, b), Expression::Reshape(c, d)) => a.same_as(c) && b.same_as(d),
            (Expression::BinaryShadow(a, m), Expression::BinaryShadow(b, n)) => {
                a.same_as(b) && same_matrix(m, n)
            },
            (Expression::Slice(a, r), Expression::Slice(b, q)) => a.same_as(b) && same_pairs(r, q),
            (Expression::Broadcast(a, b), Expression::Broadcast(c, d)) => a.same_as(c) && b.same_as(d),
            (Expression::Pad(a, b, p), Expression::Pad(c, d, q)) => {
                a.same_as(c) && b.same_as(d) && same_pairs(p, q)
            },
            (Expression::Flip(a, p), Expression::Flip(b, q)) => a.same_as(b) && same_bools(p, q),
            (Expression::Split(a, i, n), Expression::Split(b, j, m)) => {
                a.same_as(b) && *i == *j && *n == *m
            },
            (Expression::Join(a, i), Expression::Join(b, j)) => a.same_as(b) && *i == *j,
            (Expression::Squeeze(a, i), Expression::Squeeze(b, j)) => a.same_as(b) && *i == *j,
            (Expression::Unsqueeze(a, i, f), Expression::Unsqueeze(b, j, g)) => {
                a.same_as(b) && *i == *j && f.same_as(g)
            },
            (Expression::Repeat(a, b), Expression::Repeat(c, d)) => a.same_as(c) && b.same_as(d),
            _ => false,
        }
    }
}

impl Clone for Expression {
    fn clone(&self) -> (r: Expression)
        ensures
            r@ == self@,
    {
        self.duplicate()
    }
}

// ---------------------------------------------------------------------------
// Source and target spaces
// ---------------------------------------------------------------------------

/// The one-factor space `Other("Offset")` whose extent is the simplified
/// volume of `s`: the space of row-major offsets into `s`.
pub open spec fn offset_space(s: SpaceV) -> SpaceV {
    seq![FactorV { kind: offset_kind(), extent: simplify_extent(volume_of(s)), tag: None }]
}

/// The source space of a layout.
pub open spec fn expr_source(e: ExprV) -> SpaceV
    decreases e,
{
    match e {
        ExprV::Identity(s) => s,
        ExprV::Linearize(s) => s,
        ExprV::Permute(s, _) => s,
        ExprV::Reshape(s, _) => s,
        ExprV::BinaryShadow(s, _) => s,
        ExprV::Slice(s, _) => s,
        ExprV::Broadcast(s, _) => s,
        ExprV::Pad(s, _, _) => s,
        ExprV::Flip(s, _) => s,
        ExprV::Split(s, _, _) => s,
        ExprV::Join(s, _) => s,
        ExprV::Squeeze(s, _) => s,
        ExprV::Unsqueeze(s, _, _) => s,
        ExprV::Repeat(s, _) => s,
        ExprV::Delinearize(t) => offset_space(t),
        ExprV::Composition(l1, _) => expr_source(*l1),
        ExprV::Product(l1, l2) => expr_source(*l1) + expr_source(*l2),
    }
}

/// Computing the source does not panic: the volumes it simplifies fold
/// without overflow.
pub open spec fn expr_source_ok(e: ExprV) -> bool
    decreases e,
{
    match e {
        ExprV::Delinearize(t) => simplify_extent_ok(volume_of(t)),
        ExprV::Composition(l1, _) => expr_source_ok(*l1),
        ExprV::Product(l1, l2) => expr_source_ok(*l1) && expr_source_ok(*l2),
        _ => true,
    }
}

/// The sliced space: the extent of factor `i` becomes `end - start` of range `i`.
pub open spec fn sliced(s: SpaceV, ranges: Seq<(u64, u64)>) -> SpaceV {
    Seq::new(
        s.len(),
        |i: int|
            FactorV {
                kind: s[i].kind,
                extent: ExtentV::Constant((ranges[i].1 - ranges[i].0) as u64),
                tag: s[i].tag,
            },
    )
}

/// The space with factor `idx` split into an outer extent `n / n1` and an
/// inner extent `n1`, where `n` is its constant extent (1 when the extent is
/// not a constant): the split map sends `v` to `(v / n1, v % n1)`.
pub open spec fn split_space(s: SpaceV, idx: int, n1: u64) -> SpaceV {
    let f = s[idx];
    let n_total: u64 = match f.extent {
        ExtentV::Constant(v) => v,
        _ => 1,
    };
    s.remove(idx).insert(
        idx,
        FactorV { kind: f.kind, extent: ExtentV::Constant((n_total / n1) as u64), tag: f.tag },
    ).insert(idx + 1, FactorV { kind: f.kind, extent: ExtentV::Constant(n1), tag: f.tag })
}

/// The space with factors `idx` and `idx + 1` joined into one whose extent is
/// the product of theirs (kind and tag of the first).
pub open spec fn join_space(s: SpaceV, idx: int) -> SpaceV {
    let f1 = s[idx];
    let f2 = s[idx + 1];
    s.remove(idx).remove(idx).insert(
        idx,
        FactorV { kind: f1.kind, extent: ExtentV::Product(seq![f1.extent, f2.extent]), tag: f1.tag },
    )
}

/// The target space of a layout.
pub open spec fn expr_target(e: ExprV) -> SpaceV
    decreases e,
{
    match e {
        ExprV::Identity(s) => s,
        ExprV::Delinearize(s) => s,
        ExprV::Flip(s, _) => s,
        ExprV::BinaryShadow(s, _) => s,
        ExprV::Repeat(_, s) => s,
        ExprV::Linearize(s) => offset_space(s),
        ExprV::Permute(s, p) => permuted(s, p),
        ExprV::Composition(_, l2) => expr_target(*l2),
        ExprV::Product(l1, l2) => expr_target(*l1) + expr_target(*l2),
        ExprV::Reshape(_, t) => t,
        ExprV::Broadcast(_, t) => t,
        ExprV::Pad(_, t, _) => t,
        ExprV::Slice(s, ranges) => sliced(s, ranges),
        ExprV::Split(s, idx, n1) => split_space(s, idx as int, n1),
        ExprV::Join(s, idx) => join_space(s, idx as int),
        ExprV::Squeeze(s, idx) => s.remove(idx as int),
        ExprV::Unsqueeze(s, idx, f) => s.insert(idx as int, f),
    }
}

/// Computing the target does not panic: permutation positions and dimension
/// indices are in range, slice ranges cover the space and do not end before
/// they start, split sizes are nonzero, and simplified volumes fold.
pub open spec fn expr_target_ok(e: ExprV) -> bool
    decreases e,
{
    match e {
        ExprV::Linearize(s) => simplify_extent_ok(volume_of(s)),
        ExprV::Permute(s, p) => p.len() <= s.len() && positions_below(p, s.len() as int),
        ExprV::Composition(_, l2) => expr_target_ok(*l2),
        ExprV::Product(l1, l2) => expr_target_ok(*l1) && expr_target_ok(*l2),
        ExprV::Slice(s, ranges) => ranges.len() >= s.len() && forall|i: int|
            0 <= i < s.len() ==> (#[trigger] ranges[i]).0 <= ranges[i].1,
        ExprV::Split(s, idx, n1) => idx < s.len() && n1 != 0,
        ExprV::Join(s, idx) => idx + 1 < s.len(),
        ExprV::Squeeze(s, idx) => idx < s.len(),
        ExprV::Unsqueeze(s, idx, _) => idx <= s.len(),
        _ => true,
    }
}

/// The space of offsets into `s`.
pub fn offset_space_of(s: &Space) -> (r: Space)
    requires
        simplify_extent_ok(volume_of(s@)),
    ensures
        r@ == offset_space(s@),
{
    let f = Factor::new(Kind::offset_label(), s.volume_extent(), None);
    let mut v: Vec<Factor> = Vec::new();
    v.push(f);
    let r = Space::new(v);
    assert(r@ =~= offset_space(s@));
    r
}

fn space_without(s: &Space, idx: usize) -> (r: Space)
    requires
        idx < s@.len(),
    ensures
        r@ == s@.remove(idx as int),
{
    let mut r = s.duplicate();
    let ghost before = r@;
    let _ = r.factors.remove(idx);
    assert(r@ =~= before.remove(idx as int));
    r
}

fn space_with(s: Space, idx: usize, f: Factor) -> (r: Space)
    requires
        idx <= s@.len(),
    ensures
        r@ == s@.insert(idx as int, f@),
{
    let mut r = s;
    let ghost before = r@;
    r.factors.insert(idx, f);
    assert(r@ =~= before.insert(idx as int, f@));
    r
}

impl Expression {
    /// The source space (see [`expr_source`]).
    pub fn source_space(&self) -> (r: Space)
        requires
            expr_source_ok(self@),
        ensures
            r@ == expr_source(self@),
        decreases self,
    {
        match self {
            Expression::Identity(s) => s.duplicate(),
            Expression::Linearize(s) => s.duplicate(),
            Expression::Permute(s, _) => s.duplicate(),
            Expression::Reshape(s, _) => s.duplicate(),
            Expression::BinaryShadow(s, _) => s.duplicate(),
            Expression::Slice(s, _) => s.duplicate(),
            Expression::Broadcast(s, _) => s.duplicate(),
            Expression::Pad(s, _, _) => s.duplicate(),
            Expression::Flip(s, _) => s.duplicate(),
            Expression::Split(s, _, _) => s.duplicate(),
            Expression::Join(s, _) => s.duplicate(),
            Expression::Squeeze(s, _) => s.duplicate(),
            Expression::Unsqueeze(s, _, _) => s.duplicate(),
            Expression::Repeat(s, _) => s.duplicate(),
            Expression::Delinearize(t) => offset_space_of(t),
            Expression::Composition(l1, _) => l1.source_space(),
            Expression::Product(l1, l2) => l1.source_space().product(&l2.source_space()),
        }
    }

    /// The target space (see [`expr_target`]).
    pub fn target_space(&self) -> (r: Space)
        requires
            expr_target_ok(self@),
        ensures
            r@ == expr_target(self@),
        decreases self,
    {
        match self {
            Expression::Identity(s) => s.duplicate(),
            Expression::Delinearize(s) => s.duplicate(),
            Expression::Flip(s, _) => s.duplicate(),
            Expression::BinaryShadow(s, _) => s.duplicate(),
            Expression::Repeat(_, s) => s.duplicate(),
            Expression::Linearize(s) => offset_space_of(s),
            Expression::Permute(s, p) => s.permute(p.as_slice()),
            Expression::Composition(_, l2) => l2.target_space(),
            Expression::Product(l1, l2) => l1.target_space().product(&l2.target_space()),
            Expression::Reshape(_, t) => t.duplicate(),
            Expression::Broadcast(_, t) => t.duplicate(),
            Expression::Pad(_, t, _) => t.duplicate(),
            Expression::Slice(s, ranges) => {
                let mut factors: Vec<Factor> = Vec::new();
                let mut i: usize = 0;
                while i < s.factors.len()
                    invariant
                        i <= s.factors.len(),
                        ranges@.len() >= s@.len(),
                        forall|j: int| 0 <= j < s@.len() ==> (#[trigger] ranges@[j]).0 <= ranges@[j].1,
                        factors.len() == i,
                        forall|j: int| 0 <= j < i ==> (#[trigger] factors[j])@ == sliced(s@, ranges@)[j],
                    decreases s.factors.len() - i,
                {
                    let (start, end) = ranges[i];
                    assert(ranges@[i as int].0 <= ranges@[i as int].1);
                    factors.push(
                        Factor::new(
                            s.factors[i].kind.duplicate(),
                            Extent::Constant(end - start),
                            match &s.factors[i].tag.0 {
                                Some(t) => Some(t.clone()),
                                None => None,
                            },
                        ),
                    );
                    i += 1;
                }
                let r = Space::new(factors);
                assert(r@ =~= sliced(s@, ranges@));
                r
            },
            Expression::Split(s, idx, n1) => {
                let f = &s.factors[*idx];
                let n_total = match &f.extent {
                    Extent::Constant(v) => *v,
                    _ => 1,
                };
                let rest = space_without(s, *idx);
                let a = Factor::new(f.kind.duplicate(), Extent::Constant(n_total / *n1), match &f.tag.0 {
                    Some(t) => Some(t.clone()),
                    None => None,
                });
                let b = Factor::new(f.kind.duplicate(), Extent::Constant(*n1), match &f.tag.0 {
                    Some(t) => Some(t.clone()),
                    None => None,
                });
                let with_a = space_with(rest, *idx, a);
                space_with(with_a, *idx + 1, b)
            },
            Expression::Join(s, idx) => {
                let f1 = &s.factors[*idx];
                let f2 = &s.factors[*idx + 1];
                let mut parts: Vec<Extent> = Vec::new();
                parts.push(f1.extent.duplicate());
                parts.push(f2.extent.duplicate());
                let joined = Factor::new(f1.kind.duplicate(), Extent::Product(parts), match &f1.tag.0 {
                    Some(t) => Some(t.clone()),
                    None => None,
                });
                proof {
                    assert(joined.extent@->Product_0 =~= seq![f1.extent@, f2.extent@]);
                }
                let rest = space_without(s, *idx);
                let rest2 = space_without(&rest, *idx);
                let r = space_with(rest2, *idx, joined);
                r
            },
            Expression::Squeeze(s, idx) => space_without(s, *idx),
            Expression::Unsqueeze(s, idx, f) => space_with(s.duplicate(), *idx, f.duplicate()),
        }
    }
}

} // verus!
