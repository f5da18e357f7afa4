//! Lowering a layout to index arithmetic: one scalar expression per target
//! coordinate, and one for the domain on which the layout is defined.
use vstd::prelude::*;
use crate::space::{Space, SpaceV, Valuation, eval_extent, scatter, volume_of, simplify_extent};
use crate::layout::scalar::{
    ScalarExpr, ScalarV, matrix_view, copy_matrix, simplify_scalar, simplify_scalar_ok,
};
use crate::layout::expr::{Expression, ExprV, expr_source, expr_source_ok, offset_space};

verus! {

/// The values of a sequence of scalar expressions.
pub open spec fn scalars_view(v: Seq<ScalarExpr>) -> Seq<ScalarV> {
    Seq::new(v.len(), |i: int| v[i]@)
}

pub open spec fn sc(c: u64) -> ScalarV {
    ScalarV::Constant(c)
}

pub open spec fn and_of(a: ScalarV, b: ScalarV) -> ScalarV {
    ScalarV::And(Box::new(a), Box::new(b))
}

pub open spec fn lt_of(a: ScalarV, b: ScalarV) -> ScalarV {
    ScalarV::Lt(Box::new(a), Box::new(b))
}

pub open spec fn add_of(a: ScalarV, b: ScalarV) -> ScalarV {
    ScalarV::Add(Box::new(a), Box::new(b))
}

pub open spec fn mul_of(a: ScalarV, b: ScalarV) -> ScalarV {
    ScalarV::Mul(Box::new(a), Box::new(b))
}

pub open spec fn div_of(a: ScalarV, b: ScalarV) -> ScalarV {
    ScalarV::Div(Box::new(a), Box::new(b))
}

pub open spec fn mod_of(a: ScalarV, b: ScalarV) -> ScalarV {
    ScalarV::Mod(Box::new(a), Box::new(b))
}

/// The extent of factor `i` of `s`, or 1 when it has no value.
pub open spec fn ext_or_one(s: SpaceV, vars: Map<Seq<char>, u64>, i: int) -> u64 {
    match eval_extent(s[i].extent, vars) {
        Some(v) => v,
        None => 1,
    }
}

/// The bounds check `inputs[i] < extent_i` for the first `k` factors of `src`
/// whose extent has a value, as a conjunction starting from 1.
pub open spec fn domain_of(src: SpaceV, vars: Map<Seq<char>, u64>, ins: Seq<ScalarV>, k: int) -> ScalarV
    decreases k,
{
    if k <= 0 {
        sc(1)
    } else {
        match eval_extent(src[k - 1].extent, vars) {
            Some(ext) => and_of(domain_of(src, vars, ins, k - 1), lt_of(ins[k - 1], sc(ext))),
            None => domain_of(src, vars, ins, k - 1),
        }
    }
}

/// The unsimplified row-major offset expression of the coordinates `i..` of
/// `ins`, and the stride after them: `sum_k ins[k] * stride_k` added from the
/// last coordinate on.
pub open spec fn lin_fold(s: SpaceV, vars: Map<Seq<char>, u64>, ins: Seq<ScalarV>, i: int) -> (ScalarV, nat)
    decreases s.len() - i,
{
    if i >= s.len() || i < 0 {
        (sc(0), 1)
    } else {
        let (off, st) = lin_fold(s, vars, ins, i + 1);
        (add_of(off, mul_of(ins[i], sc(st as u64))), (st * ext_or_one(s, vars, i)) as nat)
    }
}

/// No stride of the offset expression leaves 64 bits.
pub open spec fn lin_strides_fit(s: SpaceV, vars: Map<Seq<char>, u64>, ins: Seq<ScalarV>) -> bool {
    forall|i: int| 0 <= i <= s.len() ==> #[trigger] lin_fold(s, vars, ins, i).1 <= u64::MAX
}

/// The lowering of `Linearize(s)`: the simplified offset expression and the domain.
pub open spec fn lower_lin(s: SpaceV, vars: Map<Seq<char>, u64>, ins: Seq<ScalarV>) -> (Seq<ScalarV>, ScalarV) {
    if ins.len() != s.len() {
        (seq![], sc(0))
    } else {
        (seq![simplify_scalar(lin_fold(s, vars, ins, 0).0)], domain_of(s, vars, ins, s.len() as int))
    }
}

pub open spec fn lower_lin_ok(s: SpaceV, vars: Map<Seq<char>, u64>, ins: Seq<ScalarV>) -> bool {
    ins.len() == s.len() ==> {
        &&& lin_strides_fit(s, vars, ins)
        &&& simplify_scalar_ok(lin_fold(s, vars, ins, 0).0)
    }
}

/// The quotient expression left after taking the digits `i..` of `x`.
pub open spec fn delin_off(s: SpaceV, vars: Map<Seq<char>, u64>, x: ScalarV, i: int) -> ScalarV
    decreases s.len() - i,
{
    if i >= s.len() || i < 0 {
        x
    } else {
        simplify_scalar(div_of(delin_off(s, vars, x, i + 1), sc(ext_or_one(s, vars, i))))
    }
}

/// The lowering of `Delinearize(s)`: digit `i` is the remainder of the quotient
/// left by the digits after it; the domain also bounds the offset by the volume.
pub open spec fn lower_delin(s: SpaceV, vars: Map<Seq<char>, u64>, ins: Seq<ScalarV>) -> (Seq<ScalarV>, ScalarV) {
    let src = offset_space(s);
    if ins.len() != 1 {
        (seq![], sc(0))
    } else {
        let d = domain_of(src, vars, ins, 1);
        let outs = Seq::new(
            s.len(),
            |i: int| simplify_scalar(mod_of(delin_off(s, vars, ins[0], i + 1), sc(ext_or_one(s, vars, i)))),
        );
        match eval_extent(simplify_extent(volume_of(s)), vars) {
            Some(vol) => (outs, and_of(d, lt_of(ins[0], sc(vol)))),
            None => (outs, d),
        }
    }
}

pub open spec fn lower_delin_ok(s: SpaceV, vars: Map<Seq<char>, u64>, ins: Seq<ScalarV>) -> bool {
    ins.len() == 1 ==> forall|i: int|
        0 <= i < s.len() ==> {
            &&& simplify_scalar_ok(mod_of(#[trigger] delin_off(s, vars, ins[0], i + 1), sc(ext_or_one(s, vars, i))))
            &&& simplify_scalar_ok(div_of(delin_off(s, vars, ins[0], i + 1), sc(ext_or_one(s, vars, i))))
        }
}

/// The lower bound check `start <= c` of a slice: `start - 1 < c`, or the
/// constant 1 when `start` is 0.
pub open spec fn slice_lower(c: ScalarV, start: u64) -> ScalarV {
    if start > 0 {
        lt_of(sc((start - 1) as u64), c)
    } else {
        sc(1)
    }
}

/// The slice bound check of coordinate `c` in `[start, end)`, written as
/// `1 && start <= c && c < end` (see [`slice_lower`]).
pub open spec fn in_slice(c: ScalarV, start: u64, end: u64) -> ScalarV {
    and_of(and_of(sc(1), slice_lower(c, start)), lt_of(c, sc(end)))
}

pub open spec fn slice_domain(d: ScalarV, ins: Seq<ScalarV>, ranges: Seq<(u64, u64)>, k: int) -> ScalarV
    decreases k,
{
    if k <= 0 {
        d
    } else {
        and_of(slice_domain(d, ins, ranges, k - 1), in_slice(ins[k - 1], ranges[k - 1].0, ranges[k - 1].1))
    }
}

/// The shift of a slice coordinate: `c + (0 - start)` modulo 2^64, simplified.
pub open spec fn slice_shift(c: ScalarV, start: u64) -> ScalarV {
    simplify_scalar(add_of(c, sc((0u64).wrapping_sub(start))))
}

/// The flipped coordinate `(n - 1) + (2^64 - 1) * c` (that is `n - 1 - c`
/// modulo 2^64), simplified.
pub open spec fn flip_expr(c: ScalarV, n: u64) -> ScalarV {
    simplify_scalar(add_of(sc((n - 1) as u64), mul_of(sc(u64::MAX), c)))
}

pub open spec fn lower_permute_spec(s: SpaceV, p: Seq<usize>, ins: Seq<ScalarV>) -> Seq<ScalarV> {
    scatter(
        Seq::new(s.len(), |i: int| sc(0)),
        ins,
        p,
        if p.len() <= ins.len() { p.len() as int } else { ins.len() as int },
    )
}

pub open spec fn lower_split_spec(idx: int, n1: u64, ins: Seq<ScalarV>) -> Seq<ScalarV> {
    let v = ins[idx];
    ins.remove(idx).insert(idx, simplify_scalar(div_of(v, sc(n1)))).insert(
        idx + 1,
        simplify_scalar(mod_of(v, sc(n1))),
    )
}

pub open spec fn lower_join_spec(n2: u64, idx: int, ins: Seq<ScalarV>) -> Seq<ScalarV> {
    ins.remove(idx).remove(idx).insert(idx, simplify_scalar(add_of(mul_of(ins[idx], sc(n2)), ins[idx + 1])))
}

pub open spec fn lower_repeat_spec(s: SpaceV, t: SpaceV, vars: Map<Seq<char>, u64>, ins: Seq<ScalarV>) -> Seq<ScalarV> {
    Seq::new(
        ins.len(),
        |i: int|
            if ext_or_one(t, vars, i) < ext_or_one(s, vars, i) {
                simplify_scalar(mod_of(ins[i], sc(ext_or_one(t, vars, i))))
            } else {
                ins[i]
            },
    )
}

pub open spec fn lower_broadcast_spec(s: SpaceV, t: SpaceV, vars: Map<Seq<char>, u64>, ins: Seq<ScalarV>) -> Seq<ScalarV> {
    Seq::new(
        ins.len(),
        |i: int|
            if ext_or_one(s, vars, i) > 1 && ext_or_one(t, vars, i) == 1 {
                sc(0)
            } else {
                ins[i]
            },
    )
}

pub open spec fn lower_pad_spec(padding: Seq<(u64, u64)>, ins: Seq<ScalarV>) -> Seq<ScalarV> {
    Seq::new(ins.len(), |i: int| simplify_scalar(add_of(ins[i], sc(padding[i].0))))
}

pub open spec fn lower_flip_spec(s: SpaceV, dims: Seq<bool>, vars: Map<Seq<char>, u64>, ins: Seq<ScalarV>) -> Seq<ScalarV> {
    Seq::new(
        ins.len(),
        |i: int|
            if dims[i] {
                flip_expr(ins[i], ext_or_one(s, vars, i))
            } else {
                ins[i]
            },
    )
}

pub open spec fn lower_slice_spec(ranges: Seq<(u64, u64)>, domain: ScalarV, ins: Seq<ScalarV>) -> (Seq<ScalarV>, ScalarV) {
    (
        Seq::new(ins.len(), |i: int| slice_shift(ins[i], ranges[i].0)),
        simplify_scalar(slice_domain(domain, ins, ranges, ins.len() as int)),
    )
}

pub open spec fn lower_reshape_spec(s: SpaceV, t: SpaceV, vars: Map<Seq<char>, u64>, ins: Seq<ScalarV>) -> (Seq<ScalarV>, ScalarV) {
    let (lin, d1) = lower_lin(s, vars, ins);
    let (out, d2) = lower_delin(t, vars, lin);
    (out, simplify_scalar(and_of(d1, d2)))
}

pub open spec fn shadow_offset(s: SpaceV, m: Seq<Seq<u8>>, vars: Map<Seq<char>, u64>, ins: Seq<ScalarV>) -> Seq<ScalarV> {
    seq![ScalarV::BitLinear(Box::new(lower_lin(s, vars, ins).0[0]), m)]
}

pub open spec fn lower_shadow_spec(s: SpaceV, m: Seq<Seq<u8>>, vars: Map<Seq<char>, u64>, ins: Seq<ScalarV>) -> (Seq<ScalarV>, ScalarV) {
    let (out, d2) = lower_delin(s, vars, shadow_offset(s, m, vars, ins));
    (out, simplify_scalar(and_of(lower_lin(s, vars, ins).1, d2)))
}

/// The lowering of a layout applied to the coordinate expressions `ins`: the
/// target coordinate expressions and the domain condition (1 where defined).
/// When `ins` does not match the source rank the result is `([], 0)`.
pub open spec fn expr_lower(e: ExprV, vars: Map<Seq<char>, u64>, ins: Seq<ScalarV>) -> (Seq<ScalarV>, ScalarV)
    decreases e,
{
    let src = expr_source(e);
    if ins.len() != src.len() {
        (seq![], sc(0))
    } else {
        let domain = domain_of(src, vars, ins, src.len() as int);
        match e {
            ExprV::Identity(_) => (ins, domain),
            ExprV::Linearize(s) => lower_lin(s, vars, ins),
            ExprV::Delinearize(s) => lower_delin(s, vars, ins),
            ExprV::Permute(s, p) => (lower_permute_spec(s, p, ins), domain),
            ExprV::Composition(l1, l2) => {
                let mid = expr_lower(*l1, vars, ins);
                let out = expr_lower(*l2, vars, mid.0);
                (out.0, simplify_scalar(and_of(mid.1, out.1)))
            },
            ExprV::Product(l1, l2) => {
                let n1 = expr_source(*l1).len() as int;
                let a = expr_lower(*l1, vars, ins.take(n1));
                let b = expr_lower(*l2, vars, ins.skip(n1));
                (a.0 + b.0, simplify_scalar(and_of(a.1, b.1)))
            },
            ExprV::Reshape(s, t) => lower_reshape_spec(s, t, vars, ins),
            ExprV::BinaryShadow(s, m) => lower_shadow_spec(s, m, vars, ins),
            ExprV::Split(_, idx, n1) => (lower_split_spec(idx as int, n1, ins), domain),
            ExprV::Join(s, idx) => (lower_join_spec(ext_or_one(s, vars, idx + 1), idx as int, ins), domain),
            ExprV::Squeeze(_, idx) => (ins.remove(idx as int), domain),
            ExprV::Unsqueeze(_, idx, _) => (ins.insert(idx as int, sc(0)), domain),
            ExprV::Repeat(s, t) => (lower_repeat_spec(s, t, vars, ins), domain),
            ExprV::Slice(_, ranges) => lower_slice_spec(ranges, domain, ins),
            ExprV::Broadcast(s, t) => (lower_broadcast_spec(s, t, vars, ins), domain),
            ExprV::Pad(_, _, padding) => (lower_pad_spec(padding, ins), domain),
            ExprV::Flip(s, dims) => (lower_flip_spec(s, dims, vars, ins), domain),
        }
    }
}

pub open spec fn lower_permute_ok(s: SpaceV, p: Seq<usize>, ins: Seq<ScalarV>) -> bool {
    forall|i: int| 0 <= i < p.len() && i < ins.len() ==> #[trigger] p[i] < s.len()
}

pub open spec fn lower_reshape_ok(s: SpaceV, t: SpaceV, vars: Map<Seq<char>, u64>, ins: Seq<ScalarV>) -> bool {
    let (lin, d1) = lower_lin(s, vars, ins);
    let (out, d2) = lower_delin(t, vars, lin);
    &&& lower_lin_ok(s, vars, ins)
    &&& simplify_extent_ok_of(t)
    &&& lower_delin_ok(t, vars, lin)
    &&& simplify_scalar_ok(and_of(d1, d2))
}

pub open spec fn lower_shadow_ok(s: SpaceV, m: Seq<Seq<u8>>, vars: Map<Seq<char>, u64>, ins: Seq<ScalarV>) -> bool {
    let bl = shadow_offset(s, m, vars, ins);
    &&& lower_lin_ok(s, vars, ins)
    &&& simplify_extent_ok_of(s)
    &&& lower_delin_ok(s, vars, bl)
    &&& simplify_scalar_ok(and_of(lower_lin(s, vars, ins).1, lower_delin(s, vars, bl).1))
}

pub open spec fn lower_split_ok(idx: int, n1: u64, ins: Seq<ScalarV>) -> bool {
    &&& idx < ins.len()
    &&& simplify_scalar_ok(div_of(ins[idx], sc(n1)))
    &&& simplify_scalar_ok(mod_of(ins[idx], sc(n1)))
}

pub open spec fn lower_join_ok(n2: u64, idx: int, ins: Seq<ScalarV>) -> bool {
    &&& idx + 1 < ins.len()
    &&& simplify_scalar_ok(add_of(mul_of(ins[idx], sc(n2)), ins[idx + 1]))
}

pub open spec fn lower_repeat_ok(s: SpaceV, t: SpaceV, vars: Map<Seq<char>, u64>, ins: Seq<ScalarV>) -> bool {
    &&& t.len() >= ins.len()
    &&& forall|i: int|
        0 <= i < ins.len() && ext_or_one(t, vars, i) < ext_or_one(s, vars, i)
            ==> simplify_scalar_ok(mod_of(#[trigger] ins[i], sc(ext_or_one(t, vars, i))))
}

pub open spec fn lower_slice_ok(ranges: Seq<(u64, u64)>, domain: ScalarV, ins: Seq<ScalarV>) -> bool {
    &&& ranges.len() >= ins.len()
    &&& forall|i: int|
        0 <= i < ins.len() ==> simplify_scalar_ok(add_of(#[trigger] ins[i], sc((0u64).wrapping_sub(ranges[i].0))))
    &&& simplify_scalar_ok(slice_domain(domain, ins, ranges, ins.len() as int))
}

pub open spec fn lower_pad_ok(padding: Seq<(u64, u64)>, ins: Seq<ScalarV>) -> bool {
    &&& padding.len() >= ins.len()
    &&& forall|i: int| 0 <= i < ins.len() ==> simplify_scalar_ok(add_of(#[trigger] ins[i], sc(padding[i].0)))
}

pub open spec fn lower_flip_ok(s: SpaceV, dims: Seq<bool>, vars: Map<Seq<char>, u64>, ins: Seq<ScalarV>) -> bool {
    &&& dims.len() >= ins.len()
    &&& forall|i: int|
        0 <= i < ins.len() && dims[i] ==> ext_or_one(s, vars, i) >= 1 && simplify_scalar_ok(
            add_of(sc((ext_or_one(s, vars, i) - 1) as u64), mul_of(sc(u64::MAX), #[trigger] ins[i])),
        )
}

/// Lowering does not panic: the source spaces can be computed, every index
/// is in range, strides and folded constants fit in 64 bits, and every
/// simplification it performs is free of overflow.
pub open spec fn expr_lower_ok(e: ExprV, vars: Map<Seq<char>, u64>, ins: Seq<ScalarV>) -> bool
    decreases e,
{
    let src = expr_source(e);
    &&& expr_source_ok(e)
    &&& (ins.len() == src.len() ==> match e {
        ExprV::Linearize(s) => lower_lin_ok(s, vars, ins),
        ExprV::Delinearize(s) => lower_delin_ok(s, vars, ins),
        ExprV::Permute(s, p) => lower_permute_ok(s, p, ins),
        ExprV::Composition(l1, l2) => {
            let mid = expr_lower(*l1, vars, ins);
            &&& expr_lower_ok(*l1, vars, ins)
            &&& expr_lower_ok(*l2, vars, mid.0)
            &&& simplify_scalar_ok(and_of(mid.1, expr_lower(*l2, vars, mid.0).1))
        },
        ExprV::Product(l1, l2) => {
            let n1 = expr_source(*l1).len() as int;
            &&& expr_lower_ok(*l1, vars, ins.take(n1))
            &&& expr_lower_ok(*l2, vars, ins.skip(n1))
            &&& simplify_scalar_ok(
                and_of(expr_lower(*l1, vars, ins.take(n1)).1, expr_lower(*l2, vars, ins.skip(n1)).1),
            )
        },
        ExprV::Reshape(s, t) => lower_reshape_ok(s, t, vars, ins),
        ExprV::BinaryShadow(s, m) => lower_shadow_ok(s, m, vars, ins),
        ExprV::Split(_, idx, n1) => lower_split_ok(idx as int, n1, ins),
        ExprV::Join(s, idx) => lower_join_ok(ext_or_one(s, vars, idx + 1), idx as int, ins),
        ExprV::Squeeze(_, idx) => idx < ins.len(),
        ExprV::Unsqueeze(_, idx, _) => idx <= ins.len(),
        ExprV::Repeat(s, t) => lower_repeat_ok(s, t, vars, ins),
        ExprV::Slice(_, ranges) => lower_slice_ok(ranges, domain_of(src, vars, ins, src.len() as int), ins),
        ExprV::Broadcast(_, t) => t.len() >= ins.len(),
        ExprV::Pad(_, _, padding) => lower_pad_ok(padding, ins),
        ExprV::Flip(s, dims) => lower_flip_ok(s, dims, vars, ins),
        ExprV::Identity(_) => true,
    })
}

/// The volume of `t` simplifies without overflow (needed for the offset space).
pub open spec fn simplify_extent_ok_of(t: SpaceV) -> bool {
    crate::space::simplify_extent_ok(volume_of(t))
}


fn mk_const(c: u64) -> (r: ScalarExpr)
    ensures
        r@ == sc(c),
{
    ScalarExpr::Constant(c)
}

pub(crate) fn mk_and(a: ScalarExpr, b: ScalarExpr) -> (r: ScalarExpr)
    ensures
        r@ == and_of(a@, b@),
{
    ScalarExpr::And(Box::new(a), Box::new(b))
}

fn mk_lt(a: ScalarExpr, b: ScalarExpr) -> (r: ScalarExpr)
    ensures
        r@ == lt_of(a@, b@),
{
    ScalarExpr::Lt(Box::new(a), Box::new(b))
}

fn mk_add(a: ScalarExpr, b: ScalarExpr) -> (r: ScalarExpr)
    ensures
        r@ == add_of(a@, b@),
{
    ScalarExpr::Add(Box::new(a), Box::new(b))
}

fn mk_mul(a: ScalarExpr, b: ScalarExpr) -> (r: ScalarExpr)
    ensures
        r@ == mul_of(a@, b@),
{
    ScalarExpr::Mul(Box::new(a), Box::new(b))
}

fn mk_div(a: ScalarExpr, b: ScalarExpr) -> (r: ScalarExpr)
    ensures
        r@ == div_of(a@, b@),
{
    ScalarExpr::Div(Box::new(a), Box::new(b))
}

fn mk_mod(a: ScalarExpr, b: ScalarExpr) -> (r: ScalarExpr)
    ensures
        r@ == mod_of(a@, b@),
{
    ScalarExpr::Mod(Box::new(a), Box::new(b))
}

fn dup_all(v: &Vec<ScalarExpr>) -> (r: Vec<ScalarExpr>)
    ensures
        scalars_view(r@) == scalars_view(v@),
{
    let mut out: Vec<ScalarExpr> = Vec::new();
    let mut i: usize = 0;
    while i < v.len()
        invariant
            i <= v.len(),
            out.len() == i,
            forall|j: int| 0 <= j < i ==> (#[trigger] out@[j])@ == v@[j]@,
        decreases v.len() - i,
    {
        out.push(v[i].duplicate());
        i += 1;
    }
    assert(scalars_view(out@) =~= scalars_view(v@));
    out
}

pub(crate) fn ext_or_one_exec(s: &Space, valuation: &Valuation, i: usize) -> (r: u64)
    requires
        i < s@.len(),
    ensures
        r == ext_or_one(s@, valuation@, i as int),
{
    match s.factors[i].extent.try_eval(&valuation.variables) {
        Some(v) => v,
        None => 1,
    }
}

fn domain_exec(src: &Space, valuation: &Valuation, inputs: &Vec<ScalarExpr>) -> (r: ScalarExpr)
    requires
        inputs@.len() == src@.len(),
    ensures
        r@ == domain_of(src@, valuation@, scalars_view(inputs@), src@.len() as int),
{
    let ghost ins = scalars_view(inputs@);
    let mut domain = mk_const(1);
    let mut i: usize = 0;
    while i < src.factors.len()
        invariant
            i <= src.factors.len(),
            inputs@.len() == src@.len(),
            ins == scalars_view(inputs@),
            domain@ == domain_of(src@, valuation@, ins, i as int),
        decreases src.factors.len() - i,
    {
        match src.factors[i].extent.try_eval(&valuation.variables) {
            Some(extent) => {
                let in_bounds = mk_lt(inputs[i].duplicate(), mk_const(extent));
                domain = mk_and(domain, in_bounds);
            },
            None => {},
        }
        i += 1;
    }
    domain
}

fn empty_lowering() -> (r: (Vec<ScalarExpr>, ScalarExpr))
    ensures
        scalars_view(r.0@) == Seq::<ScalarV>::empty(),
        r.1@ == sc(0),
{
    let r = (Vec::new(), mk_const(0));
    assert(scalars_view(r.0@) =~= Seq::<ScalarV>::empty());
    r
}

fn lower_lin_exec(s: &Space, valuation: &Valuation, inputs: Vec<ScalarExpr>) -> (r: (Vec<ScalarExpr>, ScalarExpr))
    requires
        lower_lin_ok(s@, valuation@, scalars_view(inputs@)),
    ensures
        (scalars_view(r.0@), r.1@) == lower_lin(s@, valuation@, scalars_view(inputs@)),
{
    let ghost ins = scalars_view(inputs@);
    let ghost vars = valuation@;
    if inputs.len() != s.factors.len() {
        return empty_lowering();
    }
    let domain = domain_exec(s, valuation, &inputs);
    let n = s.factors.len();
    let mut offset = mk_const(0);
    let mut stride: u64 = 1;
    let mut i: usize = n;
    while i > 0
        invariant
            i <= n,
            n == s@.len(),
            inputs@.len() == n,
            ins == scalars_view(inputs@),
            vars == valuation@,
            lin_strides_fit(s@, vars, ins),
            lin_fold(s@, vars, ins, i as int) == (offset@, stride as nat),
        decreases i,
    {
        i -= 1;
        let extent = ext_or_one_exec(s, valuation, i);
        proof {
            assert(lin_fold(s@, vars, ins, i as int).1 <= u64::MAX);
        }
        let term = mk_mul(inputs[i].duplicate(), mk_const(stride));
        offset = mk_add(offset, term);
        stride = stride * extent;
    }
    let mut out: Vec<ScalarExpr> = Vec::new();
    out.push(offset.simplify());
    assert(scalars_view(out@) =~= seq![simplify_scalar(lin_fold(s@, vars, ins, 0).0)]);
    (out, domain)
}

fn lower_delin_exec(t: &Space, valuation: &Valuation, inputs: Vec<ScalarExpr>) -> (r: (Vec<ScalarExpr>, ScalarExpr))
    requires
        simplify_extent_ok_of(t@),
        lower_delin_ok(t@, valuation@, scalars_view(inputs@)),
    ensures
        (scalars_view(r.0@), r.1@) == lower_delin(t@, valuation@, scalars_view(inputs@)),
{
    let ghost ins = scalars_view(inputs@);
    let ghost vars = valuation@;
    if inputs.len() != 1 {
        return empty_lowering();
    }
    let src = crate::layout::expr::offset_space_of(t);
    let domain = domain_exec(&src, valuation, &inputs);
    let n = t.factors.len();
    let mut output: Vec<ScalarExpr> = Vec::new();
    let mut k: usize = 0;
    while k < n
        invariant
            k <= n,
            output.len() == k,
        decreases n - k,
    {
        output.push(mk_const(0));
        k += 1;
    }
    let mut offset = inputs[0].duplicate();
    let mut i: usize = n;
    while i > 0
        invariant
            i <= n,
            n == t@.len(),
            inputs@.len() == 1,
            ins == scalars_view(inputs@),
            vars == valuation@,
            output.len() == n,
            lower_delin_ok(t@, vars, ins),
            offset@ == delin_off(t@, vars, ins[0], i as int),
            forall|j: int|
                i <= j < n ==> (#[trigger] output@[j])@ == simplify_scalar(
                    mod_of(delin_off(t@, vars, ins[0], j + 1), sc(ext_or_one(t@, vars, j))),
                ),
        decreases i,
    {
        i -= 1;
        let extent = ext_or_one_exec(t, valuation, i);
        proof {
            assert(simplify_scalar_ok(mod_of(delin_off(t@, vars, ins[0], i + 1), sc(ext_or_one(t@, vars, i as int)))));
        }
        let m = mk_mod(offset.duplicate(), mk_const(extent));
        output.set(i, m.simplify());
        let d = mk_div(offset, mk_const(extent));
        offset = d.simplify();
    }
    let ghost outs = Seq::new(
        t@.len(),
        |i: int| simplify_scalar(mod_of(delin_off(t@, vars, ins[0], i + 1), sc(ext_or_one(t@, vars, i)))),
    );
    assert(scalars_view(output@) =~= outs);
    match valuation.get_extent(&t.volume_extent()) {
        Some(vol) => {
            let in_vol = mk_lt(inputs[0].duplicate(), mk_const(vol));
            (output, mk_and(domain, in_vol))
        },
        None => (output, domain),
    }
}

fn and_simplified(a: ScalarExpr, b: ScalarExpr) -> (r: ScalarExpr)
    requires
        simplify_scalar_ok(and_of(a@, b@)),
    ensures
        r@ == simplify_scalar(and_of(a@, b@)),
{
    mk_and(a, b).simplify()
}

fn take_vec(v: Vec<ScalarExpr>, n: usize) -> (r: (Vec<ScalarExpr>, Vec<ScalarExpr>))
    requires
        n <= v@.len(),
    ensures
        scalars_view(r.0@) == scalars_view(v@).take(n as int),
        scalars_view(r.1@) == scalars_view(v@).skip(n as int),
{
    let mut a = v;
    let ghost whole = a@;
    let b = a.split_off(n);
    assert(scalars_view(a@) =~= scalars_view(whole).take(n as int));
    assert(scalars_view(b@) =~= scalars_view(whole).skip(n as int));
    (a, b)
}

fn lower_permute(s: &Space, p: &Vec<usize>, inputs: Vec<ScalarExpr>) -> (r: Vec<ScalarExpr>)
    requires
        forall|j: int| 0 <= j < p@.len() && j < inputs@.len() ==> #[trigger] p@[j] < s@.len(),
    ensures
        scalars_view(r@) == scatter(
            Seq::new(s@.len(), |i: int| sc(0)),
            scalars_view(inputs@),
            p@,
            if p@.len() <= inputs@.len() { p@.len() as int } else { inputs@.len() as int },
        ),
{
    let ghost ins = scalars_view(inputs@);
    let n = s.factors.len();
    let mut output: Vec<ScalarExpr> = Vec::new();
    let mut k: usize = 0;
    while k < n
        invariant
            k <= n,
            output.len() == k,
            forall|j: int| 0 <= j < k ==> (#[trigger] output@[j])@ == sc(0),
        decreases n - k,
    {
        output.push(mk_const(0));
        k += 1;
    }
    let ghost base = Seq::new(n as nat, |i: int| sc(0));
    assert(scalars_view(output@) =~= base);
    let mut i: usize = 0;
    while i < p.len()
        invariant
            i <= p.len(),
            n == s@.len(),
            base.len() == n,
            ins == scalars_view(inputs@),
            forall|j: int| 0 <= j < p@.len() && j < ins.len() ==> #[trigger] p@[j] < n,
            output.len() == n,
            scalars_view(output@) == scatter(
                base,
                ins,
                p@,
                if i <= inputs@.len() { i as int } else { inputs@.len() as int },
            ),
        decreases p.len() - i,
    {
        let pos = p[i];
        if i < inputs.len() {
            let ghost before = scalars_view(output@);
            output.set(pos, inputs[i].duplicate());
            assert(scalars_view(output@) =~= before.update(pos as int, ins[i as int]));
        }
        i += 1;
    }
    output
}

fn lower_split(idx: usize, n1: u64, inputs: Vec<ScalarExpr>) -> (r: Vec<ScalarExpr>)
    requires
        idx < inputs@.len(),
        simplify_scalar_ok(div_of(scalars_view(inputs@)[idx as int], sc(n1))),
        simplify_scalar_ok(mod_of(scalars_view(inputs@)[idx as int], sc(n1))),
    ensures
        scalars_view(r@) == scalars_view(inputs@).remove(idx as int).insert(
            idx as int,
            simplify_scalar(div_of(scalars_view(inputs@)[idx as int], sc(n1))),
        ).insert(idx + 1, simplify_scalar(mod_of(scalars_view(inputs@)[idx as int], sc(n1)))),
{
    let ghost ins = scalars_view(inputs@);
    let mut output = inputs;
    let len = output.len();
    let val = output.remove(idx);
    let q = mk_div(val.duplicate(), mk_const(n1)).simplify();
    output.insert(idx, q);
    let m = mk_mod(val, mk_const(n1)).simplify();
    output.insert(idx + 1, m);
    proof {
        let v = ins[idx as int];
        assert(scalars_view(output@) =~= ins.remove(idx as int).insert(
            idx as int,
            simplify_scalar(div_of(v, sc(n1))),
        ).insert(idx + 1, simplify_scalar(mod_of(v, sc(n1)))));
    }
    output
}

fn lower_join(n2: u64, idx: usize, inputs: Vec<ScalarExpr>) -> (r: Vec<ScalarExpr>)
    requires
        idx + 1 < inputs@.len(),
        simplify_scalar_ok(
            add_of(mul_of(scalars_view(inputs@)[idx as int], sc(n2)), scalars_view(inputs@)[idx + 1]),
        ),
    ensures
        scalars_view(r@) == scalars_view(inputs@).remove(idx as int).remove(idx as int).insert(
            idx as int,
            simplify_scalar(
                add_of(mul_of(scalars_view(inputs@)[idx as int], sc(n2)), scalars_view(inputs@)[idx + 1]),
            ),
        ),
{
    let ghost ins = scalars_view(inputs@);
    let mut output = inputs;
    let v1 = output.remove(idx);
    let v2 = output.remove(idx);
    let joined = mk_add(mk_mul(v1, mk_const(n2)), v2).simplify();
    output.insert(idx, joined);
    proof {
        assert(scalars_view(output@) =~= ins.remove(idx as int).remove(idx as int).insert(
            idx as int,
            simplify_scalar(add_of(mul_of(ins[idx as int], sc(n2)), ins[idx + 1])),
        ));
    }
    output
}

fn lower_squeeze(idx: usize, inputs: Vec<ScalarExpr>) -> (r: Vec<ScalarExpr>)
    requires
        idx < inputs@.len(),
    ensures
        scalars_view(r@) == scalars_view(inputs@).remove(idx as int),
{
    let ghost ins = scalars_view(inputs@);
    let mut output = inputs;
    let _ = output.remove(idx);
    assert(scalars_view(output@) =~= ins.remove(idx as int));
    output
}

fn lower_unsqueeze(idx: usize, inputs: Vec<ScalarExpr>) -> (r: Vec<ScalarExpr>)
    requires
        idx <= inputs@.len(),
    ensures
        scalars_view(r@) == scalars_view(inputs@).insert(idx as int, sc(0)),
{
    let ghost ins = scalars_view(inputs@);
    let mut output = inputs;
    output.insert(idx, mk_const(0));
    assert(scalars_view(output@) =~= ins.insert(idx as int, sc(0)));
    output
}

fn lower_repeat(s: &Space, t: &Space, valuation: &Valuation, inputs: &Vec<ScalarExpr>) -> (r: Vec<ScalarExpr>)
    requires
        inputs@.len() == s@.len(),
        t@.len() >= inputs@.len(),
        forall|j: int|
            0 <= j < inputs@.len() && ext_or_one(t@, valuation@, j) < ext_or_one(s@, valuation@, j)
                ==> simplify_scalar_ok(mod_of(#[trigger] scalars_view(inputs@)[j], sc(ext_or_one(t@, valuation@, j)))),
    ensures
        scalars_view(r@) == Seq::new(
            inputs@.len(),
            |j: int|
                if ext_or_one(t@, valuation@, j) < ext_or_one(s@, valuation@, j) {
                    simplify_scalar(mod_of(scalars_view(inputs@)[j], sc(ext_or_one(t@, valuation@, j))))
                } else {
                    scalars_view(inputs@)[j]
                },
        ),
{
    let ghost ins = scalars_view(inputs@);
    let ghost vars = valuation@;
    let ghost want = Seq::new(
        inputs@.len(),
        |j: int|
            if ext_or_one(t@, vars, j) < ext_or_one(s@, vars, j) {
                simplify_scalar(mod_of(ins[j], sc(ext_or_one(t@, vars, j))))
            } else {
                ins[j]
            },
    );
    let mut output: Vec<ScalarExpr> = Vec::new();
    let mut i: usize = 0;
    while i < inputs.len()
        invariant
            i <= inputs.len(),
            ins == scalars_view(inputs@),
            vars == valuation@,
            inputs@.len() == s@.len(),
            t@.len() >= inputs@.len(),
            want.len() == inputs@.len(),
            forall|j: int| 0 <= j < inputs@.len() ==> #[trigger] want[j] == (if ext_or_one(t@, vars, j) < ext_or_one(s@, vars, j) {
                simplify_scalar(mod_of(ins[j], sc(ext_or_one(t@, vars, j))))
            } else {
                ins[j]
            }),
            forall|j: int|
                0 <= j < ins.len() && ext_or_one(t@, vars, j) < ext_or_one(s@, vars, j)
                    ==> simplify_scalar_ok(mod_of(#[trigger] ins[j], sc(ext_or_one(t@, vars, j)))),
            output.len() == i,
            forall|j: int| 0 <= j < i ==> (#[trigger] output@[j])@ == want[j],
        decreases inputs.len() - i,
    {
        let se = ext_or_one_exec(s, valuation, i);
        let te = ext_or_one_exec(t, valuation, i);
        if te < se {
            assert(simplify_scalar_ok(mod_of(ins[i as int], sc(te))));
            output.push(mk_mod(inputs[i].duplicate(), mk_const(te)).simplify());
        } else {
            output.push(inputs[i].duplicate());
        }
        i += 1;
    }
    assert(scalars_view(output@) =~= want);
    output
}

fn lower_broadcast(s: &Space, t: &Space, valuation: &Valuation, inputs: &Vec<ScalarExpr>) -> (r: Vec<ScalarExpr>)
    requires
        inputs@.len() == s@.len(),
        t@.len() >= inputs@.len(),
    ensures
        scalars_view(r@) == Seq::new(
            inputs@.len(),
            |j: int|
                if ext_or_one(s@, valuation@, j) > 1 && ext_or_one(t@, valuation@, j) == 1 {
                    sc(0)
                } else {
                    scalars_view(inputs@)[j]
                },
        ),
{
    let ghost ins = scalars_view(inputs@);
    let ghost vars = valuation@;
    let ghost want = Seq::new(
        inputs@.len(),
        |j: int|
            if ext_or_one(s@, vars, j) > 1 && ext_or_one(t@, vars, j) == 1 {
                sc(0)
            } else {
                ins[j]
            },
    );
    let mut output: Vec<ScalarExpr> = Vec::new();
    let mut i: usize = 0;
    while i < inputs.len()
        invariant
            i <= inputs.len(),
            ins == scalars_view(inputs@),
            vars == valuation@,
            inputs@.len() == s@.len(),
            t@.len() >= inputs@.len(),
            want.len() == inputs@.len(),
            forall|j: int| 0 <= j < inputs@.len() ==> #[trigger] want[j] == (if ext_or_one(s@, vars, j) > 1 && ext_or_one(t@, vars, j) == 1 {
                sc(0)
            } else {
                ins[j]
            }),
            output.len() == i,
            forall|j: int| 0 <= j < i ==> (#[trigger] output@[j])@ == want[j],
        decreases inputs.len() - i,
    {
        let se = ext_or_one_exec(s, valuation, i);
        let te = ext_or_one_exec(t, valuation, i);
        if se > 1 && te == 1 {
            output.push(mk_const(0));
        } else {
            output.push(inputs[i].duplicate());
        }
        i += 1;
    }
    assert(scalars_view(output@) =~= want);
    output
}

fn lower_pad(padding: &Vec<(u64, u64)>, inputs: &Vec<ScalarExpr>) -> (r: Vec<ScalarExpr>)
    requires
        padding@.len() >= inputs@.len(),
        forall|j: int|
            0 <= j < inputs@.len() ==> simplify_scalar_ok(add_of(#[trigger] scalars_view(inputs@)[j], sc(padding@[j].0))),
    ensures
        scalars_view(r@) == Seq::new(
            inputs@.len(),
            |j: int| simplify_scalar(add_of(scalars_view(inputs@)[j], sc(padding@[j].0))),
        ),
{
    let ghost ins = scalars_view(inputs@);
    let ghost want = Seq::new(inputs@.len(), |j: int| simplify_scalar(add_of(ins[j], sc(padding@[j].0))));
    let mut output: Vec<ScalarExpr> = Vec::new();
    let mut i: usize = 0;
    while i < inputs.len()
        invariant
            i <= inputs.len(),
            ins == scalars_view(inputs@),
            padding@.len() >= inputs@.len(),
            want.len() == inputs@.len(),
            forall|j: int| 0 <= j < inputs@.len() ==> #[trigger] want[j] == simplify_scalar(add_of(ins[j], sc(padding@[j].0))),
            forall|j: int| 0 <= j < ins.len() ==> simplify_scalar_ok(add_of(#[trigger] ins[j], sc(padding@[j].0))),
            output.len() == i,
            forall|j: int| 0 <= j < i ==> (#[trigger] output@[j])@ == want[j],
        decreases inputs.len() - i,
    {
        let (left, _) = padding[i];
        assert(simplify_scalar_ok(add_of(ins[i as int], sc(left))));
        output.push(mk_add(inputs[i].duplicate(), mk_const(left)).simplify());
        i += 1;
    }
    assert(scalars_view(output@) =~= want);
    output
}

fn lower_flip(s: &Space, dims: &Vec<bool>, valuation: &Valuation, inputs: &Vec<ScalarExpr>) -> (r: Vec<ScalarExpr>)
    requires
        inputs@.len() == s@.len(),
        dims@.len() >= inputs@.len(),
        forall|j: int|
            0 <= j < inputs@.len() && dims@[j] ==> ext_or_one(s@, valuation@, j) >= 1 && simplify_scalar_ok(
                add_of(sc((ext_or_one(s@, valuation@, j) - 1) as u64), mul_of(sc(u64::MAX), #[trigger] scalars_view(inputs@)[j])),
            ),
    ensures
        scalars_view(r@) == Seq::new(
            inputs@.len(),
            |j: int|
                if dims@[j] {
                    flip_expr(scalars_view(inputs@)[j], ext_or_one(s@, valuation@, j))
                } else {
                    scalars_view(inputs@)[j]
                },
        ),
{
    let ghost ins = scalars_view(inputs@);
    let ghost vars = valuation@;
    let ghost want = Seq::new(
        inputs@.len(),
        |j: int|
            if dims@[j] {
                flip_expr(ins[j], ext_or_one(s@, vars, j))
            } else {
                ins[j]
            },
    );
    let mut output: Vec<ScalarExpr> = Vec::new();
    let mut i: usize = 0;
    while i < inputs.len()
        invariant
            i <= inputs.len(),
            ins == scalars_view(inputs@),
            vars == valuation@,
            inputs@.len() == s@.len(),
            dims@.len() >= inputs@.len(),
            want.len() == inputs@.len(),
            forall|j: int| 0 <= j < inputs@.len() ==> #[trigger] want[j] == (if dims@[j] {
                flip_expr(ins[j], ext_or_one(s@, vars, j))
            } else {
                ins[j]
            }),
            forall|j: int|
                0 <= j < ins.len() && dims@[j] ==> ext_or_one(s@, vars, j) >= 1 && simplify_scalar_ok(
                    add_of(sc((ext_or_one(s@, vars, j) - 1) as u64), mul_of(sc(u64::MAX), #[trigger] ins[j])),
                ),
            output.len() == i,
            forall|j: int| 0 <= j < i ==> (#[trigger] output@[j])@ == want[j],
        decreases inputs.len() - i,
    {
        if dims[i] {
            let n = ext_or_one_exec(s, valuation, i);
            assert(simplify_scalar_ok(add_of(sc((n - 1) as u64), mul_of(sc(u64::MAX), ins[i as int]))));
            let e = mk_add(mk_const(n - 1), mk_mul(mk_const(u64::MAX), inputs[i].duplicate()));
            output.push(e.simplify());
        } else {
            output.push(inputs[i].duplicate());
        }
        i += 1;
    }
    assert(scalars_view(output@) =~= want);
    output
}

fn lower_slice(ranges: &Vec<(u64, u64)>, domain: ScalarExpr, inputs: &Vec<ScalarExpr>) -> (r: (Vec<ScalarExpr>, ScalarExpr))
    requires
        ranges@.len() >= inputs@.len(),
        forall|j: int|
            0 <= j < inputs@.len() ==> simplify_scalar_ok(
                add_of(#[trigger] scalars_view(inputs@)[j], sc((0u64).wrapping_sub(ranges@[j].0))),
            ),
        simplify_scalar_ok(slice_domain(domain@, scalars_view(inputs@), ranges@, inputs@.len() as int)),
    ensures
        scalars_view(r.0@) == Seq::new(inputs@.len(), |j: int| slice_shift(scalars_view(inputs@)[j], ranges@[j].0)),
        r.1@ == simplify_scalar(slice_domain(domain@, scalars_view(inputs@), ranges@, inputs@.len() as int)),
{
    let ghost ins = scalars_view(inputs@);
    let ghost d0 = domain@;
    let ghost want = Seq::new(inputs@.len(), |j: int| slice_shift(ins[j], ranges@[j].0));
    let mut output: Vec<ScalarExpr> = Vec::new();
    let mut sd = domain;
    let mut i: usize = 0;
    while i < inputs.len()
        invariant
            i <= inputs.len(),
            ins == scalars_view(inputs@),
            ranges@.len() >= inputs@.len(),
            want.len() == inputs@.len(),
            forall|j: int| 0 <= j < inputs@.len() ==> #[trigger] want[j] == slice_shift(ins[j], ranges@[j].0),
            forall|j: int|
                0 <= j < ins.len() ==> simplify_scalar_ok(
                    add_of(#[trigger] ins[j], sc((0u64).wrapping_sub(ranges@[j].0))),
                ),
            sd@ == slice_domain(d0, ins, ranges@, i as int),
            output.len() == i,
            forall|j: int| 0 <= j < i ==> (#[trigger] output@[j])@ == want[j],
        decreases inputs.len() - i,
    {
        let (start, end) = ranges[i];
        let lower = if start > 0 {
            mk_lt(mk_const(start - 1), inputs[i].duplicate())
        } else {
            mk_const(1)
        };
        let in_slice = mk_and(mk_and(mk_const(1), lower), mk_lt(inputs[i].duplicate(), mk_const(end)));
        sd = mk_and(sd, in_slice);
        assert(simplify_scalar_ok(add_of(ins[i as int], sc((0u64).wrapping_sub(start)))));
        let shifted = mk_add(inputs[i].duplicate(), mk_const(0u64.wrapping_sub(start))).simplify();
        output.push(shifted);
        i += 1;
    }
    assert(scalars_view(output@) =~= want);
    (output, sd.simplify())
}

fn lower_reshape(s: &Space, t: &Space, valuation: &Valuation, inputs: Vec<ScalarExpr>) -> (r: (Vec<ScalarExpr>, ScalarExpr))
    requires
        inputs@.len() == s@.len(),
        expr_lower_ok(ExprV::Reshape(s@, t@), valuation@, scalars_view(inputs@)),
    ensures
        (scalars_view(r.0@), r.1@) == expr_lower(ExprV::Reshape(s@, t@), valuation@, scalars_view(inputs@)),
{
    let (linearized, d1) = lower_lin_exec(s, valuation, inputs);
    let (output, d2) = lower_delin_exec(t, valuation, linearized);
    (output, and_simplified(d1, d2))
}

#[verifier::rlimit(60)]
fn lower_shadow(s: &Space, matrix: &Vec<Vec<u8>>, valuation: &Valuation, inputs: Vec<ScalarExpr>) -> (r: (Vec<ScalarExpr>, ScalarExpr))
    requires
        inputs@.len() == s@.len(),
        expr_lower_ok(ExprV::BinaryShadow(s@, matrix_view(*matrix)), valuation@, scalars_view(inputs@)),
    ensures
        (scalars_view(r.0@), r.1@) == expr_lower(ExprV::BinaryShadow(s@, matrix_view(*matrix)), valuation@, scalars_view(inputs@)),
{
    let (linearized, d) = lower_lin_exec(s, valuation, inputs);
    assert(scalars_view(linearized@).len() == 1);
    let offset = linearized[0].duplicate();
    let bit_linear = ScalarExpr::BitLinear(Box::new(offset), copy_matrix(matrix));
    let mut v: Vec<ScalarExpr> = Vec::new();
    v.push(bit_linear);
    proof {
        assert(scalars_view(v@) =~= seq![ScalarV::BitLinear(Box::new(scalars_view(linearized@)[0]), matrix_view(*matrix))]);
    }
    let (output, d2) = lower_delin_exec(s, valuation, v);
    (output, and_simplified(d, d2))
}

impl Expression {
    /// Lowers the layout applied to the coordinate expressions `inputs`
    /// (see [`expr_lower`]).
    pub fn lower_exprs(&self, valuation: &Valuation, inputs: Vec<ScalarExpr>) -> (r: (Vec<ScalarExpr>, ScalarExpr))
        requires
            expr_lower_ok(self@, valuation@, scalars_view(inputs@)),
        ensures
            (scalars_view(r.0@), r.1@) == expr_lower(self@, valuation@, scalars_view(inputs@)),
        decreases self,
    {
        let ghost ins = scalars_view(inputs@);
        let ghost vars = valuation@;
        let src = self.source_space();
        if inputs.len() != src.factors.len() {
            return empty_lowering();
        }
        match self {
            Expression::Linearize(s) => {
                return lower_lin_exec(s, valuation, inputs);
            },
            Expression::Delinearize(s) => {
                return lower_delin_exec(s, valuation, inputs);
            },
            Expression::Composition(l1, l2) => {
                let (mid, d1) = l1.lower_exprs(valuation, inputs);
                let (out, d2) = l2.lower_exprs(valuation, mid);
                return (out, and_simplified(d1, d2));
            },
            Expression::Product(l1, l2) => {
                let n1 = l1.source_space().factors.len();
                let (i1, i2) = take_vec(inputs, n1);
                let (mut o1, d1) = l1.lower_exprs(valuation, i1);
                let (mut o2, d2) = l2.lower_exprs(valuation, i2);
                let ghost v1 = scalars_view(o1@);
                let ghost v2 = scalars_view(o2@);
                let ghost w1 = o1@;
                let ghost w2 = o2@;
                o1.append(&mut o2);
                assert(o1@ == w1 + w2);
                assert(scalars_view(o1@) =~= v1 + v2);
                return (o1, and_simplified(d1, d2));
            },
            Expression::Reshape(s, t) => {
                return lower_reshape(s, t, valuation, inputs);
            },
            Expression::BinaryShadow(s, matrix) => {
                return lower_shadow(s, matrix, valuation, inputs);
            },
            _ => {},
        }
        self.lower_simple(&src, valuation, inputs)
    }

    #[verifier::rlimit(60)]
    fn lower_simple(&self, src: &Space, valuation: &Valuation, inputs: Vec<ScalarExpr>) -> (r: (Vec<ScalarExpr>, ScalarExpr))
        requires
            expr_lower_ok(self@, valuation@, scalars_view(inputs@)),
            src@ == expr_source(self@),
            inputs@.len() == src@.len(),
            !(self@ is Linearize || self@ is Delinearize || self@ is Composition || self@ is Product
                || self@ is Reshape || self@ is BinaryShadow),
        ensures
            (scalars_view(r.0@), r.1@) == expr_lower(self@, valuation@, scalars_view(inputs@)),
    {
        let domain = domain_exec(src, valuation, &inputs);
        match self {
            Expression::Identity(_) => (inputs, domain),
            Expression::Permute(s, p) => {
                proof {
                    let ins = scalars_view(inputs@);
                    assert(self@ == ExprV::Permute(s@, p@));
                    assert(ins.len() == inputs@.len());
                    assert(expr_source(self@) == s@);
                    assert(expr_lower_ok(ExprV::Permute(s@, p@), valuation@, ins));
                    assert(ins.len() == expr_source(ExprV::Permute(s@, p@)).len());
                    assert(forall|i: int| 0 <= i < p@.len() && i < ins.len() ==> #[trigger] p@[i] < s@.len());
                    assert forall|j: int| 0 <= j < p@.len() && j < inputs@.len() implies #[trigger] p@[j] < s@.len() by {
                        assert(j < ins.len());
                    }
                }
                (lower_permute(s, p, inputs), domain)
            },
            Expression::Split(_, idx, n1) => (lower_split(*idx, *n1, inputs), domain),
            Expression::Join(s, idx) => {
                let n2 = ext_or_one_exec(s, valuation, *idx + 1);
                (lower_join(n2, *idx, inputs), domain)
            },
            Expression::Squeeze(_, idx) => (lower_squeeze(*idx, inputs), domain),
            Expression::Unsqueeze(_, idx, _) => (lower_unsqueeze(*idx, inputs), domain),
            Expression::Repeat(s, t) => (lower_repeat(s, t, valuation, &inputs), domain),
            Expression::Slice(_, ranges) => lower_slice(ranges, domain, &inputs),
            Expression::Broadcast(s, t) => (lower_broadcast(s, t, valuation, &inputs), domain),
            Expression::Pad(_, _, padding) => (lower_pad(padding, &inputs), domain),
            Expression::Flip(s, dims) => (lower_flip(s, dims, valuation, &inputs), domain),
            _ => {
                proof {
                    assert(false);
                }
                (inputs, domain)
            },
        }
    }
}

} // verus!
