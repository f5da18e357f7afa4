//! Inverses undo their layouts: the bit-linear map of the inverse matrix over
//! GF(2) takes back every offset that a binary shadow moves, and the inverse
//! of every layout built from invertible primitives by compositions and
//! products takes each image back to its point.
use vstd::prelude::*;
use crate::space::{
    SpaceV, lemma_scatter_len, valid_coords, opt_extents, spec_linearize, spec_delinearize,
    lemma_delinearize_linearize, lemma_linearize_delinearize,
};
use crate::layout::scalar::{row_parity, low_image, low_mask, bit_linear, bit_linear_ok};
use crate::layout::expr::{ExprV, expr_source, expr_target};
use crate::layout::apply::{expr_apply, expr_apply_ok};
use crate::layout::inverse::{
    expr_inverse, is_permutation, lemma_inverse_undoes_linearize, lemma_inverse_undoes_delinearize,
    lemma_inverse_undoes_permute, lemma_inverse_undoes_reshape,
};
use crate::layout::gf2::{
    total, bit, gf2_dot, row_times, gf2_unit, is_gf2_inverse, gf2_inverse, lemma_total_mod2, lemma_total_cond, lemma_total_swap,
    lemma_total_point, lemma_total_zero, lemma_bit_small,
};

verus! {

/// Bit `t` of `v`, as 0 or 1.
pub open spec fn vbit(v: u64, t: int) -> int {
    ((v >> (t as u64)) & 1u64) as int
}

/// The terms of the parity that `row` selects from the low bits of `v`.
pub open spec fn parity_terms(v: u64, row: Seq<u8>) -> spec_fn(int) -> int {
    |t: int| bit(row[t]) * vbit(v, t)
}

proof fn lemma_bv_term(x: u64, r: u8)
    ensures
        ((x & 1u64) & (r as u64)) == (x & 1u64) * ((r as u64) & 1u64),
        (x & 1u64) <= 1,
        ((x & 1u64) & (r as u64)) <= 1,
        (r as u64) & 1u64 == (r % 2) as u64,
{
    assert(((x & 1u64) & (r as u64)) <= 1) by (bit_vector);
    assert(((x & 1u64) & (r as u64)) == (x & 1u64) * ((r as u64) & 1u64)) by (bit_vector);
    assert((x & 1u64) <= 1) by (bit_vector);
    assert((r as u64) & 1u64 == (r % 2) as u64) by (bit_vector);
}

proof fn lemma_bv_xor(a: u64, b: u64)
    requires
        a <= 1,
        b <= 1,
    ensures
        a ^ b == (a + b) % 2,
{
    assert(a ^ b == (a + b) % 2) by (bit_vector)
        requires
            a <= 1,
            b <= 1,
    ;
}

/// The parity that `row` selects from the low `k` bits of `v` is 0 or 1, the
/// sum of its terms modulo 2.
pub proof fn lemma_row_parity(v: u64, row: Seq<u8>, k: int)
    requires
        0 <= k < 64,
    ensures
        row_parity(v, row, k) <= 1,
        row_parity(v, row, k) as int == total(parity_terms(v, row), k) % 2,
    decreases k,
{
    if k > 0 {
        lemma_row_parity(v, row, k - 1);
        let x = v >> ((k - 1) as u64);
        let r = row[k - 1];
        lemma_bv_term(x, r);
        let term = (x & 1u64) & (r as u64);
        let prev = row_parity(v, row, k - 1);
        lemma_bv_xor(prev, term);
        assert(term as int == bit(r) * vbit(v, k - 1)) by (nonlinear_arith)
            requires
                term == (x & 1u64) * ((r as u64) & 1u64),
                (r as u64) & 1u64 == (r % 2) as u64,
                bit(r) == (r % 2) as int,
                vbit(v, k - 1) == (x & 1u64) as int,
        ;
        let s = total(parity_terms(v, row), k - 1);
        let f = parity_terms(v, row)(k - 1);
        assert(total(parity_terms(v, row), k) == s + f);
        assert((prev + term) % 2 == (s + f) % 2) by (nonlinear_arith)
            requires
                prev == s % 2,
                term == f,
        ;
    }
}

proof fn lemma_bv_or_shift(a: u64, p: u64, s: u64)
    requires
        s < 63,
        a < (1u64 << s),
        p <= 1,
    ensures
        (a | (p << s)) < (1u64 << ((s + 1) as u64)),
        ((a | (p << s)) >> s) & 1u64 == p,
        forall|i: u64| i < s ==> #[trigger] (((a | (p << s)) >> i) & 1u64) == (a >> i) & 1u64,
{
    assert((a | (p << s)) < (1u64 << ((s + 1) as u64))) by (bit_vector)
        requires
            s < 63,
            a < (1u64 << s),
            p <= 1,
    ;
    assert(((a | (p << s)) >> s) & 1u64 == p) by (bit_vector)
        requires
            s < 63,
            a < (1u64 << s),
            p <= 1,
    ;
    assert forall|i: u64| i < s implies #[trigger] (((a | (p << s)) >> i) & 1u64) == (a >> i) & 1u64 by {
        assert((((a | (p << s)) >> i) & 1u64) == (a >> i) & 1u64) by (bit_vector)
            requires
                s < 63,
                i < s,
                a < (1u64 << s),
                p <= 1,
        ;
    }
}

/// The image bits `0..k` of `v` under `m` lie below bit `k`, and bit `i` of
/// them is the parity that row `i` selects.
pub proof fn lemma_low_image(v: u64, m: Seq<Seq<u8>>, k: int)
    requires
        0 <= k <= m.len(),
        m.len() < 64,
    ensures
        low_image(v, m, k) < (1u64 << (k as u64)),
        forall|i: int| 0 <= i < k ==> #[trigger] vbit(low_image(v, m, k), i) == row_parity(v, m[i], m.len() as int) as int,
    decreases k,
{
    if k == 0 {
        assert(0u64 < (1u64 << 0u64)) by (bit_vector);
    } else {
        lemma_low_image(v, m, k - 1);
        let prev = low_image(v, m, k - 1);
        let p = row_parity(v, m[k - 1], m.len() as int);
        lemma_row_parity(v, m[k - 1], m.len() as int);
        let sh = (k - 1) as u64;
        lemma_bv_or_shift(prev, p, sh);
        assert(low_image(v, m, k) == prev | (p << sh));
        assert(((sh + 1) as u64) == k as u64);
        assert forall|i: int| 0 <= i < k implies #[trigger] vbit(low_image(v, m, k), i) == row_parity(
            v,
            m[i],
            m.len() as int,
        ) as int by {
            if i < k - 1 {
                assert((((prev | (p << sh)) >> (i as u64)) & 1u64) == (prev >> (i as u64)) & 1u64);
                assert(vbit(prev, i) == row_parity(v, m[i], m.len() as int) as int);
            }
        }
    }
}

proof fn lemma_bv_merge(a: u64, v: u64, d: u64)
    requires
        d < 64,
        a < (1u64 << d),
    ensures
        forall|i: u64| i < d ==> #[trigger] (((a | (v & !(((1u64 << d) - 1u64) as u64))) >> i) & 1u64) == (a >> i)
            & 1u64,
        forall|i: u64|
            d <= i < 64 ==> #[trigger] (((a | (v & !(((1u64 << d) - 1u64) as u64))) >> i) & 1u64) == (v >> i)
                & 1u64,
        (a | (v & !(((1u64 << d) - 1u64) as u64))) & !(((1u64 << d) - 1u64) as u64) == v & !(((1u64 << d)
            - 1u64) as u64),
        (a | (v & !(((1u64 << d) - 1u64) as u64))) & (((1u64 << d) - 1u64) as u64) == a,
{
    assert forall|i: u64| i < d implies #[trigger] (((a | (v & !(((1u64 << d) - 1u64) as u64))) >> i) & 1u64)
        == (a >> i) & 1u64 by {
        assert((((a | (v & !(((1u64 << d) - 1u64) as u64))) >> i) & 1u64) == (a >> i) & 1u64) by (bit_vector)
            requires
                d < 64,
                i < d,
                a < (1u64 << d),
        ;
    }
    assert forall|i: u64| d <= i < 64 implies #[trigger] (((a | (v & !(((1u64 << d) - 1u64) as u64))) >> i)
        & 1u64) == (v >> i) & 1u64 by {
        assert((((a | (v & !(((1u64 << d) - 1u64) as u64))) >> i) & 1u64) == (v >> i) & 1u64) by (bit_vector)
            requires
                d < 64,
                d <= i < 64,
                a < (1u64 << d),
        ;
    }
    assert((a | (v & !(((1u64 << d) - 1u64) as u64))) & !(((1u64 << d) - 1u64) as u64) == v & !(((1u64
        << d) - 1u64) as u64)) by (bit_vector)
        requires
            d < 64,
            a < (1u64 << d),
    ;
    assert((a | (v & !(((1u64 << d) - 1u64) as u64))) & (((1u64 << d) - 1u64) as u64) == a) by (bit_vector)
        requires
            d < 64,
            a < (1u64 << d),
    ;
}

/// The bits of the bit-linear map of `v`: below `m.len()`, the parities that
/// the rows select; from there on, the bits of `v`.
pub proof fn lemma_bit_linear_bits(v: u64, m: Seq<Seq<u8>>)
    requires
        m.len() < 64,
    ensures
        forall|i: int| 0 <= i < m.len() ==> #[trigger] vbit(bit_linear(v, m), i) == row_parity(v, m[i], m.len() as int) as int,
        forall|i: int| m.len() <= i < 64 ==> #[trigger] vbit(bit_linear(v, m), i) == vbit(v, i),
        bit_linear(v, m) & !low_mask(m.len()) == v & !low_mask(m.len()),
{
    let d = m.len() as int;
    lemma_low_image(v, m, d);
    let a = low_image(v, m, d);
    lemma_bv_merge(a, v, d as u64);
    assert(bit_linear(v, m) == a | (v & !low_mask(m.len())));
    assert forall|i: int| 0 <= i < d implies #[trigger] vbit(bit_linear(v, m), i) == row_parity(v, m[i], d) as int by {
        assert((i as u64) < (d as u64));
        assert((((a | (v & !(((1u64 << (d as u64)) - 1u64) as u64))) >> (i as u64)) & 1u64) == (a >> (i as u64))
            & 1u64);
        assert(vbit(a, i) == row_parity(v, m[i], d) as int);
    }
    assert forall|i: int| d <= i < 64 implies #[trigger] vbit(bit_linear(v, m), i) == vbit(v, i) by {
        assert((((a | (v & !(((1u64 << (d as u64)) - 1u64) as u64))) >> (i as u64)) & 1u64) == (v >> (i as u64))
            & 1u64);
    }
}

proof fn lemma_vbit_small(v: u64, t: int)
    ensures
        0 <= vbit(v, t) <= 1,
{
    let x = v >> (t as u64);
    assert((x & 1u64) <= 1) by (bit_vector);
}

/// The terms of the parity that row `i` of the product `a m` over GF(2)
/// selects from the low bits of `v`.
pub open spec fn product_terms(a: Seq<Seq<u8>>, m: Seq<Seq<u8>>, i: int, v: u64) -> spec_fn(int) -> int {
    |t: int| gf2_dot(a, m, i, t, m.len() as int) * vbit(v, t)
}

/// Where `w` holds, in its low bits, the parities that the rows of `m` select
/// from `v`, row `i` of `a` selects from `w` the parity that row `i` of the
/// product `a m` selects from `v`.
proof fn lemma_parity_of_image(v: u64, w: u64, m: Seq<Seq<u8>>, a: Seq<Seq<u8>>, i: int)
    requires
        m.len() < 64,
        a.len() == m.len(),
        0 <= i < m.len(),
        forall|j: int| 0 <= j < m.len() ==> #[trigger] vbit(w, j) == row_parity(v, m[j], m.len() as int) as int,
    ensures
        row_parity(w, a[i], m.len() as int) as int == total(product_terms(a, m, i, v), m.len() as int) % 2,
{
    let d = m.len() as int;
    lemma_row_parity(w, a[i], d);
    let g = |k: int, t: int| bit(a[i][k]) * bit(m[k][t]) * vbit(v, t);
    let lt = parity_terms(w, a[i]);
    let lg = |k: int| total(|t: int| g(k, t), d);
    assert forall|k: int| 0 <= k < d implies #[trigger] lt(k) % 2 == lg(k) % 2 by {
        lemma_row_parity(v, m[k], d);
        lemma_bit_small(a[i][k]);
        let f = parity_terms(v, m[k]);
        let gk = |t: int| g(k, t);
        assert forall|t: int| 0 <= t < d implies #[trigger] gk(t) == if bit(a[i][k]) == 1 {
            f(t)
        } else {
            0
        } by {
            let x = bit(a[i][k]);
            let y = bit(m[k][t]);
            let z = vbit(v, t);
            assert(gk(t) == x * y * z);
            assert(f(t) == y * z);
            assert(x * y * z == if x == 1 { y * z } else { 0 }) by (nonlinear_arith)
                requires
                    x == 0 || x == 1,
            ;
        }
        lemma_total_cond(bit(a[i][k]) == 1, f, gk, d);
        assert(lg(k) == total(gk, d));
        let sv = total(f, d);
        assert(vbit(w, k) == sv % 2);
        let x = bit(a[i][k]);
        let y = vbit(w, k);
        assert(lt(k) == x * y);
        if x == 1 {
            assert(x * y == y) by (nonlinear_arith)
                requires
                    x == 1,
            ;
            assert(lt(k) == sv % 2);
            assert((sv % 2) % 2 == sv % 2) by (nonlinear_arith);
        } else {
            assert(x * y == 0) by (nonlinear_arith)
                requires
                    x == 0,
            ;
        }
    }
    lemma_total_mod2(lt, lg, d);
    lemma_total_swap(g, d, d);
    let rg = |t: int| total(|k: int| g(k, t), d);
    let q = product_terms(a, m, i, v);
    assert forall|t: int| 0 <= t < d implies #[trigger] rg(t) % 2 == q(t) % 2 by {
        lemma_vbit_small(v, t);
        let f = row_times(a[i], m, t);
        let gt = |k: int| g(k, t);
        assert forall|k: int| 0 <= k < d implies #[trigger] gt(k) == if vbit(v, t) == 1 {
            f(k)
        } else {
            0
        } by {
            lemma_bit_small(a[i][k]);
            lemma_bit_small(m[k][t]);
            let x = bit(a[i][k]);
            let y = bit(m[k][t]);
            let z = vbit(v, t);
            assert(gt(k) == x * y * z);
            assert(f(k) == if x == 1 { y } else { 0 });
            assert(x * y * z == if z == 1 { if x == 1 { y } else { 0 } } else { 0 }) by (nonlinear_arith)
                requires
                    x == 0 || x == 1,
                    z == 0 || z == 1,
            ;
        }
        lemma_total_cond(vbit(v, t) == 1, f, gt, d);
        assert(rg(t) == total(gt, d));
        let gd = gf2_dot(a, m, i, t, d);
        let tf = total(f, d);
        assert(gd == tf % 2);
        let z = vbit(v, t);
        assert(q(t) == gd * z);
        assert((if z == 1 { tf } else { 0 }) % 2 == ((tf % 2) * z) % 2) by (nonlinear_arith)
            requires
                z == 0 || z == 1,
        ;
    }
    lemma_total_mod2(rg, q, d);
}

/// Where `w` holds, in its low bits, the parities that the rows of `m` select
/// from `v`, row `i` of a left inverse `a` of `m` selects bit `i` of `v` from `w`.
proof fn lemma_parity_of_unit(v: u64, w: u64, m: Seq<Seq<u8>>, a: Seq<Seq<u8>>, i: int)
    requires
        m.len() < 64,
        a.len() == m.len(),
        gf2_unit(a, m, m.len() as int),
        0 <= i < m.len(),
        forall|j: int| 0 <= j < m.len() ==> #[trigger] vbit(w, j) == row_parity(v, m[j], m.len() as int) as int,
    ensures
        row_parity(w, a[i], m.len() as int) as int == vbit(v, i),
{
    let d = m.len() as int;
    lemma_parity_of_image(v, w, m, a, i);
    let q = product_terms(a, m, i, v);
    let pt = |t: int| if t == i { vbit(v, i) } else { 0int };
    assert forall|t: int| 0 <= t < d implies #[trigger] q(t) == pt(t) by {
        assert(gf2_dot(a, m, i, t, d) == if i == t { 1int } else { 0int });
    }
    crate::layout::gf2::lemma_total_ext(q, pt, d);
    let z = |t: int| 0int;
    assert forall|t: int| 0 <= t < d && t != i implies #[trigger] pt(t) == z(t) by {}
    lemma_total_point(pt, z, d, i);
    lemma_total_zero(z, d);
    lemma_vbit_small(v, i);
}

proof fn lemma_low_image_undone(v: u64, w: u64, m: Seq<Seq<u8>>, a: Seq<Seq<u8>>, k: int)
    requires
        m.len() < 64,
        a.len() == m.len(),
        gf2_unit(a, m, m.len() as int),
        0 <= k <= m.len(),
        forall|j: int| 0 <= j < m.len() ==> #[trigger] vbit(w, j) == row_parity(v, m[j], m.len() as int) as int,
    ensures
        low_image(w, a, k) == v & (((1u64 << (k as u64)) - 1u64) as u64),
    decreases k,
{
    if k == 0 {
        assert(v & (((1u64 << 0u64) - 1u64) as u64) == 0u64) by (bit_vector);
    } else {
        lemma_low_image_undone(v, w, m, a, k - 1);
        let s = (k - 1) as u64;
        lemma_parity_of_unit(v, w, m, a, k - 1);
        lemma_row_parity(w, a[k - 1], m.len() as int);
        let p = row_parity(w, a[k - 1], m.len() as int);
        assert(p == (v >> s) & 1u64);
        assert(low_image(w, a, k) == (v & (((1u64 << s) - 1u64) as u64)) | (p << s));
        assert(((v & (((1u64 << s) - 1u64) as u64)) | (((v >> s) & 1u64) << s)) == v & (((1u64 << ((s + 1) as u64))
            - 1u64) as u64)) by (bit_vector)
            requires
                s < 63,
        ;
        assert(((s + 1) as u64) == k as u64);
    }
}

/// The bit-linear map of a left inverse over GF(2) undoes the bit-linear map
/// of `m`.
pub proof fn lemma_bit_linear_undone(v: u64, m: Seq<Seq<u8>>, a: Seq<Seq<u8>>)
    requires
        m.len() < 64,
        a.len() == m.len(),
        gf2_unit(a, m, m.len() as int),
    ensures
        bit_linear(bit_linear(v, m), a) == v,
{
    let d = m.len() as int;
    let w = bit_linear(v, m);
    lemma_bit_linear_bits(v, m);
    lemma_low_image_undone(v, w, m, a, d);
    lemma_low_image(w, a, d);
    let lo = low_image(w, a, d);
    let du = d as u64;
    assert(w & !low_mask(m.len()) == v & !low_mask(m.len()));
    assert(bit_linear(w, a) == lo | (w & !low_mask(m.len())));
    assert(lo == v & (((1u64 << du) - 1u64) as u64));
    assert(((v & (((1u64 << du) - 1u64) as u64)) | (v & !(((1u64 << du) - 1u64) as u64))) == v) by (bit_vector)
        requires
            du < 64,
    ;
}

/// The inverse of an invertible binary shadow undoes it: where the shadow
/// maps a point without panic, the shadow of the inverse matrix over GF(2)
/// maps the image back to the point, without panic.
pub proof fn lemma_inverse_undoes_shadow(s: SpaceV, m: Seq<Seq<u8>>, vars: Map<Seq<char>, u64>, coords: Seq<u64>)
    requires
        gf2_inverse(m) is Some,
        expr_apply_ok(ExprV::BinaryShadow(s, m), vars, coords),
        expr_apply(ExprV::BinaryShadow(s, m), vars, coords) is Some,
    ensures
        expr_inverse(ExprV::BinaryShadow(s, m)) is Some,
        expr_apply_ok(
            expr_inverse(ExprV::BinaryShadow(s, m))->0,
            vars,
            expr_apply(ExprV::BinaryShadow(s, m), vars, coords)->0,
        ),
        expr_apply(
            expr_inverse(ExprV::BinaryShadow(s, m))->0,
            vars,
            expr_apply(ExprV::BinaryShadow(s, m), vars, coords)->0,
        ) == Some(coords),
{
    let e = ExprV::BinaryShadow(s, m);
    let a = gf2_inverse(m)->0;
    assert(is_gf2_inverse(a, m));
    let d = m.len();
    let oe = opt_extents(s, vars);
    assert(valid_coords(s, vars, coords));
    assert(bit_linear_ok(m));
    lemma_delinearize_linearize(s, vars, coords);
    let o = spec_linearize(s, vars, coords)->0;
    let w = bit_linear(o, m);
    assert(spec_delinearize(oe, w) is Some);
    let y = spec_delinearize(oe, w)->0;
    assert(expr_apply(e, vars, coords) == Some(y));
    lemma_linearize_delinearize(s, vars, w);
    assert(valid_coords(s, vars, y));
    assert(spec_linearize(s, vars, y)->0 == w);
    lemma_bit_linear_undone(o, m, a);
    let inv = ExprV::BinaryShadow(s, a);
    assert(expr_inverse(e) == Some(inv));
    assert(bit_linear_ok(a));
    assert(expr_apply(inv, vars, y) == spec_delinearize(oe, bit_linear(w, a)));
}

proof fn lemma_low_image_agree(v: u64, w: u64, mv: Seq<Seq<u8>>, mw: Seq<Seq<u8>>, k: int)
    requires
        mv.len() == mw.len(),
        0 <= k <= mv.len(),
        forall|j: int| 0 <= j < mv.len() ==> #[trigger] row_parity(w, mw[j], mw.len() as int) == row_parity(
            v,
            mv[j],
            mv.len() as int,
        ),
    ensures
        low_image(w, mw, k) == low_image(v, mv, k),
    decreases k,
{
    if k > 0 {
        lemma_low_image_agree(v, w, mv, mw, k - 1);
        assert(row_parity(w, mw[k - 1], mw.len() as int) == row_parity(v, mv[k - 1], mv.len() as int));
    }
}

/// Bit-linear maps compose as matrices over GF(2): the map of `m1`, then the
/// map of `m2`, is the map of a matrix `p` whose entries have the bits of the
/// product `m2 m1`.
pub proof fn lemma_bit_linear_compose(v: u64, m1: Seq<Seq<u8>>, m2: Seq<Seq<u8>>, p: Seq<Seq<u8>>)
    requires
        m1.len() < 64,
        m2.len() == m1.len(),
        p.len() == m1.len(),
        forall|i: int, t: int|
            0 <= i < m1.len() && 0 <= t < m1.len() ==> #[trigger] bit(p[i][t]) == gf2_dot(
                m2,
                m1,
                i,
                t,
                m1.len() as int,
            ),
    ensures
        bit_linear(bit_linear(v, m1), m2) == bit_linear(v, p),
{
    let d = m1.len() as int;
    let w = bit_linear(v, m1);
    lemma_bit_linear_bits(v, m1);
    assert forall|i: int| 0 <= i < d implies #[trigger] row_parity(w, m2[i], d) == row_parity(v, p[i], d) by {
        lemma_parity_of_image(v, w, m1, m2, i);
        lemma_row_parity(v, p[i], d);
        lemma_row_parity(w, m2[i], d);
        let f = parity_terms(v, p[i]);
        let g = product_terms(m2, m1, i, v);
        assert forall|t: int| 0 <= t < d implies #[trigger] f(t) == g(t) by {
            assert(bit(p[i][t]) == gf2_dot(m2, m1, i, t, d));
        }
        crate::layout::gf2::lemma_total_ext(f, g, d);
    }
    lemma_low_image_agree(v, w, p, m2, d);
    assert(w & !low_mask(m1.len()) == v & !low_mask(m1.len()));
}

/// The layouts whose inverse is shown to undo them: identities,
/// linearizations, delinearizations, permutations (of all the dimensions),
/// reshapes, binary shadows, and compositions and products of them, each
/// composition with an inner target of as many dimensions as the outer
/// source.
pub open spec fn inverse_covered(e: ExprV) -> bool
    decreases e,
{
    match e {
        ExprV::Composition(l1, l2) => {
            &&& inverse_covered(*l1)
            &&& inverse_covered(*l2)
            &&& expr_target(*l1).len() == expr_source(*l2).len()
        },
        ExprV::Product(l1, l2) => inverse_covered(*l1) && inverse_covered(*l2),
        ExprV::Permute(s, p) => is_permutation(p, s.len() as int) && p.len() <= usize::MAX,
        ExprV::Identity(_) => true,
        ExprV::Linearize(_) => true,
        ExprV::Delinearize(_) => true,
        ExprV::Reshape(_, _) => true,
        ExprV::BinaryShadow(_, _) => true,
        _ => false,
    }
}

/// On the covered layouts, the image of a point with as many coordinates as
/// the source has dimensions has as many as the target.
proof fn lemma_image_len(e: ExprV, vars: Map<Seq<char>, u64>, x: Seq<u64>)
    requires
        inverse_covered(e),
        x.len() == expr_source(e).len(),
        expr_apply(e, vars, x) is Some,
    ensures
        expr_apply(e, vars, x)->0.len() == expr_target(e).len(),
    decreases e,
{
    match e {
        ExprV::Composition(l1, l2) => {
            lemma_image_len(*l1, vars, x);
            lemma_image_len(*l2, vars, expr_apply(*l1, vars, x)->0);
        },
        ExprV::Product(l1, l2) => {
            let n1 = expr_source(*l1).len() as int;
            lemma_image_len(*l1, vars, x.take(n1));
            lemma_image_len(*l2, vars, x.skip(n1));
        },
        ExprV::Permute(s, p) => {
            let zeros = Seq::new(s.len(), |i: int| 0u64);
            lemma_scatter_len(zeros, x, p, p.len() as int);
            let blanks = Seq::new(s.len(), |j: int| crate::space::blank_factor());
            lemma_scatter_len(blanks, s, p, p.len() as int);
        },
        _ => {},
    }
}

/// On the covered layouts, the inverse maps from the target.
proof fn lemma_inverse_source(e: ExprV)
    requires
        inverse_covered(e),
        expr_inverse(e) is Some,
    ensures
        expr_source(expr_inverse(e)->0) == expr_target(e),
    decreases e,
{
    match e {
        ExprV::Composition(l1, l2) => {
            lemma_inverse_source(*l2);
        },
        ExprV::Product(l1, l2) => {
            lemma_inverse_source(*l1);
            lemma_inverse_source(*l2);
        },
        _ => {},
    }
}

proof fn lemma_inverse_product(l1: ExprV, l2: ExprV, vars: Map<Seq<char>, u64>, x: Seq<u64>)
    requires
        inverse_covered(l1),
        expr_inverse(l1) is Some,
        expr_inverse(l2) is Some,
        expr_source(l1).len() <= x.len(),
        expr_apply(l1, vars, x.take(expr_source(l1).len() as int)) is Some,
        expr_apply(l2, vars, x.skip(expr_source(l1).len() as int)) is Some,
        expr_apply(
            expr_inverse(l1)->0,
            vars,
            expr_apply(l1, vars, x.take(expr_source(l1).len() as int))->0,
        ) == Some(x.take(expr_source(l1).len() as int)),
        expr_apply(
            expr_inverse(l2)->0,
            vars,
            expr_apply(l2, vars, x.skip(expr_source(l1).len() as int))->0,
        ) == Some(x.skip(expr_source(l1).len() as int)),
    ensures
        expr_apply(
            ExprV::Product(Box::new(expr_inverse(l1)->0), Box::new(expr_inverse(l2)->0)),
            vars,
            expr_apply(l1, vars, x.take(expr_source(l1).len() as int))->0 + expr_apply(
                l2,
                vars,
                x.skip(expr_source(l1).len() as int),
            )->0,
        ) == Some(x),
{
    let i1 = expr_inverse(l1)->0;
    let n1 = expr_source(l1).len() as int;
    let x1 = x.take(n1);
    let x2 = x.skip(n1);
    let o1 = expr_apply(l1, vars, x1)->0;
    let o2 = expr_apply(l2, vars, x2)->0;
    lemma_image_len(l1, vars, x1);
    lemma_inverse_source(l1);
    assert(expr_source(i1).len() == o1.len());
    assert((o1 + o2).take(o1.len() as int) =~= o1);
    assert((o1 + o2).skip(o1.len() as int) =~= o2);
    assert(x1 + x2 =~= x);
}

/// On the covered layouts (see [`inverse_covered`]) that have an inverse, the
/// inverse takes the image of every point that the layout maps without panic
/// back to that point: a composition is undone by inverting its last part
/// first.
pub proof fn lemma_inverse_undoes(e: ExprV, vars: Map<Seq<char>, u64>, x: Seq<u64>)
    requires
        inverse_covered(e),
        expr_inverse(e) is Some,
        expr_apply_ok(e, vars, x),
        expr_apply(e, vars, x) is Some,
    ensures
        expr_apply(expr_inverse(e)->0, vars, expr_apply(e, vars, x)->0) == Some(x),
    decreases e,
{
    match e {
        ExprV::Composition(l1, l2) => {
            let m = expr_apply(*l1, vars, x)->0;
            lemma_inverse_undoes(*l1, vars, x);
            lemma_inverse_undoes(*l2, vars, m);
        },
        ExprV::Product(l1, l2) => {
            let n1 = expr_source(*l1).len() as int;
            lemma_inverse_undoes(*l1, vars, x.take(n1));
            lemma_inverse_undoes(*l2, vars, x.skip(n1));
            lemma_inverse_product(*l1, *l2, vars, x);
        },
        ExprV::Identity(_) => {},
        ExprV::Linearize(s) => {
            lemma_inverse_undoes_linearize(s, vars, x);
        },
        ExprV::Delinearize(s) => {
            assert(x =~= seq![x[0]]);
            lemma_inverse_undoes_delinearize(s, vars, x[0]);
        },
        ExprV::Permute(s, p) => {
            lemma_inverse_undoes_permute(s, p, vars, x);
        },
        ExprV::Reshape(s, t) => {
            lemma_inverse_undoes_reshape(s, t, vars, x);
        },
        ExprV::BinaryShadow(s, m) => {
            lemma_inverse_undoes_shadow(s, m, vars, x);
        },
        _ => {},
    }
}

} // verus!
