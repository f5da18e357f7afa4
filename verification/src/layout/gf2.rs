//! Matrices over GF(2) and their inversion by Gauss-Jordan elimination.
use vstd::prelude::*;
use crate::layout::scalar::{matrix_view, rows_view, lemma_rows_push};
use crate::layout::expr::copy_seq;

verus! {

/// The sum of `f(t)` for `0 <= t < n`.
pub open spec fn total(f: spec_fn(int) -> int, n: int) -> int
    decreases n,
{
    if n <= 0 {
        0
    } else {
        total(f, n - 1) + f(n - 1)
    }
}

/// The element of GF(2) that a byte stands for: its low bit.
pub open spec fn bit(x: u8) -> int {
    (x % 2) as int
}

/// The terms of the dot product of the row `u` with column `j` of `b`.
pub open spec fn row_times(u: Seq<u8>, b: Seq<Seq<u8>>, j: int) -> spec_fn(int) -> int {
    |t: int| if bit(u[t]) == 1 { bit(b[t][j]) } else { 0int }
}

/// Entry `(i, j)` of the product over GF(2) of the `n x n` matrices `a` and
/// `b`, of the low bits of their entries.
pub open spec fn gf2_dot(a: Seq<Seq<u8>>, b: Seq<Seq<u8>>, i: int, j: int, n: int) -> int {
    total(row_times(a[i], b, j), n) % 2
}

/// The product over GF(2) of two `n x n` matrices.
pub open spec fn gf2_mul(a: Seq<Seq<u8>>, b: Seq<Seq<u8>>, n: nat) -> Seq<Seq<u8>> {
    Seq::new(n, |i: int| Seq::new(n, |j: int| gf2_dot(a, b, i, j, n as int) as u8))
}

/// The `n x n` identity matrix.
pub open spec fn gf2_identity(n: nat) -> Seq<Seq<u8>> {
    Seq::new(n, |i: int| Seq::new(n, |j: int| if i == j { 1u8 } else { 0u8 }))
}

/// `a` is an `n x n` matrix of zeros and ones.
pub open spec fn is_bit_matrix(a: Seq<Seq<u8>>, n: nat) -> bool {
    &&& a.len() == n
    &&& forall|i: int| 0 <= i < n ==> (#[trigger] a[i]).len() == n
    &&& forall|i: int, j: int| 0 <= i < n && 0 <= j < n ==> #[trigger] a[i][j] <= 1
}

/// Over GF(2), the `n x n` product `a b` is the identity.
pub open spec fn gf2_unit(a: Seq<Seq<u8>>, b: Seq<Seq<u8>>, n: int) -> bool {
    forall|i: int, j: int|
        0 <= i < n && 0 <= j < n ==> #[trigger] gf2_dot(a, b, i, j, n) == if i == j {
            1int
        } else {
            0int
        }
}

/// `a` is the inverse over GF(2) of the square matrix `m` (of the low bits of
/// its entries), written as a matrix of zeros and ones.
pub open spec fn is_gf2_inverse(a: Seq<Seq<u8>>, m: Seq<Seq<u8>>) -> bool {
    let n = m.len();
    &&& is_bit_matrix(a, n)
    &&& gf2_unit(a, m, n as int)
    &&& gf2_unit(m, a, n as int)
}

/// The inverse over GF(2) of the square matrix `m`, if `m` is invertible.
pub open spec fn gf2_inverse(m: Seq<Seq<u8>>) -> Option<Seq<Seq<u8>>> {
    if exists|a: Seq<Seq<u8>>| is_gf2_inverse(a, m) {
        Some(choose|a: Seq<Seq<u8>>| is_gf2_inverse(a, m))
    } else {
        None
    }
}

/// Every row of `m` is at least as long as `m` has rows.
pub open spec fn rows_cover(m: Seq<Seq<u8>>) -> bool {
    forall|i: int| 0 <= i < m.len() ==> (#[trigger] m[i]).len() >= m.len()
}

pub proof fn lemma_total_ext(f: spec_fn(int) -> int, g: spec_fn(int) -> int, n: int)
    requires
        forall|t: int| 0 <= t < n ==> #[trigger] f(t) == g(t),
    ensures
        total(f, n) == total(g, n),
    decreases n,
{
    if n > 0 {
        lemma_total_ext(f, g, n - 1);
    }
}

pub proof fn lemma_total_mod2(f: spec_fn(int) -> int, g: spec_fn(int) -> int, n: int)
    requires
        forall|t: int| 0 <= t < n ==> #[trigger] f(t) % 2 == g(t) % 2,
    ensures
        total(f, n) % 2 == total(g, n) % 2,
    decreases n,
{
    if n > 0 {
        lemma_total_mod2(f, g, n - 1);
        let a = total(f, n - 1);
        let b = total(g, n - 1);
        let x = f(n - 1);
        let y = g(n - 1);
        assert((a + x) % 2 == (b + y) % 2) by (nonlinear_arith)
            requires
                a % 2 == b % 2,
                x % 2 == y % 2,
        ;
    }
}

pub proof fn lemma_total_zero(f: spec_fn(int) -> int, n: int)
    requires
        forall|t: int| 0 <= t < n ==> #[trigger] f(t) == 0,
    ensures
        total(f, n) == 0,
    decreases n,
{
    if n > 0 {
        lemma_total_zero(f, n - 1);
    }
}

pub proof fn lemma_total_point(f: spec_fn(int) -> int, g: spec_fn(int) -> int, n: int, p: int)
    requires
        0 <= p < n,
        forall|t: int| 0 <= t < n && t != p ==> #[trigger] f(t) == g(t),
    ensures
        total(f, n) == total(g, n) - g(p) + f(p),
    decreases n,
{
    if p < n - 1 {
        lemma_total_point(f, g, n - 1, p);
    } else {
        lemma_total_ext(f, g, n - 1);
    }
}

proof fn lemma_total_two(f: spec_fn(int) -> int, g: spec_fn(int) -> int, n: int, p: int, q: int)
    requires
        0 <= p < n,
        0 <= q < n,
        p != q,
        forall|t: int| 0 <= t < n && t != p && t != q ==> #[trigger] f(t) == g(t),
    ensures
        total(f, n) == total(g, n) - g(p) - g(q) + f(p) + f(q),
{
    let h = |t: int| if t == p { f(p) } else { g(t) };
    lemma_total_point(h, g, n, p);
    lemma_total_point(f, h, n, q);
}

proof fn lemma_total_add(f: spec_fn(int) -> int, g: spec_fn(int) -> int, h: spec_fn(int) -> int, n: int)
    requires
        forall|t: int| 0 <= t < n ==> #[trigger] h(t) == f(t) + g(t),
    ensures
        total(h, n) == total(f, n) + total(g, n),
    decreases n,
{
    if n > 0 {
        lemma_total_add(f, g, h, n - 1);
    }
}

pub proof fn lemma_total_cond(c: bool, f: spec_fn(int) -> int, h: spec_fn(int) -> int, n: int)
    requires
        forall|t: int| 0 <= t < n ==> #[trigger] h(t) == if c { f(t) } else { 0 },
    ensures
        total(h, n) == if c { total(f, n) } else { 0 },
    decreases n,
{
    if n > 0 {
        lemma_total_cond(c, f, h, n - 1);
    }
}

/// The sums over rows, then columns, of `g` equal its sums over columns,
/// then rows.
pub proof fn lemma_total_swap(g: spec_fn(int, int) -> int, n: int, m: int)
    ensures
        total(|k: int| total(|t: int| g(k, t), m), n) == total(
            |t: int| total(|k: int| g(k, t), n),
            m,
        ),
    decreases n,
{
    if n > 0 {
        lemma_total_swap(g, n - 1, m);
        let rows_n = |t: int| total(|k: int| g(k, t), n);
        let rows_p = |t: int| total(|k: int| g(k, t), n - 1);
        let last = |t: int| g(n - 1, t);
        assert forall|t: int| 0 <= t < m implies #[trigger] rows_n(t) == rows_p(t) + last(t) by {}
        lemma_total_add(rows_p, last, rows_n, m);
        let outer = |k: int| total(|t: int| g(k, t), m);
        assert(outer(n - 1) == total(last, m)) by {
            lemma_total_ext(|t: int| g(n - 1, t), last, m);
        }
        assert(total(outer, n) == total(outer, n - 1) + outer(n - 1));
        assert(total(outer, n - 1) == total(rows_p, m));
    } else {
        let rows_n = |t: int| total(|k: int| g(k, t), n);
        assert forall|t: int| 0 <= t < m implies #[trigger] rows_n(t) == 0 by {}
        lemma_total_zero(rows_n, m);
    }
}


pub proof fn lemma_bit_small(x: u8)
    ensures
        0 <= bit(x) <= 1,
        x <= 1 ==> bit(x) == x,
{
}

/// The identity is a left unit of the product over GF(2).
proof fn lemma_identity_left(b: Seq<Seq<u8>>, n: nat, r: int, c: int)
    requires
        0 <= r < n,
    ensures
        gf2_dot(gf2_identity(n), b, r, c, n as int) == bit(b[r][c]),
{
    let f = row_times(gf2_identity(n)[r], b, c);
    let z = |t: int| 0int;
    assert forall|t: int| 0 <= t < n && t != r implies #[trigger] f(t) == z(t) by {}
    lemma_total_point(f, z, n as int, r);
    lemma_total_zero(z, n as int);
    lemma_bit_small(b[r][c]);
}

/// The identity is a right unit of the product over GF(2).
proof fn lemma_identity_right(a: Seq<Seq<u8>>, n: nat, r: int, c: int)
    requires
        0 <= c < n,
    ensures
        gf2_dot(a, gf2_identity(n), r, c, n as int) == bit(a[r][c]),
{
    let f = row_times(a[r], gf2_identity(n), c);
    let z = |t: int| 0int;
    assert forall|t: int| 0 <= t < n && t != c implies #[trigger] f(t) == z(t) by {}
    lemma_total_point(f, z, n as int, c);
    lemma_total_zero(z, n as int);
    lemma_bit_small(a[r][c]);
}

/// A product that is the identity entry by entry is the identity matrix.
proof fn lemma_unit_is_identity(a: Seq<Seq<u8>>, b: Seq<Seq<u8>>, n: nat)
    requires
        gf2_unit(a, b, n as int),
    ensures
        gf2_mul(a, b, n) == gf2_identity(n),
{
    let p = gf2_mul(a, b, n);
    let id = gf2_identity(n);
    assert forall|i: int| 0 <= i < n implies #[trigger] p[i] == id[i] by {
        assert forall|j: int| 0 <= j < n implies #[trigger] p[i][j] == id[i][j] by {
            assert(gf2_dot(a, b, i, j, n as int) == if i == j { 1int } else { 0int });
        }
        assert(p[i] =~= id[i]);
    }
    assert(p =~= id);
}

/// The product over GF(2) is associative.
pub proof fn lemma_gf2_assoc(
    a: Seq<Seq<u8>>,
    b: Seq<Seq<u8>>,
    c: Seq<Seq<u8>>,
    n: nat,
    i: int,
    j: int,
)
    requires
        0 <= i < n,
        0 <= j < n,
    ensures
        gf2_dot(gf2_mul(a, b, n), c, i, j, n as int) == gf2_dot(a, gf2_mul(b, c, n), i, j, n as int),
{
    let ni = n as int;
    let ab = gf2_mul(a, b, n);
    let bc = gf2_mul(b, c, n);
    let g = |k: int, t: int|
        if bit(c[k][j]) == 1 && bit(a[i][t]) == 1 && bit(b[t][k]) == 1 {
            1int
        } else {
            0int
        };
    let lt = row_times(ab[i], c, j);
    let lg = |k: int| total(|t: int| g(k, t), ni);
    assert forall|k: int| 0 <= k < ni implies #[trigger] lt(k) % 2 == lg(k) % 2 by {
        let inner = row_times(a[i], b, k);
        let gk = |t: int| g(k, t);
        assert forall|t: int| 0 <= t < ni implies #[trigger] gk(t) == if bit(c[k][j]) == 1 {
            inner(t)
        } else {
            0
        } by {
            lemma_bit_small(b[t][k]);
        }
        lemma_total_cond(bit(c[k][j]) == 1, inner, gk, ni);
        assert(ab[i][k] as int == total(inner, ni) % 2);
        lemma_bit_small(c[k][j]);
    }
    lemma_total_mod2(lt, lg, ni);
    let rt = row_times(a[i], bc, j);
    let rg = |t: int| total(|k: int| g(k, t), ni);
    assert forall|t: int| 0 <= t < ni implies #[trigger] rt(t) % 2 == rg(t) % 2 by {
        let inner = row_times(b[t], c, j);
        let gt = |k: int| g(k, t);
        assert forall|k: int| 0 <= k < ni implies #[trigger] gt(k) == if bit(a[i][t]) == 1 {
            inner(k)
        } else {
            0
        } by {
            lemma_bit_small(c[k][j]);
        }
        lemma_total_cond(bit(a[i][t]) == 1, inner, gt, ni);
        assert(bc[t][j] as int == total(inner, ni) % 2);
    }
    lemma_total_mod2(rt, rg, ni);
    lemma_total_swap(g, ni, ni);
}

/// A square matrix has at most one inverse over GF(2).
pub proof fn lemma_gf2_inverse_unique(a1: Seq<Seq<u8>>, a2: Seq<Seq<u8>>, m: Seq<Seq<u8>>)
    requires
        is_gf2_inverse(a1, m),
        is_gf2_inverse(a2, m),
    ensures
        a1 == a2,
{
    let n = m.len();
    lemma_unit_is_identity(m, a2, n);
    lemma_unit_is_identity(a1, m, n);
    assert forall|r: int| 0 <= r < n implies #[trigger] a1[r] == a2[r] by {
        assert forall|c: int| 0 <= c < n implies #[trigger] a1[r][c] == a2[r][c] by {
            lemma_identity_right(a1, n, r, c);
            lemma_identity_left(a2, n, r, c);
            lemma_gf2_assoc(a1, m, a2, n, r, c);
            lemma_bit_small(a1[r][c]);
            lemma_bit_small(a2[r][c]);
        }
        assert(a1[r] =~= a2[r]);
    }
    assert(a1 =~= a2);
}

/// The inverse, where there is one, is the one `gf2_inverse` names.
proof fn lemma_gf2_inverse_is(a: Seq<Seq<u8>>, m: Seq<Seq<u8>>)
    requires
        is_gf2_inverse(a, m),
    ensures
        gf2_inverse(m) == Some(a),
{
    let c = choose|x: Seq<Seq<u8>>| is_gf2_inverse(x, m);
    lemma_gf2_inverse_unique(c, a, m);
}


/// The right half (columns `n..2n`) of an `n x 2n` matrix.
spec fn right_half(am: Seq<Seq<u8>>, n: int) -> Seq<Seq<u8>> {
    Seq::new(n as nat, |r: int| am[r].subrange(n, 2 * n))
}

/// `am` is an `n x 2n` matrix of zeros and ones.
spec fn aug_shape(am: Seq<Seq<u8>>, n: int) -> bool {
    &&& am.len() == n
    &&& forall|r: int| 0 <= r < n ==> (#[trigger] am[r]).len() == 2 * n
    &&& forall|r: int, c: int| 0 <= r < n && 0 <= c < 2 * n ==> #[trigger] am[r][c] <= 1
}

/// The left half of `am` is its right half times `m`.
spec fn tracks(am: Seq<Seq<u8>>, m: Seq<Seq<u8>>, n: int) -> bool {
    forall|r: int, c: int|
        0 <= r < n && 0 <= c < n ==> #[trigger] am[r][c] as int == gf2_dot(
            right_half(am, n),
            m,
            r,
            c,
            n,
        )
}

/// The first `i` columns of `am` are those of the identity.
spec fn unit_cols(am: Seq<Seq<u8>>, n: int, i: int) -> bool {
    forall|r: int, k: int|
        0 <= r < n && 0 <= k < i ==> #[trigger] am[r][k] == if r == k {
            1u8
        } else {
            0u8
        }
}

/// The sum over GF(2) of two rows.
spec fn xor_row(u: Seq<u8>, v: Seq<u8>) -> Seq<u8> {
    Seq::new(u.len(), |k: int| u[k] ^ v[k])
}

/// `s` with column `j` added to column `i`.
spec fn col_add(s: Seq<Seq<u8>>, i: int, j: int) -> Seq<Seq<u8>> {
    Seq::new(s.len(), |r: int| s[r].update(i, s[r][i] ^ s[r][j]))
}

/// `s` with columns `i` and `p` exchanged.
spec fn col_swap(s: Seq<Seq<u8>>, i: int, p: int) -> Seq<Seq<u8>> {
    Seq::new(s.len(), |r: int| s[r].update(i, s[r][p]).update(p, s[r][i]))
}

/// The matrix `m` beside the identity, with only the low bits of `m`.
spec fn initial_aug(m: Seq<Seq<u8>>, n: int) -> Seq<Seq<u8>> {
    Seq::new(
        n as nat,
        |r: int|
            Seq::new(
                (2 * n) as nat,
                |c: int|
                    if c < n {
                        m[r][c] & 1
                    } else if c - n == r {
                        1u8
                    } else {
                        0u8
                    },
            ),
    )
}

proof fn lemma_xor01(x: u8, y: u8)
    requires
        x <= 1,
        y <= 1,
    ensures
        x ^ y == if x == y { 0u8 } else { 1u8 },
{
    assert(x <= 1 && y <= 1 ==> x ^ y == if x == y { 0u8 } else { 1u8 }) by (bit_vector);
}

proof fn lemma_low_bit(x: u8)
    ensures
        x & 1 == x % 2,
{
    assert(x & 1 == x % 2) by (bit_vector);
}

/// The elimination starts from states that satisfy its invariants.
proof fn lemma_initial(m: Seq<Seq<u8>>, n: nat)
    requires
        m.len() == n,
        rows_cover(m),
    ensures
        aug_shape(initial_aug(m, n as int), n as int),
        tracks(initial_aug(m, n as int), m, n as int),
        unit_cols(initial_aug(m, n as int), n as int, 0),
        right_half(initial_aug(m, n as int), n as int) == gf2_identity(n),
        gf2_unit(gf2_identity(n), gf2_identity(n), n as int),
        is_bit_matrix(gf2_identity(n), n),
{
    let ni = n as int;
    let am = initial_aug(m, ni);
    assert forall|r: int, c: int| 0 <= r < ni && 0 <= c < 2 * ni implies #[trigger] am[r][c] <= 1 by {
        if c < ni {
            lemma_low_bit(m[r][c]);
        }
    }
    let rh = right_half(am, ni);
    let id = gf2_identity(n);
    assert forall|r: int| 0 <= r < ni implies #[trigger] rh[r] == id[r] by {
        assert(rh[r] =~= id[r]);
    }
    assert(rh =~= id);
    assert forall|r: int, c: int| 0 <= r < ni && 0 <= c < ni implies #[trigger] am[r][c] as int
        == gf2_dot(right_half(am, ni), m, r, c, ni) by {
        lemma_identity_left(m, n, r, c);
        lemma_low_bit(m[r][c]);
    }
    assert forall|r: int, c: int| 0 <= r < ni && 0 <= c < ni implies #[trigger] gf2_dot(
        id,
        id,
        r,
        c,
        ni,
    ) == if r == c {
        1int
    } else {
        0int
    } by {
        lemma_identity_left(id, n, r, c);
    }
}

/// Adding row `i` to row `j` (and column `j` of `s` to its column `i`) keeps
/// the invariants.
proof fn lemma_row_add(am: Seq<Seq<u8>>, m: Seq<Seq<u8>>, s: Seq<Seq<u8>>, n: nat, i: int, j: int)
    requires
        aug_shape(am, n as int),
        tracks(am, m, n as int),
        is_bit_matrix(s, n),
        gf2_unit(s, right_half(am, n as int), n as int),
        0 <= i < n,
        0 <= j < n,
        i != j,
    ensures
        aug_shape(am.update(j, xor_row(am[j], am[i])), n as int),
        tracks(am.update(j, xor_row(am[j], am[i])), m, n as int),
        is_bit_matrix(col_add(s, i, j), n),
        gf2_unit(
            col_add(s, i, j),
            right_half(am.update(j, xor_row(am[j], am[i])), n as int),
            n as int,
        ),
{
    let ni = n as int;
    let am2 = am.update(j, xor_row(am[j], am[i]));
    let b = right_half(am, ni);
    let b2 = right_half(am2, ni);
    let s2 = col_add(s, i, j);
    assert forall|r: int, c: int| 0 <= r < ni && 0 <= c < 2 * ni implies #[trigger] am2[r][c] <= 1 by {
        if r == j {
            lemma_xor01(am[j][c], am[i][c]);
        }
    }
    assert forall|r: int| 0 <= r < ni && r != j implies #[trigger] b2[r] == b[r] by {
        assert(b2[r] =~= b[r]);
    }
    assert forall|t: int, c: int| 0 <= t < ni && 0 <= c < ni implies #[trigger] b2[t][c] == if t == j {
        b[j][c] ^ b[i][c]
    } else {
        b[t][c]
    } by {}
    assert forall|r: int, c: int| 0 <= r < ni && 0 <= c < ni implies #[trigger] am2[r][c] as int
        == gf2_dot(b2, m, r, c, ni) by {
        if r == j {
            let fj = row_times(b[j], m, c);
            let fi = row_times(b[i], m, c);
            let f2 = row_times(b2[j], m, c);
            let h = |t: int| fj(t) + fi(t);
            assert forall|t: int| 0 <= t < ni implies #[trigger] f2(t) % 2 == h(t) % 2 by {
                lemma_xor01(b[j][t], b[i][t]);
                lemma_bit_small(m[t][c]);
            }
            lemma_total_mod2(f2, h, ni);
            lemma_total_add(fj, fi, h, ni);
            lemma_xor01(am[j][c], am[i][c]);
            let x = total(fj, ni);
            let y = total(fi, ni);
            assert((x % 2 + y % 2) % 2 == (x + y) % 2) by (nonlinear_arith);
        }
    }
    assert forall|r: int| 0 <= r < ni implies (#[trigger] s2[r]).len() == ni by {}
    assert forall|r: int, c: int| 0 <= r < ni && 0 <= c < ni implies #[trigger] s2[r][c] <= 1 by {
        if c == i {
            lemma_xor01(s[r][i], s[r][j]);
        }
    }
    assert forall|r: int, c: int| 0 <= r < ni && 0 <= c < ni implies #[trigger] gf2_dot(
        s2,
        b2,
        r,
        c,
        ni,
    ) == if r == c {
        1int
    } else {
        0int
    } by {
        let f = row_times(s[r], b, c);
        let f2 = row_times(s2[r], b2, c);
        assert forall|t: int| 0 <= t < ni && t != i && t != j implies #[trigger] f2(t) == f(t) by {}
        lemma_total_two(f2, f, ni, i, j);
        lemma_xor01(s[r][i], s[r][j]);
        lemma_xor01(b[j][c], b[i][c]);
        assert(gf2_dot(s, b, r, c, ni) == total(f, ni) % 2);
        let x = total(f, ni);
        let d = f2(i) + f2(j) - f(i) - f(j);
        assert(d % 2 == 0);
        assert((x + d) % 2 == x % 2) by (nonlinear_arith)
            requires
                d % 2 == 0,
        ;
    }
}

/// Exchanging rows `i` and `p` (and columns `i` and `p` of `s`) keeps the
/// invariants.
proof fn lemma_row_swap(am: Seq<Seq<u8>>, m: Seq<Seq<u8>>, s: Seq<Seq<u8>>, n: nat, i: int, p: int)
    requires
        aug_shape(am, n as int),
        tracks(am, m, n as int),
        is_bit_matrix(s, n),
        gf2_unit(s, right_half(am, n as int), n as int),
        0 <= i < n,
        0 <= p < n,
        i != p,
    ensures
        aug_shape(am.update(i, am[p]).update(p, am[i]), n as int),
        tracks(am.update(i, am[p]).update(p, am[i]), m, n as int),
        is_bit_matrix(col_swap(s, i, p), n),
        gf2_unit(col_swap(s, i, p), right_half(am.update(i, am[p]).update(p, am[i]), n as int), n as int),
{
    let ni = n as int;
    let am2 = am.update(i, am[p]).update(p, am[i]);
    let b = right_half(am, ni);
    let b2 = right_half(am2, ni);
    let s2 = col_swap(s, i, p);
    let sigma = |r: int| if r == i { p } else if r == p { i } else { r };
    assert forall|r: int| 0 <= r < ni implies #[trigger] b2[r] == b[sigma(r)] by {
        assert(b2[r] =~= b[sigma(r)]);
    }
    assert forall|r: int, c: int| 0 <= r < ni && 0 <= c < ni implies #[trigger] am2[r][c] as int
        == gf2_dot(b2, m, r, c, ni) by {
        assert(b2[r] == b[sigma(r)]);
    }
    assert forall|r: int| 0 <= r < ni implies (#[trigger] s2[r]).len() == ni by {}
    assert forall|r: int, c: int| 0 <= r < ni && 0 <= c < ni implies #[trigger] gf2_dot(
        s2,
        b2,
        r,
        c,
        ni,
    ) == if r == c {
        1int
    } else {
        0int
    } by {
        let f = row_times(s[r], b, c);
        let f2 = row_times(s2[r], b2, c);
        assert forall|t: int| 0 <= t < ni && t != i && t != p implies #[trigger] f2(t) == f(t) by {
            assert(b2[t] == b[sigma(t)]);
        }
        assert(b2[i] == b[sigma(i)]);
        assert(b2[p] == b[sigma(p)]);
        assert(s2[r][i] == s[r][p]);
        assert(s2[r][p] == s[r][i]);
        assert(f2(i) == f(p));
        assert(f2(p) == f(i));
        lemma_total_two(f2, f, ni, i, p);
        assert(gf2_dot(s, b, r, c, ni) == total(f, ni) % 2);
    }
}


/// The product with a matrix whose column `c` is zero is zero in column `c`.
proof fn lemma_dot_zero_col(a: Seq<Seq<u8>>, z: Seq<Seq<u8>>, n: nat, r: int, c: int)
    requires
        forall|t: int| 0 <= t < n ==> bit(#[trigger] z[t][c]) == 0,
    ensures
        gf2_dot(a, z, r, c, n as int) == 0,
{
    let f = row_times(a[r], z, c);
    assert forall|t: int| 0 <= t < n implies #[trigger] f(t) == 0 by {}
    lemma_total_zero(f, n as int);
}

/// When the left half has become the identity, the right half is the inverse.
proof fn lemma_finished(am: Seq<Seq<u8>>, m: Seq<Seq<u8>>, s: Seq<Seq<u8>>, n: nat)
    requires
        aug_shape(am, n as int),
        tracks(am, m, n as int),
        unit_cols(am, n as int, n as int),
        is_bit_matrix(s, n),
        gf2_unit(s, right_half(am, n as int), n as int),
        m.len() == n,
    ensures
        is_gf2_inverse(right_half(am, n as int), m),
{
    let ni = n as int;
    let b = right_half(am, ni);
    assert forall|r: int| 0 <= r < ni implies (#[trigger] b[r]).len() == ni by {}
    assert forall|r: int, c: int| 0 <= r < ni && 0 <= c < ni implies #[trigger] b[r][c] <= 1 by {
        assert(b[r][c] == am[r][ni + c]);
    }
    assert forall|r: int, c: int| 0 <= r < ni && 0 <= c < ni implies #[trigger] gf2_dot(
        b,
        m,
        r,
        c,
        ni,
    ) == if r == c {
        1int
    } else {
        0int
    } by {
        assert(am[r][c] as int == gf2_dot(b, m, r, c, ni));
    }
    lemma_unit_is_identity(s, b, n);
    lemma_unit_is_identity(b, m, n);
    assert forall|r: int, c: int| 0 <= r < ni && 0 <= c < ni implies bit(#[trigger] s[r][c]) == bit(
        m[r][c],
    ) by {
        lemma_gf2_assoc(s, b, m, n, r, c);
        lemma_identity_left(m, n, r, c);
        lemma_identity_right(s, n, r, c);
    }
    assert forall|r: int, c: int| 0 <= r < ni && 0 <= c < ni implies #[trigger] gf2_dot(
        m,
        b,
        r,
        c,
        ni,
    ) == if r == c {
        1int
    } else {
        0int
    } by {
        let fm = row_times(m[r], b, c);
        let fs = row_times(s[r], b, c);
        assert forall|t: int| 0 <= t < ni implies #[trigger] fm(t) == fs(t) by {
            assert(bit(s[r][t]) == bit(m[r][t]));
        }
        lemma_total_ext(fm, fs, ni);
        assert(gf2_dot(s, b, r, c, ni) == if r == c { 1int } else { 0int });
    }
}

/// When no pivot is left in column `i`, the matrix has no inverse.
proof fn lemma_singular(am: Seq<Seq<u8>>, m: Seq<Seq<u8>>, s: Seq<Seq<u8>>, n: nat, i: int)
    requires
        aug_shape(am, n as int),
        tracks(am, m, n as int),
        unit_cols(am, n as int, i),
        is_bit_matrix(s, n),
        gf2_unit(s, right_half(am, n as int), n as int),
        m.len() == n,
        0 <= i < n,
        forall|r: int| i <= r < n ==> #[trigger] am[r][i] == 0,
    ensures
        !exists|a: Seq<Seq<u8>>| is_gf2_inverse(a, m),
{
    let ni = n as int;
    let b = right_half(am, ni);
    let x = Seq::new(
        n,
        |t: int|
            Seq::new(
                n,
                |c: int|
                    if t == i {
                        1u8
                    } else if t < i {
                        am[t][i]
                    } else {
                        0u8
                    },
            ),
    );
    let left = Seq::new(n, |r: int| am[r].subrange(0, ni));
    let z = |t: int| 0int;
    lemma_total_zero(z, ni);
    assert forall|r: int, c: int| 0 <= r < ni && 0 <= c < ni implies #[trigger] gf2_dot(
        left,
        x,
        r,
        c,
        ni,
    ) == 0 by {
        let f = row_times(left[r], x, c);
        if r < i {
            assert forall|t: int| 0 <= t < ni && t != r && t != i implies #[trigger] f(t) == z(t) by {
                if t < i {
                    assert(left[r][t] == am[r][t]);
                }
            }
            lemma_total_two(f, z, ni, r, i);
            assert(left[r][r] == am[r][r]);
            assert(left[r][i] == am[r][i]);
            lemma_bit_small(am[r][i]);
        } else {
            assert forall|t: int| 0 <= t < ni implies #[trigger] f(t) == 0 by {
                if t <= i {
                    assert(left[r][t] == am[r][t]);
                }
            }
            lemma_total_zero(f, ni);
        }
    }
    let bm = gf2_mul(b, m, n);
    assert forall|r: int| 0 <= r < ni implies #[trigger] bm[r] == left[r] by {
        assert forall|c: int| 0 <= c < ni implies #[trigger] bm[r][c] == left[r][c] by {
            assert(am[r][c] as int == gf2_dot(b, m, r, c, ni));
        }
        assert(bm[r] =~= left[r]);
    }
    assert(bm =~= left);
    lemma_unit_is_identity(s, b, n);
    let sbm = gf2_mul(s, bm, n);
    let lx = gf2_mul(left, x, n);
    assert forall|r: int, c: int| 0 <= r < ni && 0 <= c < ni implies #[trigger] gf2_dot(
        m,
        x,
        r,
        c,
        ni,
    ) == 0 by {
        lemma_gf2_assoc(s, bm, x, n, r, c);
        assert forall|t: int| 0 <= t < n implies bit(#[trigger] lx[t][c]) == 0 by {}
        lemma_dot_zero_col(s, lx, n, r, c);
        let fs = row_times(sbm[r], x, c);
        let fm = row_times(m[r], x, c);
        assert forall|t: int| 0 <= t < ni implies #[trigger] fs(t) == fm(t) by {
            lemma_gf2_assoc(s, b, m, n, r, t);
            lemma_identity_left(m, n, r, t);
            lemma_bit_small(sbm[r][t]);
        }
        lemma_total_ext(fs, fm, ni);
    }
    let mx = gf2_mul(m, x, n);
    assert forall|a: Seq<Seq<u8>>| !is_gf2_inverse(a, m) by {
        if is_gf2_inverse(a, m) {
            lemma_unit_is_identity(a, m, n);
            lemma_gf2_assoc(a, m, x, n, i, 0);
            lemma_identity_left(x, n, i, 0);
            assert forall|t: int| 0 <= t < n implies bit(#[trigger] mx[t][0]) == 0 by {}
            lemma_dot_zero_col(a, mx, n, i, 0);
        }
    }
}


/// A matrix, if there is one, read as rows of bytes.
pub open spec fn opt_matrix(r: Option<Vec<Vec<u8>>>) -> Option<Seq<Seq<u8>>> {
    match r {
        Some(v) => Some(matrix_view(v)),
        None => None,
    }
}

/// The sum over GF(2) of two rows of zeros and ones.
fn xor_rows(a: &Vec<u8>, b: &Vec<u8>) -> (r: Vec<u8>)
    requires
        a.len() == b.len(),
    ensures
        r@ == xor_row(a@, b@),
{
    let mut out: Vec<u8> = Vec::new();
    let mut k: usize = 0;
    while k < a.len()
        invariant
            k <= a.len(),
            a.len() == b.len(),
            out@ == xor_row(a@, b@).take(k as int),
        decreases a.len() - k,
    {
        out.push(a[k] ^ b[k]);
        k += 1;
        assert(out@ =~= xor_row(a@, b@).take(k as int));
    }
    assert(out@ =~= xor_row(a@, b@));
    out
}

/// Row `r` of the matrix `m` beside the identity, with only the low bits of `m`.
fn initial_row(matrix: &[Vec<u8>], r: usize) -> (row: Vec<u8>)
    requires
        r < matrix.len(),
        rows_cover(rows_view(matrix@)),
    ensures
        row@ == initial_aug(rows_view(matrix@), matrix.len() as int)[r as int],
{
    let ghost m = rows_view(matrix@);
    let ghost want = initial_aug(m, matrix.len() as int)[r as int];
    let n = matrix.len();
    assert(m[r as int].len() >= n);
    let mut row: Vec<u8> = Vec::new();
    let mut c: usize = 0;
    while c < n
        invariant
            c <= n,
            n == matrix.len(),
            r < n,
            m == rows_view(matrix@),
            m[r as int].len() >= n,
            want == initial_aug(m, n as int)[r as int],
            want.len() == 2 * n,
            row@ == want.take(c as int),
        decreases n - c,
    {
        row.push(matrix[r][c] & 1);
        c += 1;
        assert(row@ =~= want.take(c as int));
    }
    let mut c: usize = 0;
    while c < n
        invariant
            c <= n,
            n == matrix.len(),
            r < n,
            want == initial_aug(m, n as int)[r as int],
            want.len() == 2 * n,
            row@ == want.take(n + c),
        decreases n - c,
    {
        row.push(if c == r { 1u8 } else { 0u8 });
        c += 1;
        assert(row@ =~= want.take(n + c));
    }
    assert(row@ =~= want);
    row
}

/// The inverse over GF(2) of the square matrix `matrix`, of the low bits of
/// its entries, by Gauss-Jordan elimination; `None` when it is singular.
pub fn invert_gf2(matrix: &[Vec<u8>]) -> (r: Option<Vec<Vec<u8>>>)
    requires
        rows_cover(rows_view(matrix@)),
    ensures
        opt_matrix(r) == gf2_inverse(rows_view(matrix@)),
{
    let ghost m = rows_view(matrix@);
    let n = matrix.len();
    let ghost ni = n as int;
    let mut aug: Vec<Vec<u8>> = Vec::new();
    let mut q: usize = 0;
    while q < n
        invariant
            q <= n,
            n == matrix.len(),
            ni == n,
            m == rows_view(matrix@),
            rows_cover(m),
            rows_view(aug@) == initial_aug(m, ni).take(q as int),
        decreases n - q,
    {
        let row = initial_row(matrix, q);
        assert(initial_aug(m, ni).len() == n);
        proof {
            lemma_rows_push(aug@, row);
            assert(initial_aug(m, ni).take(q as int + 1) =~= initial_aug(m, ni).take(q as int).push(
                row@,
            ));
        }
        aug.push(row);
        q += 1;
        assert(rows_view(aug@) =~= initial_aug(m, ni).take(q as int));
    }
    proof {
        lemma_initial(m, n as nat);
        assert(rows_view(aug@) =~= initial_aug(m, ni));
    }
    let ghost mut s = gf2_identity(n as nat);
    let mut i: usize = 0;
    while i < n
        invariant
            i <= n,
            n == matrix.len(),
            ni == n,
            m == rows_view(matrix@),
            aug.len() == n,
            aug_shape(rows_view(aug@), ni),
            tracks(rows_view(aug@), m, ni),
            unit_cols(rows_view(aug@), ni, i as int),
            is_bit_matrix(s, n as nat),
            gf2_unit(s, right_half(rows_view(aug@), ni), ni),
        decreases n - i,
    {
        let mut pivot: usize = i;
        assert forall|t: int| 0 <= t < n implies (#[trigger] aug@[t])@.len() == 2 * n by {
            assert(rows_view(aug@)[t] == aug@[t]@);
        }
        while pivot < n && aug[pivot][i] == 0
            invariant
                i <= pivot <= n,
                i < n,
                aug.len() == n,
                aug_shape(rows_view(aug@), ni),
                ni == n,
                forall|t: int| 0 <= t < n ==> (#[trigger] aug@[t])@.len() == 2 * n,
                forall|t: int| i <= t < pivot ==> #[trigger] rows_view(aug@)[t][i as int] == 0,
            decreases n - pivot,
        {
            assert(rows_view(aug@)[pivot as int] == aug[pivot as int]@);
            pivot += 1;
        }
        if pivot == n {
            proof {
                lemma_singular(rows_view(aug@), m, s, n as nat, i as int);
            }
            return None;
        }
        assert(rows_view(aug@)[pivot as int] == aug[pivot as int]@);
        if pivot != i {
            let ghost am = rows_view(aug@);
            let row_i = copy_seq(&aug[i]);
            let row_p = copy_seq(&aug[pivot]);
            aug.set(i, row_p);
            aug.set(pivot, row_i);
            proof {
                lemma_row_swap(am, m, s, n as nat, i as int, pivot as int);
                s = col_swap(s, i as int, pivot as int);
                assert(rows_view(aug@) =~= am.update(i as int, am[pivot as int]).update(
                    pivot as int,
                    am[i as int],
                ));
                let am2 = rows_view(aug@);
                assert forall|r: int, k: int| 0 <= r < ni && 0 <= k < i implies #[trigger] am2[r][k]
                    == if r == k {
                    1u8
                } else {
                    0u8
                } by {
                    if r == i as int {
                        assert(am[pivot as int][k] == 0u8);
                    } else if r == pivot as int {
                        assert(am[i as int][k] == 0u8);
                    }
                }
            }
        }
        assert(rows_view(aug@)[i as int][i as int] == 1);
        let mut j: usize = 0;
        while j < n
            invariant
                i < n,
                j <= n,
                n == matrix.len(),
                ni == n,
                m == rows_view(matrix@),
                aug.len() == n,
                aug_shape(rows_view(aug@), ni),
                tracks(rows_view(aug@), m, ni),
                unit_cols(rows_view(aug@), ni, i as int),
                is_bit_matrix(s, n as nat),
                gf2_unit(s, right_half(rows_view(aug@), ni), ni),
                rows_view(aug@)[i as int][i as int] == 1,
                forall|t: int| 0 <= t < j && t != i ==> #[trigger] rows_view(aug@)[t][i as int] == 0,
            decreases n - j,
        {
            assert(rows_view(aug@)[j as int] == aug[j as int]@);
            assert(rows_view(aug@)[i as int] == aug[i as int]@);
            if i != j && aug[j][i] == 1 {
                let ghost am = rows_view(aug@);
                let new_row = xor_rows(&aug[j], &aug[i]);
                aug.set(j, new_row);
                proof {
                    lemma_row_add(am, m, s, n as nat, i as int, j as int);
                    s = col_add(s, i as int, j as int);
                    let am2 = am.update(j as int, xor_row(am[j as int], am[i as int]));
                    assert(rows_view(aug@) =~= am2);
                    assert forall|r: int, k: int| 0 <= r < ni && 0 <= k < i implies #[trigger] am2[r][k]
                        == if r == k {
                        1u8
                    } else {
                        0u8
                    } by {
                        if r == j as int {
                            lemma_xor01(am[j as int][k], am[i as int][k]);
                        }
                    }
                    lemma_xor01(am[j as int][i as int], am[i as int][i as int]);
                }
            }
            j += 1;
        }
        proof {
            let am = rows_view(aug@);
            assert forall|r: int, k: int| 0 <= r < ni && 0 <= k < i + 1 implies #[trigger] am[r][k]
                == if r == k {
                1u8
            } else {
                0u8
            } by {
                if k == i as int && r != i as int {
                    assert(am[r][i as int] == 0);
                }
            }
        }
        i += 1;
    }
    let ghost am = rows_view(aug@);
    let mut inv: Vec<Vec<u8>> = Vec::new();
    let mut q: usize = 0;
    while q < n
        invariant
            q <= n,
            aug.len() == n,
            ni == n,
            am == rows_view(aug@),
            aug_shape(am, ni),
            rows_view(inv@) == right_half(am, ni).take(q as int),
        decreases n - q,
    {
        assert(am[q as int] == aug[q as int]@);
        let mut row: Vec<u8> = Vec::new();
        let mut c: usize = 0;
        while c < n
            invariant
                c <= n,
                q < n,
                aug.len() == n,
                ni == n,
                am == rows_view(aug@),
                aug_shape(am, ni),
                row@ == right_half(am, ni)[q as int].take(c as int),
            decreases n - c,
        {
            assert(am[q as int] == aug[q as int]@);
            let row_len = aug[q].len();
            assert(row_len == 2 * n);
            row.push(aug[q][n + c]);
            c += 1;
            assert(row@ =~= right_half(am, ni)[q as int].take(c as int));
        }
        assert(row@ =~= right_half(am, ni)[q as int]);
        proof {
            lemma_rows_push(inv@, row);
            assert(right_half(am, ni).take(q as int + 1) =~= right_half(am, ni).take(q as int).push(
                row@,
            ));
        }
        inv.push(row);
        q += 1;
        assert(rows_view(inv@) =~= right_half(am, ni).take(q as int));
    }
    proof {
        assert(rows_view(inv@) =~= right_half(am, ni));
        lemma_finished(am, m, s, n as nat);
        lemma_gf2_inverse_is(right_half(am, ni), m);
    }
    Some(inv)
}

} // verus!
