//! Scalar index expressions: their evaluation and their simplification.
use vstd::prelude::*;

verus! {

broadcast use vstd::std_specs::vec::axiom_vec_index_decreases;

/// An index expression over the coordinates `Input(i)`.
#[derive(Debug, PartialEq)]
pub enum ScalarExpr {
    Input(usize),
    Constant(u64),
    Add(Box<ScalarExpr>, Box<ScalarExpr>),
    Mul(Box<ScalarExpr>, Box<ScalarExpr>),
    Div(Box<ScalarExpr>, Box<ScalarExpr>),
    Mod(Box<ScalarExpr>, Box<ScalarExpr>),
    Xor(Box<ScalarExpr>, Box<ScalarExpr>),
    BitShiftRight(Box<ScalarExpr>, u32),
    BitLinear(Box<ScalarExpr>, Vec<Vec<u8>>),
    And(Box<ScalarExpr>, Box<ScalarExpr>),
    Lt(Box<ScalarExpr>, Box<ScalarExpr>),
    Eq(Box<ScalarExpr>, Box<ScalarExpr>),
}

/// The value of a [`ScalarExpr`]; a bit matrix is the sequence of its rows.
pub enum ScalarV {
    Input(usize),
    Constant(u64),
    Add(Box<ScalarV>, Box<ScalarV>),
    Mul(Box<ScalarV>, Box<ScalarV>),
    Div(Box<ScalarV>, Box<ScalarV>),
    Mod(Box<ScalarV>, Box<ScalarV>),
    Xor(Box<ScalarV>, Box<ScalarV>),
    BitShiftRight(Box<ScalarV>, u32),
    BitLinear(Box<ScalarV>, Seq<Seq<u8>>),
    And(Box<ScalarV>, Box<ScalarV>),
    Lt(Box<ScalarV>, Box<ScalarV>),
    Eq(Box<ScalarV>, Box<ScalarV>),
}

/// The rows of a matrix.
pub open spec fn matrix_view(m: Vec<Vec<u8>>) -> Seq<Seq<u8>> {
    rows_view(m@)
}

/// The rows of a sequence of row vectors.
pub open spec fn rows_view(m: Seq<Vec<u8>>) -> Seq<Seq<u8>> {
    Seq::new(m.len(), |i: int| m[i]@)
}

/// Appending a row appends its bytes to the rows.
pub proof fn lemma_rows_push(v: Seq<Vec<u8>>, row: Vec<u8>)
    ensures
        rows_view(v.push(row)) == rows_view(v).push(row@),
{
    assert(rows_view(v.push(row)) =~= rows_view(v).push(row@));
}

/// A copy of a matrix.
pub fn copy_matrix(m: &Vec<Vec<u8>>) -> (r: Vec<Vec<u8>>)
    ensures
        matrix_view(r) == matrix_view(*m),
{
    let mut out: Vec<Vec<u8>> = Vec::new();
    let mut i: usize = 0;
    while i < m.len()
        invariant
            i <= m.len(),
            out.len() == i,
            forall|j: int| 0 <= j < i ==> (#[trigger] out[j])@ == m[j]@,
        decreases m.len() - i,
    {
        let row = m[i].clone();
        assert(row@ =~= m[i as int]@);
        out.push(row);
        i += 1;
    }
    assert(matrix_view(out) =~= matrix_view(*m));
    out
}

pub open spec fn scalar_view(e: ScalarExpr) -> ScalarV
    decreases e,
{
    match e {
        ScalarExpr::Input(i) => ScalarV::Input(i),
        ScalarExpr::Constant(c) => ScalarV::Constant(c),
        ScalarExpr::Add(a, b) => ScalarV::Add(Box::new(scalar_view(*a)), Box::new(scalar_view(*b))),
        ScalarExpr::Mul(a, b) => ScalarV::Mul(Box::new(scalar_view(*a)), Box::new(scalar_view(*b))),
        ScalarExpr::Div(a, b) => ScalarV::Div(Box::new(scalar_view(*a)), Box::new(scalar_view(*b))),
        ScalarExpr::Mod(a, b) => ScalarV::Mod(Box::new(scalar_view(*a)), Box::new(scalar_view(*b))),
        ScalarExpr::Xor(a, b) => ScalarV::Xor(Box::new(scalar_view(*a)), Box::new(scalar_view(*b))),
        ScalarExpr::BitShiftRight(a, s) => ScalarV::BitShiftRight(Box::new(scalar_view(*a)), s),
        ScalarExpr::BitLinear(a, m) => ScalarV::BitLinear(Box::new(scalar_view(*a)), matrix_view(m)),
        ScalarExpr::And(a, b) => ScalarV::And(Box::new(scalar_view(*a)), Box::new(scalar_view(*b))),
        ScalarExpr::Lt(a, b) => ScalarV::Lt(Box::new(scalar_view(*a)), Box::new(scalar_view(*b))),
        ScalarExpr::Eq(a, b) => ScalarV::Eq(Box::new(scalar_view(*a)), Box::new(scalar_view(*b))),
    }
}

impl View for ScalarExpr {
    type V = ScalarV;

    open spec fn view(&self) -> ScalarV {
        scalar_view(*self)
    }
}

// ---------------------------------------------------------------------------
// Bit-linear maps over GF(2)
// ---------------------------------------------------------------------------

/// The parity of the bits `j < k` of `val` selected by `row`: bit `i` of the
/// image is the GF(2) dot product of `row i` with the low bits of `val`.
pub open spec fn row_parity(val: u64, row: Seq<u8>, k: int) -> u64
    decreases k,
{
    if k <= 0 {
        0
    } else {
        row_parity(val, row, k - 1) ^ (((val >> ((k - 1) as u64)) & 1u64) & (row[k - 1] as u64))
    }
}

/// The image bits `0..k` of `val` under the matrix `m`.
pub open spec fn low_image(val: u64, m: Seq<Seq<u8>>, k: int) -> u64
    decreases k,
{
    if k <= 0 {
        0
    } else {
        low_image(val, m, k - 1) | (row_parity(val, m[k - 1], m.len() as int) << ((k - 1) as u64))
    }
}

/// The mask of the low `d` bits.
pub open spec fn low_mask(d: nat) -> u64 {
    ((1u64 << (d as u64)) - 1u64) as u64
}

/// The bit-linear map of `m` on `val`: the low `m.len()` bits are replaced by
/// their image under `m` over GF(2) (only bit 0 of each entry counts); the
/// higher bits are kept.
pub open spec fn bit_linear(val: u64, m: Seq<Seq<u8>>) -> u64 {
    low_image(val, m, m.len() as int) | (val & !low_mask(m.len()))
}

/// The matrix is square-or-wider with fewer than 64 rows, so the map is defined.
pub open spec fn bit_linear_ok(m: Seq<Seq<u8>>) -> bool {
    &&& m.len() < 64
    &&& forall|i: int| 0 <= i < m.len() ==> (#[trigger] m[i]).len() >= m.len()
}

/// Applies the bit-linear map of `m` to `val`.
pub fn bit_linear_apply(val: u64, m: &Vec<Vec<u8>>) -> (r: u64)
    requires
        bit_linear_ok(matrix_view(*m)),
    ensures
        r == bit_linear(val, matrix_view(*m)),
{
    let ghost mv = matrix_view(*m);
    let d = m.len();
    let mut out: u64 = 0;
    let mut i: usize = 0;
    while i < d
        invariant
            i <= d,
            d == m.len(),
            mv == matrix_view(*m),
            bit_linear_ok(mv),
            out == low_image(val, mv, i as int),
        decreases d - i,
    {
        let mut bit: u64 = 0;
        let mut j: usize = 0;
        assert(mv[i as int].len() >= d);
        while j < d
            invariant
                j <= d,
                i < d,
                d == m.len(),
                mv == matrix_view(*m),
                bit_linear_ok(mv),
                m[i as int]@.len() >= d,
                bit == row_parity(val, mv[i as int], j as int),
            decreases d - j,
        {
            bit = bit ^ (((val >> (j as u64)) & 1) & (m[i][j] as u64));
            j += 1;
        }
        out = out | (bit << (i as u64));
        i += 1;
    }
    let dd = d as u64;
    assert(1u64 << dd >= 1u64) by (bit_vector)
        requires
            dd < 64u64,
    ;
    let mask: u64 = (1u64 << dd) - 1;
    out | (val & !mask)
}

// ---------------------------------------------------------------------------
// Evaluation
// ---------------------------------------------------------------------------

/// The value of an expression at the point `inputs`, with 64-bit wrapping
/// `+` and `*`, division and remainder by zero giving 0, and the boolean
/// operators giving 0 or 1.
pub open spec fn eval_scalar(e: ScalarV, inputs: Seq<u64>) -> u64
    decreases e,
{
    match e {
        ScalarV::Input(i) => inputs[i as int],
        ScalarV::Constant(c) => c,
        ScalarV::Add(a, b) => eval_scalar(*a, inputs).wrapping_add(eval_scalar(*b, inputs)),
        ScalarV::Mul(a, b) => eval_scalar(*a, inputs).wrapping_mul(eval_scalar(*b, inputs)),
        ScalarV::Div(a, b) => {
            let d = eval_scalar(*b, inputs);
            if d == 0 {
                0
            } else {
                (eval_scalar(*a, inputs) / d) as u64
            }
        },
        ScalarV::Mod(a, b) => {
            let d = eval_scalar(*b, inputs);
            if d == 0 {
                0
            } else {
                (eval_scalar(*a, inputs) % d) as u64
            }
        },
        ScalarV::Xor(a, b) => eval_scalar(*a, inputs) ^ eval_scalar(*b, inputs),
        ScalarV::BitShiftRight(a, s) => eval_scalar(*a, inputs) >> s,
        ScalarV::BitLinear(a, m) => bit_linear(eval_scalar(*a, inputs), m),
        ScalarV::And(a, b) => if eval_scalar(*a, inputs) != 0 && eval_scalar(*b, inputs) != 0 {
            1
        } else {
            0
        },
        ScalarV::Lt(a, b) => if eval_scalar(*a, inputs) < eval_scalar(*b, inputs) {
            1
        } else {
            0
        },
        ScalarV::Eq(a, b) => if eval_scalar(*a, inputs) == eval_scalar(*b, inputs) {
            1
        } else {
            0
        },
    }
}

/// Evaluation does not panic: every input read exists, every shift is below
/// 64 and every bit matrix is well formed (the dividend of a zero divisor and
/// the right side of an `And` whose left side is 0 are not evaluated).
pub open spec fn eval_scalar_ok(e: ScalarV, inputs: Seq<u64>) -> bool
    decreases e,
{
    match e {
        ScalarV::Input(i) => i < inputs.len(),
        ScalarV::Constant(_) => true,
        ScalarV::Add(a, b) => eval_scalar_ok(*a, inputs) && eval_scalar_ok(*b, inputs),
        ScalarV::Mul(a, b) => eval_scalar_ok(*a, inputs) && eval_scalar_ok(*b, inputs),
        ScalarV::Div(a, b) => eval_scalar_ok(*b, inputs) && (eval_scalar(*b, inputs) != 0
            ==> eval_scalar_ok(*a, inputs)),
        ScalarV::Mod(a, b) => eval_scalar_ok(*b, inputs) && (eval_scalar(*b, inputs) != 0
            ==> eval_scalar_ok(*a, inputs)),
        ScalarV::Xor(a, b) => eval_scalar_ok(*a, inputs) && eval_scalar_ok(*b, inputs),
        ScalarV::BitShiftRight(a, s) => eval_scalar_ok(*a, inputs) && s < 64,
        ScalarV::BitLinear(a, m) => eval_scalar_ok(*a, inputs) && bit_linear_ok(m),
        ScalarV::And(a, b) => eval_scalar_ok(*a, inputs) && (eval_scalar(*a, inputs) != 0
            ==> eval_scalar_ok(*b, inputs)),
        ScalarV::Lt(a, b) => eval_scalar_ok(*a, inputs) && eval_scalar_ok(*b, inputs),
        ScalarV::Eq(a, b) => eval_scalar_ok(*a, inputs) && eval_scalar_ok(*b, inputs),
    }
}

// ---------------------------------------------------------------------------
// Simplification
// ---------------------------------------------------------------------------

/// The number of nodes of an expression.
pub open spec fn scalar_size(e: ScalarV) -> nat
    decreases e,
{
    match e {
        ScalarV::Input(_) => 1,
        ScalarV::Constant(_) => 1,
        ScalarV::Add(a, b) => 1 + scalar_size(*a) + scalar_size(*b),
        ScalarV::Mul(a, b) => 1 + scalar_size(*a) + scalar_size(*b),
        ScalarV::Div(a, b) => 1 + scalar_size(*a) + scalar_size(*b),
        ScalarV::Mod(a, b) => 1 + scalar_size(*a) + scalar_size(*b),
        ScalarV::Xor(a, b) => 1 + scalar_size(*a) + scalar_size(*b),
        ScalarV::BitShiftRight(a, _) => 1 + scalar_size(*a),
        ScalarV::BitLinear(a, _) => 1 + scalar_size(*a),
        ScalarV::And(a, b) => 1 + scalar_size(*a) + scalar_size(*b),
        ScalarV::Lt(a, b) => 1 + scalar_size(*a) + scalar_size(*b),
        ScalarV::Eq(a, b) => 1 + scalar_size(*a) + scalar_size(*b),
    }
}

pub open spec fn cst(c: u64) -> ScalarV {
    ScalarV::Constant(c)
}

pub open spec fn is_cst(e: ScalarV, c: u64) -> bool {
    e == ScalarV::Constant(c)
}

/// `Some(k)` when `d == 2^k`, `None` when `d` is not a power of two.
pub open spec fn exact_log2(d: nat) -> Option<nat>
    decreases d,
{
    if d == 0 {
        None
    } else if d == 1 {
        Some(0)
    } else if d % 2 == 1 {
        None
    } else {
        match exact_log2(d / 2) {
            Some(k) => Some(k + 1),
            None => None,
        }
    }
}

/// The simplification rules, applied bottom-up with `f` as the depth budget;
/// any budget at least the size of the expression gives the same result
/// (see [`simplify_scalar`]).
pub open spec fn simp_f(e: ScalarV, f: nat) -> ScalarV
    decreases f, 2int,
{
    if f == 0 {
        e
    } else {
        match e {
            ScalarV::Add(a, b) => add_rule(simp_f(*a, (f - 1) as nat), simp_f(*b, (f - 1) as nat), (f - 1) as nat),
            ScalarV::Mul(a, b) => mul_rule(simp_f(*a, (f - 1) as nat), simp_f(*b, (f - 1) as nat)),
            ScalarV::Div(a, b) => div_rule(simp_f(*a, (f - 1) as nat), simp_f(*b, (f - 1) as nat), (f - 1) as nat),
            ScalarV::Mod(a, b) => mod_rule(simp_f(*a, (f - 1) as nat), simp_f(*b, (f - 1) as nat), (f - 1) as nat),
            ScalarV::And(a, b) => and_rule(simp_f(*a, (f - 1) as nat), simp_f(*b, (f - 1) as nat)),
            ScalarV::BitLinear(a, m) => {
                let sa = simp_f(*a, (f - 1) as nat);
                match sa {
                    ScalarV::Constant(c) => ScalarV::Constant(bit_linear(c, m)),
                    _ => ScalarV::BitLinear(Box::new(sa), m),
                }
            },
            _ => e,
        }
    }
}

/// `a + b` on simplified operands: zeros vanish, constants fold, and a
/// constant added to `x + c1` is folded into `c1`.
pub open spec fn add_rule(a: ScalarV, b: ScalarV, g: nat) -> ScalarV
    decreases g + 1, 0int,
{
    if is_cst(a, 0) {
        b
    } else if is_cst(b, 0) {
        a
    } else if a is Constant && b is Constant {
        cst((a->Constant_0 + b->Constant_0) as u64)
    } else if a is Add && b is Constant && (*a->Add_1) is Constant {
        simp_f(
            ScalarV::Add(a->Add_0, Box::new(cst(((*a->Add_1)->Constant_0 + b->Constant_0) as u64))),
            g,
        )
    } else {
        ScalarV::Add(Box::new(a), Box::new(b))
    }
}

/// `a * b` on simplified operands: ones vanish, a zero absorbs, constants fold.
pub open spec fn mul_rule(a: ScalarV, b: ScalarV) -> ScalarV {
    if is_cst(a, 1) {
        b
    } else if is_cst(b, 1) {
        a
    } else if is_cst(a, 0) || is_cst(b, 0) {
        cst(0)
    } else if a is Constant && b is Constant {
        cst((a->Constant_0 * b->Constant_0) as u64)
    } else {
        ScalarV::Mul(Box::new(a), Box::new(b))
    }
}

/// `(t * k + rest) / k` or `(rest + t * k) / k` becomes `t + rest / k`
/// (re-simplified); `None` when neither form applies.
pub open spec fn div_distribute(l: ScalarV, r: ScalarV, k: u64, g: nat) -> Option<ScalarV>
    decreases g + 1, 0int,
{
    if l is Mul {
        if is_cst(*l->Mul_1, k) {
            Some(
                simp_f(
                    ScalarV::Add(l->Mul_0, Box::new(ScalarV::Div(Box::new(r), Box::new(cst(k))))),
                    g,
                ),
            )
        } else {
            None
        }
    } else if r is Mul {
        if is_cst(*r->Mul_1, k) {
            Some(
                simp_f(
                    ScalarV::Add(r->Mul_0, Box::new(ScalarV::Div(Box::new(l), Box::new(cst(k))))),
                    g,
                ),
            )
        } else {
            None
        }
    } else {
        None
    }
}

/// `a / b` on simplified operands: division by 1 vanishes, constants fold,
/// a multiple of the divisor is split off a sum, and division by a power of
/// two becomes a right shift.
pub open spec fn div_rule(a: ScalarV, b: ScalarV, g: nat) -> ScalarV
    decreases g + 1, 1int,
{
    if is_cst(b, 1) {
        a
    } else if a is Constant && b is Constant && b->Constant_0 != 0 {
        cst((a->Constant_0 / b->Constant_0) as u64)
    } else if a is Add && b is Constant {
        match div_distribute(*a->Add_0, *a->Add_1, b->Constant_0, g) {
            Some(x) => x,
            None => ScalarV::Div(Box::new(a), Box::new(b)),
        }
    } else if b is Constant && exact_log2(b->Constant_0 as nat) is Some {
        ScalarV::BitShiftRight(Box::new(a), exact_log2(b->Constant_0 as nat)->0 as u32)
    } else {
        ScalarV::Div(Box::new(a), Box::new(b))
    }
}

/// `(t * k + rest) % k` or `(rest + t * k) % k` becomes `rest % k`
/// (re-simplified); `None` when neither form applies.
pub open spec fn mod_distribute(l: ScalarV, r: ScalarV, k: u64, g: nat) -> Option<ScalarV>
    decreases g + 1, 0int,
{
    if l is Mul {
        if is_cst(*l->Mul_1, k) {
            Some(simp_f(ScalarV::Mod(Box::new(r), Box::new(cst(k))), g))
        } else {
            None
        }
    } else if r is Mul {
        if is_cst(*r->Mul_1, k) {
            Some(simp_f(ScalarV::Mod(Box::new(l), Box::new(cst(k))), g))
        } else {
            None
        }
    } else {
        None
    }
}

/// `a % b` on simplified operands: constants fold, a multiple of the modulus
/// vanishes from a sum, and `t * k % k` is 0.
pub open spec fn mod_rule(a: ScalarV, b: ScalarV, g: nat) -> ScalarV
    decreases g + 1, 1int,
{
    if a is Constant && b is Constant && b->Constant_0 != 0 {
        cst((a->Constant_0 % b->Constant_0) as u64)
    } else if a is Add && b is Constant {
        match mod_distribute(*a->Add_0, *a->Add_1, b->Constant_0, g) {
            Some(x) => x,
            None => ScalarV::Mod(Box::new(a), Box::new(b)),
        }
    } else if a is Mul && b is Constant && is_cst(*a->Mul_1, b->Constant_0) {
        cst(0)
    } else {
        ScalarV::Mod(Box::new(a), Box::new(b))
    }
}

/// `a && b` on simplified operands: a zero absorbs, another constant vanishes.
pub open spec fn and_rule(a: ScalarV, b: ScalarV) -> ScalarV {
    if is_cst(a, 0) || is_cst(b, 0) {
        cst(0)
    } else if a is Constant {
        b
    } else if b is Constant {
        a
    } else {
        ScalarV::And(Box::new(a), Box::new(b))
    }
}

/// The simplified form of an expression.
pub open spec fn simplify_scalar(e: ScalarV) -> ScalarV {
    simp_f(e, scalar_size(e))
}

/// Simplification with depth budget `f` does not panic: folded constants fit
/// in 64 bits and a folded bit-linear map is well formed.
pub open spec fn simp_ok_f(e: ScalarV, f: nat) -> bool
    decreases f, 1int,
{
    if f == 0 {
        true
    } else {
        let g = (f - 1) as nat;
        match e {
            ScalarV::Add(a, b) => simp_ok_f(*a, g) && simp_ok_f(*b, g) && add_ok(
                simp_f(*a, g),
                simp_f(*b, g),
                g,
            ),
            ScalarV::Mul(a, b) => simp_ok_f(*a, g) && simp_ok_f(*b, g) && mul_ok(
                simp_f(*a, g),
                simp_f(*b, g),
            ),
            ScalarV::Div(a, b) => simp_ok_f(*a, g) && simp_ok_f(*b, g) && div_ok(
                simp_f(*a, g),
                simp_f(*b, g),
                g,
            ),
            ScalarV::Mod(a, b) => simp_ok_f(*a, g) && simp_ok_f(*b, g) && mod_ok(
                simp_f(*a, g),
                simp_f(*b, g),
                g,
            ),
            ScalarV::And(a, b) => simp_ok_f(*a, g) && simp_ok_f(*b, g),
            ScalarV::BitLinear(a, m) => simp_ok_f(*a, g) && (simp_f(*a, g) is Constant
                ==> bit_linear_ok(m)),
            _ => true,
        }
    }
}

pub open spec fn add_ok(a: ScalarV, b: ScalarV, g: nat) -> bool
    decreases g + 1, 0int,
{
    if is_cst(a, 0) || is_cst(b, 0) {
        true
    } else if a is Constant && b is Constant {
        a->Constant_0 + b->Constant_0 <= u64::MAX
    } else if a is Add && b is Constant && (*a->Add_1) is Constant {
        &&& (*a->Add_1)->Constant_0 + b->Constant_0 <= u64::MAX
        &&& simp_ok_f(
            ScalarV::Add(a->Add_0, Box::new(cst(((*a->Add_1)->Constant_0 + b->Constant_0) as u64))),
            g,
        )
    } else {
        true
    }
}

pub open spec fn mul_ok(a: ScalarV, b: ScalarV) -> bool {
    if is_cst(a, 1) || is_cst(b, 1) || is_cst(a, 0) || is_cst(b, 0) {
        true
    } else if a is Constant && b is Constant {
        a->Constant_0 * b->Constant_0 <= u64::MAX
    } else {
        true
    }
}

pub open spec fn div_ok(a: ScalarV, b: ScalarV, g: nat) -> bool
    decreases g + 1, 0int,
{
    if is_cst(b, 1) {
        true
    } else if a is Constant && b is Constant && b->Constant_0 != 0 {
        true
    } else if a is Add && b is Constant {
        let l = *a->Add_0;
        let r = *a->Add_1;
        let k = b->Constant_0;
        if l is Mul {
            is_cst(*l->Mul_1, k) ==> simp_ok_f(
                ScalarV::Add(l->Mul_0, Box::new(ScalarV::Div(Box::new(r), Box::new(cst(k))))),
                g,
            )
        } else if r is Mul {
            is_cst(*r->Mul_1, k) ==> simp_ok_f(
                ScalarV::Add(r->Mul_0, Box::new(ScalarV::Div(Box::new(l), Box::new(cst(k))))),
                g,
            )
        } else {
            true
        }
    } else {
        true
    }
}

pub open spec fn mod_ok(a: ScalarV, b: ScalarV, g: nat) -> bool
    decreases g + 1, 0int,
{
    if a is Constant && b is Constant && b->Constant_0 != 0 {
        true
    } else if a is Add && b is Constant {
        let l = *a->Add_0;
        let r = *a->Add_1;
        let k = b->Constant_0;
        if l is Mul {
            is_cst(*l->Mul_1, k) ==> simp_ok_f(ScalarV::Mod(Box::new(r), Box::new(cst(k))), g)
        } else if r is Mul {
            is_cst(*r->Mul_1, k) ==> simp_ok_f(ScalarV::Mod(Box::new(l), Box::new(cst(k))), g)
        } else {
            true
        }
    } else {
        true
    }
}

/// Simplification of `e` does not panic.
pub open spec fn simplify_scalar_ok(e: ScalarV) -> bool {
    forall|f: nat| f >= scalar_size(e) ==> #[trigger] simp_ok_f(e, f)
}


/// Whether `d` is a power of two, and its exponent.
fn exact_log2_exec(d: u64) -> (r: Option<u32>)
    ensures
        match r {
            Some(k) => exact_log2(d as nat) == Some(k as nat),
            None => exact_log2(d as nat) is None,
        },
{
    if d == 0 {
        return None;
    }
    let mut x = d;
    let mut k: u32 = 0;
    proof {
        vstd::arithmetic::power2::lemma2_to64();
    }
    while x % 2 == 0
        invariant
            x > 0,
            k <= 64,
            x as nat * vstd::arithmetic::power2::pow2(k as nat) == d as nat,
            exact_log2(d as nat) == match exact_log2(x as nat) {
                Some(j) => Some((j + k) as nat),
                None => None::<nat>,
            },
        decreases x,
    {
        proof {
            vstd::arithmetic::power2::lemma_pow2_unfold((k + 1) as nat);
            vstd::arithmetic::power2::lemma2_to64();
            let p = vstd::arithmetic::power2::pow2(k as nat);
            assert((x / 2) as nat * (2 * p) == x as nat * p) by (nonlinear_arith)
                requires
                    x % 2 == 0,
            ;
            if k >= 63 {
                if k == 63 {
                    assert(p == 0x8000000000000000);
                } else {
                    assert(p == 0x10000000000000000);
                }
                assert(x as nat * p >= 2 * p) by (nonlinear_arith)
                    requires
                        x >= 2,
                ;
            }
        }
        x = x / 2;
        k = k + 1;
    }
    if x == 1 {
        Some(k)
    } else {
        None
    }
}

impl ScalarExpr {
    /// A copy with the same value.
    pub fn duplicate(&self) -> (r: ScalarExpr)
        ensures
            r@ == self@,
        decreases self,
    {
        match self {
            ScalarExpr::Input(i) => ScalarExpr::Input(*i),
            ScalarExpr::Constant(c) => ScalarExpr::Constant(*c),
            ScalarExpr::Add(a, b) => ScalarExpr::Add(Box::new((**a).duplicate()), Box::new((**b).duplicate())),
            ScalarExpr::Mul(a, b) => ScalarExpr::Mul(Box::new((**a).duplicate()), Box::new((**b).duplicate())),
            ScalarExpr::Div(a, b) => ScalarExpr::Div(Box::new((**a).duplicate()), Box::new((**b).duplicate())),
            ScalarExpr::Mod(a, b) => ScalarExpr::Mod(Box::new((**a).duplicate()), Box::new((**b).duplicate())),
            ScalarExpr::Xor(a, b) => ScalarExpr::Xor(Box::new((**a).duplicate()), Box::new((**b).duplicate())),
            ScalarExpr::BitShiftRight(a, s) => ScalarExpr::BitShiftRight(Box::new((**a).duplicate()), *s),
            ScalarExpr::BitLinear(a, m) => ScalarExpr::BitLinear(Box::new((**a).duplicate()), copy_matrix(m)),
            ScalarExpr::And(a, b) => ScalarExpr::And(Box::new((**a).duplicate()), Box::new((**b).duplicate())),
            ScalarExpr::Lt(a, b) => ScalarExpr::Lt(Box::new((**a).duplicate()), Box::new((**b).duplicate())),
            ScalarExpr::Eq(a, b) => ScalarExpr::Eq(Box::new((**a).duplicate()), Box::new((**b).duplicate())),
        }
    }

    /// Evaluates the expression at the point `inputs` (see [`eval_scalar`]).
    pub fn eval(&self, inputs: &[u64]) -> (r: u64)
        requires
            eval_scalar_ok(self@, inputs@),
        ensures
            r == eval_scalar(self@, inputs@),
        decreases self,
    {
        match self {
            ScalarExpr::Input(i) => inputs[*i],
            ScalarExpr::Constant(c) => *c,
            ScalarExpr::Add(a, b) => a.eval(inputs).wrapping_add(b.eval(inputs)),
            ScalarExpr::Mul(a, b) => a.eval(inputs).wrapping_mul(b.eval(inputs)),
            ScalarExpr::Div(a, b) => {
                let divisor = b.eval(inputs);
                if divisor == 0 {
                    0
                } else {
                    a.eval(inputs) / divisor
                }
            },
            ScalarExpr::Mod(a, b) => {
                let divisor = b.eval(inputs);
                if divisor == 0 {
                    0
                } else {
                    a.eval(inputs) % divisor
                }
            },
            ScalarExpr::Xor(a, b) => a.eval(inputs) ^ b.eval(inputs),
            ScalarExpr::BitShiftRight(a, s) => a.eval(inputs) >> *s,
            ScalarExpr::BitLinear(a, m) => {
                let val = a.eval(inputs);
                bit_linear_apply(val, m)
            },
            ScalarExpr::And(a, b) => {
                if a.eval(inputs) != 0 && b.eval(inputs) != 0 {
                    1
                } else {
                    0
                }
            },
            ScalarExpr::Lt(a, b) => {
                if a.eval(inputs) < b.eval(inputs) {
                    1
                } else {
                    0
                }
            },
            ScalarExpr::Eq(a, b) => {
                if a.eval(inputs) == b.eval(inputs) {
                    1
                } else {
                    0
                }
            },
        }
    }

    /// Simplifies the expression (see [`simplify_scalar`]); the result is no larger.
    pub fn simplify(self) -> (r: ScalarExpr)
        requires
            simplify_scalar_ok(self@),
        ensures
            r@ == simplify_scalar(self@),
            scalar_size(r@) <= scalar_size(self@),
    {
        self.simp(Ghost(scalar_size(self@)))
    }

    fn simp(self, Ghost(f0): Ghost<nat>) -> (r: ScalarExpr)
        requires
            f0 >= scalar_size(self@),
            forall|f: nat| f >= f0 ==> #[trigger] simp_ok_f(self@, f),
        ensures
            forall|f: nat| f >= f0 ==> #[trigger] simp_f(self@, f) == r@,
            scalar_size(r@) <= scalar_size(self@),
        decreases scalar_size(self@), 2int,
    {
        let ghost e = self@;
        match self {
            ScalarExpr::Add(a, b) => simp_binary(0, *a, *b, Ghost(f0)),
            ScalarExpr::Mul(a, b) => simp_binary(1, *a, *b, Ghost(f0)),
            ScalarExpr::Div(a, b) => simp_binary(2, *a, *b, Ghost(f0)),
            ScalarExpr::Mod(a, b) => simp_binary(3, *a, *b, Ghost(f0)),
            ScalarExpr::And(a, b) => simp_binary(4, *a, *b, Ghost(f0)),
            ScalarExpr::BitLinear(a, m) => {
                proof {
                    assert forall|f: nat| f >= f0 - 1 implies #[trigger] simp_ok_f(a@, f) by {
                        assert(simp_ok_f(e, f + 1));
                    }
                }
                let sa = (*a).simp(Ghost((f0 - 1) as nat));
                proof {
                    assert(simp_ok_f(e, f0));
                    assert(simp_f(a@, (f0 - 1) as nat) == sa@);
                }
                let r = match sa {
                    ScalarExpr::Constant(c) => ScalarExpr::Constant(bit_linear_apply(c, &m)),
                    _ => ScalarExpr::BitLinear(Box::new(sa), m),
                };
                proof {
                    assert forall|f: nat| f >= f0 implies #[trigger] simp_f(e, f) == r@ by {
                        assert(simp_f(a@, (f - 1) as nat) == sa@);
                    }
                }
                r
            },
            _ => {
                proof {
                    assert forall|f: nat| f >= f0 implies #[trigger] simp_f(e, f) == e by {}
                }
                self
            },
        }
    }
}

/// The binary node `op` (0 `+`, 1 `*`, 2 `/`, 3 `%`, 4 `&&`) of `a` and `b`.
pub open spec fn binary_node(op: u8, a: ScalarV, b: ScalarV) -> ScalarV {
    if op == 0 {
        ScalarV::Add(Box::new(a), Box::new(b))
    } else if op == 1 {
        ScalarV::Mul(Box::new(a), Box::new(b))
    } else if op == 2 {
        ScalarV::Div(Box::new(a), Box::new(b))
    } else if op == 3 {
        ScalarV::Mod(Box::new(a), Box::new(b))
    } else {
        ScalarV::And(Box::new(a), Box::new(b))
    }
}

fn simp_binary(op: u8, a: ScalarExpr, b: ScalarExpr, Ghost(f0): Ghost<nat>) -> (r: ScalarExpr)
    requires
        op <= 4,
        f0 >= 1 + scalar_size(a@) + scalar_size(b@),
        forall|f: nat| f >= f0 ==> #[trigger] simp_ok_f(binary_node(op, a@, b@), f),
    ensures
        forall|f: nat| f >= f0 ==> #[trigger] simp_f(binary_node(op, a@, b@), f) == r@,
        scalar_size(r@) <= 1 + scalar_size(a@) + scalar_size(b@),
    decreases 1 + scalar_size(a@) + scalar_size(b@), 1int,
{
    let ghost e = binary_node(op, a@, b@);
    let ghost av = a@;
    let ghost bv = b@;
    let ghost g0 = (f0 - 1) as nat;
    proof {
        assert forall|f: nat| f >= g0 implies #[trigger] simp_ok_f(av, f) by {
            assert(simp_ok_f(e, f + 1));
        }
        assert forall|f: nat| f >= g0 implies #[trigger] simp_ok_f(bv, f) by {
            assert(simp_ok_f(e, f + 1));
        }
    }
    let sa = a.simp(Ghost(g0));
    let sb = b.simp(Ghost(g0));
    if op == 0 {
        proof {
            assert forall|g: nat| g >= g0 implies #[trigger] add_ok(sa@, sb@, g) by {
                assert(simp_ok_f(e, g + 1));
            }
        }
        let r = add_exec(sa, sb, Ghost(g0));
        proof {
            assert forall|f: nat| f >= f0 implies #[trigger] simp_f(e, f) == r@ by {
                assert(simp_f(av, (f - 1) as nat) == sa@);
                assert(simp_f(bv, (f - 1) as nat) == sb@);
                assert(add_rule(sa@, sb@, (f - 1) as nat) == r@);
            }
        }
        r
    } else if op == 1 {
        proof {
            assert(simp_ok_f(e, g0 + 1));
        }
        let r = mul_exec(sa, sb);
        proof {
            assert forall|f: nat| f >= f0 implies #[trigger] simp_f(e, f) == r@ by {
                assert(simp_f(av, (f - 1) as nat) == sa@);
                assert(simp_f(bv, (f - 1) as nat) == sb@);
            }
        }
        r
    } else if op == 2 {
        proof {
            assert forall|g: nat| g >= g0 implies #[trigger] div_ok(sa@, sb@, g) by {
                assert(simp_ok_f(e, g + 1));
            }
        }
        let r = div_exec(sa, sb, Ghost(g0));
        proof {
            assert forall|f: nat| f >= f0 implies #[trigger] simp_f(e, f) == r@ by {
                assert(simp_f(av, (f - 1) as nat) == sa@);
                assert(simp_f(bv, (f - 1) as nat) == sb@);
                assert(div_rule(sa@, sb@, (f - 1) as nat) == r@);
            }
        }
        r
    } else if op == 3 {
        proof {
            assert forall|g: nat| g >= g0 implies #[trigger] mod_ok(sa@, sb@, g) by {
                assert(simp_ok_f(e, g + 1));
            }
        }
        let r = mod_exec(sa, sb, Ghost(g0));
        proof {
            assert forall|f: nat| f >= f0 implies #[trigger] simp_f(e, f) == r@ by {
                assert(simp_f(av, (f - 1) as nat) == sa@);
                assert(simp_f(bv, (f - 1) as nat) == sb@);
                assert(mod_rule(sa@, sb@, (f - 1) as nat) == r@);
            }
        }
        r
    } else {
        let r = and_exec(sa, sb);
        proof {
            assert forall|f: nat| f >= f0 implies #[trigger] simp_f(e, f) == r@ by {
                assert(simp_f(av, (f - 1) as nat) == sa@);
                assert(simp_f(bv, (f - 1) as nat) == sb@);
            }
        }
        r
    }
}

fn add_exec(a: ScalarExpr, b: ScalarExpr, Ghost(g0): Ghost<nat>) -> (r: ScalarExpr)
    requires
        g0 >= scalar_size(a@) + scalar_size(b@),
        forall|g: nat| g >= g0 ==> #[trigger] add_ok(a@, b@, g),
    ensures
        forall|g: nat| g >= g0 ==> #[trigger] add_rule(a@, b@, g) == r@,
        scalar_size(r@) <= scalar_size(a@) + scalar_size(b@) + 1,
    decreases scalar_size(a@) + scalar_size(b@) + 1, 0int,
{
    let ghost av = a@;
    let ghost bv = b@;
    if let ScalarExpr::Constant(0) = a {
        return b;
    }
    if let ScalarExpr::Constant(0) = b {
        return a;
    }
    if let ScalarExpr::Constant(va) = a {
        if let ScalarExpr::Constant(vb) = b {
            proof {
                assert(add_ok(av, bv, g0));
            }
            return ScalarExpr::Constant(va + vb);
        }
    }
    if let ScalarExpr::Add(ia, ib) = &a {
        if let ScalarExpr::Constant(c2) = &b {
            if let ScalarExpr::Constant(c1) = &**ib {
                proof {
                    assert((**ib)@ == ScalarV::Constant(*c1));
                    assert(av == ScalarV::Add(Box::new((**ia)@), Box::new(ScalarV::Constant(*c1))));
                    assert(bv == ScalarV::Constant(*c2));
                    assert(add_ok(av, bv, g0));
                }
                let nc = ScalarExpr::Constant(*c1 + *c2);
                let nia = (**ia).duplicate();
                proof {
                    assert(nc@ == ScalarV::Constant((*c1 + *c2) as u64));
                    assert(scalar_size(nc@) == 1);
                    assert(scalar_size(ScalarV::Constant(*c1)) == 1);
                }
                let new = ScalarExpr::Add(Box::new(nia), Box::new(nc));
                proof {
                    assert(new@ == ScalarV::Add(Box::new((**ia)@), Box::new(ScalarV::Constant((*c1 + *c2) as u64))));
                }
                proof {
                    assert forall|f: nat| f >= g0 implies #[trigger] simp_ok_f(new@, f) by {
                        assert(add_ok(av, bv, f));
                    }
                }
                proof {
                    assert(scalar_size(new@) == scalar_size(av));
                }
                let r = new.simp(Ghost(g0));
                proof {
                    assert forall|g: nat| g >= g0 implies #[trigger] add_rule(av, bv, g) == r@ by {
                        assert(simp_f(new@, g) == r@);
                    }
                }
                return r;
            }
        }
    }
    ScalarExpr::Add(Box::new(a), Box::new(b))
}

fn mul_exec(a: ScalarExpr, b: ScalarExpr) -> (r: ScalarExpr)
    requires
        mul_ok(a@, b@),
    ensures
        r@ == mul_rule(a@, b@),
        scalar_size(r@) <= scalar_size(a@) + scalar_size(b@) + 1,
{
    if let ScalarExpr::Constant(1) = a {
        return b;
    }
    if let ScalarExpr::Constant(1) = b {
        return a;
    }
    if let ScalarExpr::Constant(0) = a {
        return ScalarExpr::Constant(0);
    }
    if let ScalarExpr::Constant(0) = b {
        return ScalarExpr::Constant(0);
    }
    if let ScalarExpr::Constant(va) = a {
        if let ScalarExpr::Constant(vb) = b {
            return ScalarExpr::Constant(va * vb);
        }
    }
    ScalarExpr::Mul(Box::new(a), Box::new(b))
}

fn div_exec(a: ScalarExpr, b: ScalarExpr, Ghost(g0): Ghost<nat>) -> (r: ScalarExpr)
    requires
        g0 >= scalar_size(a@) + scalar_size(b@),
        forall|g: nat| g >= g0 ==> #[trigger] div_ok(a@, b@, g),
    ensures
        forall|g: nat| g >= g0 ==> #[trigger] div_rule(a@, b@, g) == r@,
        scalar_size(r@) <= scalar_size(a@) + scalar_size(b@) + 1,
    decreases scalar_size(a@) + scalar_size(b@) + 1, 0int,
{
    let ghost av = a@;
    let ghost bv = b@;
    if let ScalarExpr::Constant(1) = b {
        return a;
    }
    if let ScalarExpr::Constant(va) = a {
        if let ScalarExpr::Constant(vb) = b {
            if vb != 0 {
                return ScalarExpr::Constant(va / vb);
            }
        }
    }
    if let ScalarExpr::Add(l, rr) = &a {
        if let ScalarExpr::Constant(k) = &b {
            let k = *k;
            if let ScalarExpr::Mul(term, inner_r) = &**l {
                if let ScalarExpr::Constant(coeff) = &**inner_r {
                    if *coeff == k {
                        let t = (**term).duplicate();
                        let rest = (**rr).duplicate();
                        let kc = ScalarExpr::Constant(k);
                        let dv = ScalarExpr::Div(Box::new(rest), Box::new(kc));
                        proof {
                            assert(kc@ == cst(k));
                            assert(dv@ == ScalarV::Div(Box::new((**rr)@), Box::new(cst(k))));
                            assert(scalar_size(cst(k)) == 1);
                            assert(scalar_size(dv@) == 2 + scalar_size((**rr)@));
                        }
                        let new = ScalarExpr::Add(Box::new(t), Box::new(dv));
                        proof {
                            assert(new@ == ScalarV::Add(Box::new((**term)@), Box::new(dv@)));
                        }
                        proof {
                            assert((**inner_r)@ == ScalarV::Constant(k));
                            assert((**l)@ == ScalarV::Mul(Box::new((**term)@), Box::new(ScalarV::Constant(k))));
                            assert(av == ScalarV::Add(Box::new((**l)@), Box::new((**rr)@)));
                            assert(bv == ScalarV::Constant(k));
                            assert(scalar_size((**l)@) == 2 + scalar_size((**term)@));
                            assert(scalar_size(new@) == scalar_size(av));
                        }
                        proof {
                            assert forall|f: nat| f >= g0 implies #[trigger] simp_ok_f(new@, f) by {
                                assert(div_ok(av, bv, f));
                            }
                        }
                        let r = new.simp(Ghost(g0));
                        proof {
                            assert forall|g: nat| g >= g0 implies #[trigger] div_rule(av, bv, g) == r@ by {
                                assert(simp_f(new@, g) == r@);
                            }
                        }
                        return r;
                    }
                }
                return ScalarExpr::Div(Box::new(a), Box::new(b));
            }
            if let ScalarExpr::Mul(term, inner_r) = &**rr {
                if let ScalarExpr::Constant(coeff) = &**inner_r {
                    if *coeff == k {
                        let t = (**term).duplicate();
                        let rest = (**l).duplicate();
                        let kc = ScalarExpr::Constant(k);
                        let dv = ScalarExpr::Div(Box::new(rest), Box::new(kc));
                        proof {
                            assert(kc@ == cst(k));
                            assert(dv@ == ScalarV::Div(Box::new((**l)@), Box::new(cst(k))));
                            assert(scalar_size(cst(k)) == 1);
                            assert(scalar_size(dv@) == 2 + scalar_size((**l)@));
                        }
                        let new = ScalarExpr::Add(Box::new(t), Box::new(dv));
                        proof {
                            assert(new@ == ScalarV::Add(Box::new((**term)@), Box::new(dv@)));
                        }
                        proof {
                            assert((**inner_r)@ == ScalarV::Constant(k));
                            assert((**rr)@ == ScalarV::Mul(Box::new((**term)@), Box::new(ScalarV::Constant(k))));
                            assert(av == ScalarV::Add(Box::new((**l)@), Box::new((**rr)@)));
                            assert(bv == ScalarV::Constant(k));
                            assert(scalar_size((**rr)@) == 2 + scalar_size((**term)@));
                            assert(scalar_size(new@) == scalar_size(av));
                        }
                        proof {
                            assert forall|f: nat| f >= g0 implies #[trigger] simp_ok_f(new@, f) by {
                                assert(div_ok(av, bv, f));
                            }
                        }
                        let r = new.simp(Ghost(g0));
                        proof {
                            assert forall|g: nat| g >= g0 implies #[trigger] div_rule(av, bv, g) == r@ by {
                                assert(simp_f(new@, g) == r@);
                            }
                        }
                        return r;
                    }
                }
                return ScalarExpr::Div(Box::new(a), Box::new(b));
            }
            return ScalarExpr::Div(Box::new(a), Box::new(b));
        }
    }
    if let ScalarExpr::Constant(d) = b {
        if let Some(tz) = exact_log2_exec(d) {
            return ScalarExpr::BitShiftRight(Box::new(a), tz);
        }
    }
    ScalarExpr::Div(Box::new(a), Box::new(b))
}

fn mod_exec(a: ScalarExpr, b: ScalarExpr, Ghost(g0): Ghost<nat>) -> (r: ScalarExpr)
    requires
        g0 >= scalar_size(a@) + scalar_size(b@),
        forall|g: nat| g >= g0 ==> #[trigger] mod_ok(a@, b@, g),
    ensures
        forall|g: nat| g >= g0 ==> #[trigger] mod_rule(a@, b@, g) == r@,
        scalar_size(r@) <= scalar_size(a@) + scalar_size(b@) + 1,
    decreases scalar_size(a@) + scalar_size(b@) + 1, 0int,
{
    let ghost av = a@;
    let ghost bv = b@;
    if let ScalarExpr::Constant(va) = a {
        if let ScalarExpr::Constant(vb) = b {
            if vb != 0 {
                return ScalarExpr::Constant(va % vb);
            }
        }
    }
    if let ScalarExpr::Add(l, rr) = &a {
        if let ScalarExpr::Constant(k) = &b {
            let k = *k;
            if let ScalarExpr::Mul(lm, inner_r) = &**l {
                if let ScalarExpr::Constant(coeff) = &**inner_r {
                    if *coeff == k {
                        let rest = (**rr).duplicate();
                        let kc = ScalarExpr::Constant(k);
                        proof {
                            assert(kc@ == cst(k));
                            assert(scalar_size(cst(k)) == 1);
                        }
                        let new = ScalarExpr::Mod(Box::new(rest), Box::new(kc));
                        proof {
                            assert(new@ == ScalarV::Mod(Box::new((**rr)@), Box::new(cst(k))));
                        }
                        proof {
                            assert((**inner_r)@ == ScalarV::Constant(k));
                            assert((**l)@ == ScalarV::Mul(Box::new((**lm)@), Box::new(ScalarV::Constant(k))));
                            assert(av == ScalarV::Add(Box::new((**l)@), Box::new((**rr)@)));
                            assert(bv == ScalarV::Constant(k));
                            assert(scalar_size(ScalarV::Constant(k)) == 1);
                            assert(scalar_size(new@) == 2 + scalar_size((**rr)@) || scalar_size(new@) == 2 + scalar_size((**l)@));
                            assert(scalar_size(ScalarV::Mul(Box::new((**lm)@), Box::new(ScalarV::Constant(k)))) >= 2);
                            assert(scalar_size(new@) < scalar_size(av) + scalar_size(bv));
                        }
                        proof {
                            assert forall|f: nat| f >= g0 implies #[trigger] simp_ok_f(new@, f) by {
                                assert(mod_ok(av, bv, f));
                            }
                        }
                        let r = new.simp(Ghost(g0));
                        proof {
                            assert forall|g: nat| g >= g0 implies #[trigger] mod_rule(av, bv, g) == r@ by {
                                assert(simp_f(new@, g) == r@);
                            }
                        }
                        return r;
                    }
                }
                return ScalarExpr::Mod(Box::new(a), Box::new(b));
            }
            if let ScalarExpr::Mul(rm, inner_r) = &**rr {
                if let ScalarExpr::Constant(coeff) = &**inner_r {
                    if *coeff == k {
                        let rest = (**l).duplicate();
                        let kc = ScalarExpr::Constant(k);
                        proof {
                            assert(kc@ == cst(k));
                            assert(scalar_size(cst(k)) == 1);
                        }
                        let new = ScalarExpr::Mod(Box::new(rest), Box::new(kc));
                        proof {
                            assert(new@ == ScalarV::Mod(Box::new((**l)@), Box::new(cst(k))));
                        }
                        proof {
                            assert((**inner_r)@ == ScalarV::Constant(k));
                            assert((**rr)@ == ScalarV::Mul(Box::new((**rm)@), Box::new(ScalarV::Constant(k))));
                            assert(av == ScalarV::Add(Box::new((**l)@), Box::new((**rr)@)));
                            assert(bv == ScalarV::Constant(k));
                            assert(scalar_size(ScalarV::Constant(k)) == 1);
                            assert(scalar_size(new@) == 2 + scalar_size((**l)@));
                            assert(scalar_size(ScalarV::Mul(Box::new((**rm)@), Box::new(ScalarV::Constant(k)))) >= 2);
                            assert(scalar_size(new@) < scalar_size(av) + scalar_size(bv));
                        }
                        proof {
                            assert forall|f: nat| f >= g0 implies #[trigger] simp_ok_f(new@, f) by {
                                assert(mod_ok(av, bv, f));
                            }
                        }
                        let r = new.simp(Ghost(g0));
                        proof {
                            assert forall|g: nat| g >= g0 implies #[trigger] mod_rule(av, bv, g) == r@ by {
                                assert(simp_f(new@, g) == r@);
                            }
                        }
                        return r;
                    }
                }
                return ScalarExpr::Mod(Box::new(a), Box::new(b));
            }
            return ScalarExpr::Mod(Box::new(a), Box::new(b));
        }
    }
    if let ScalarExpr::Mul(m0, inner_r) = &a {
        if let ScalarExpr::Constant(k) = &b {
            proof {
                assert(av == ScalarV::Mul(Box::new((**m0)@), Box::new((**inner_r)@)));
            }
            if let ScalarExpr::Constant(coeff) = &**inner_r {
                if *coeff == *k {
                    return ScalarExpr::Constant(0);
                }
            }
            proof {
                assert(!is_cst((**inner_r)@, *k));
            }
        }
    }
    ScalarExpr::Mod(Box::new(a), Box::new(b))
}

fn and_exec(a: ScalarExpr, b: ScalarExpr) -> (r: ScalarExpr)
    ensures
        r@ == and_rule(a@, b@),
        scalar_size(r@) <= scalar_size(a@) + scalar_size(b@) + 1,
{
    if let ScalarExpr::Constant(0) = a {
        return ScalarExpr::Constant(0);
    }
    if let ScalarExpr::Constant(0) = b {
        return ScalarExpr::Constant(0);
    }
    if let ScalarExpr::Constant(_) = a {
        return b;
    }
    if let ScalarExpr::Constant(_) = b {
        return a;
    }
    ScalarExpr::And(Box::new(a), Box::new(b))
}

impl Clone for ScalarExpr {
    fn clone(&self) -> (r: ScalarExpr)
        ensures
            r@ == self@,
    {
        self.duplicate()
    }
}

} // verus!
