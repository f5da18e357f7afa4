//! The CUDA text of a scalar expression computes the expression: it is the
//! text of a C expression tree whose operators, spelled as C spells them and
//! read with C's meaning on unsigned 64-bit values, evaluate to the value of
//! the scalar expression. Decimal literals read back as the numbers printed.
use vstd::prelude::*;
use crate::layout::scalar::{ScalarV, eval_scalar, bit_linear, row_parity, low_image, low_mask};
use crate::viz::{
    cuda_text, cuda_ok, decimal, digit_char, joined, bit_term, row_terms, row_text, matrix_terms, high_bits_text,
    bit_linear_text, binary_text,
};

verus! {

/// A binary operator of C.
pub enum COp {
    Add,
    Mul,
    Div,
    Rem,
    BitXor,
    BitOr,
    BitAnd,
    Shr,
    Shl,
    Less,
    Equal,
    NotEqual,
    LogicalAnd,
}

/// How C spells an operator (with a space on each side).
pub open spec fn op_text(op: COp) -> Seq<char> {
    match op {
        COp::Add => " + "@,
        COp::Mul => " * "@,
        COp::Div => " / "@,
        COp::Rem => " % "@,
        COp::BitXor => " ^ "@,
        COp::BitOr => " | "@,
        COp::BitAnd => " & "@,
        COp::Shr => " >> "@,
        COp::Shl => " << "@,
        COp::Less => " < "@,
        COp::Equal => " == "@,
        COp::NotEqual => " != "@,
        COp::LogicalAnd => " && "@,
    }
}

/// What an operator means in C on unsigned 64-bit operands: arithmetic
/// modulo 2^64, integer division and remainder (undefined by zero), shifts
/// (undefined by 64 or more), and comparisons and `&&` giving 1 or 0.
pub open spec fn op_value(op: COp, a: u64, b: u64) -> Option<u64> {
    match op {
        COp::Add => Some(a.wrapping_add(b)),
        COp::Mul => Some(a.wrapping_mul(b)),
        COp::Div => if b == 0 { None } else { Some(a / b) },
        COp::Rem => if b == 0 { None } else { Some(a % b) },
        COp::BitXor => Some(a ^ b),
        COp::BitOr => Some(a | b),
        COp::BitAnd => Some(a & b),
        COp::Shr => if b < 64 { Some(a >> b) } else { None },
        COp::Shl => if b < 64 { Some(a << b) } else { None },
        COp::Less => Some(if a < b { 1 } else { 0 }),
        COp::Equal => Some(if a == b { 1 } else { 0 }),
        COp::NotEqual => Some(if a != b { 1 } else { 0 }),
        COp::LogicalAnd => Some(if a != 0 && b != 0 { 1 } else { 0 }),
    }
}

/// A C expression: the variable holding input `k`, a decimal literal, a
/// parenthesized expression, or an operator between two expressions.
pub enum CExpr {
    Var(nat),
    Lit(u64),
    Paren(Box<CExpr>),
    Bin(Box<CExpr>, COp, Box<CExpr>),
}

/// The name of the variable that holds input `k`.
pub open spec fn input_name(names: Seq<Seq<char>>, k: nat) -> Seq<char> {
    if k < names.len() {
        names[k as int]
    } else {
        "i"@ + decimal(k)
    }
}

/// The text of a C expression.
pub open spec fn c_text(c: CExpr, names: Seq<Seq<char>>) -> Seq<char>
    decreases c,
{
    match c {
        CExpr::Var(k) => input_name(names, k),
        CExpr::Lit(n) => decimal(n as nat),
        CExpr::Paren(a) => "("@ + c_text(*a, names) + ")"@,
        CExpr::Bin(a, op, b) => c_text(*a, names) + op_text(op) + c_text(*b, names),
    }
}

/// The value of a C expression on the inputs `x` (`None` where C leaves it
/// undefined).
pub open spec fn c_value(c: CExpr, x: Seq<u64>) -> Option<u64>
    decreases c,
{
    match c {
        CExpr::Var(k) => if k < x.len() { Some(x[k as int]) } else { None },
        CExpr::Lit(n) => Some(n),
        CExpr::Paren(a) => c_value(*a, x),
        CExpr::Bin(a, op, b) => match (c_value(*a, x), c_value(*b, x)) {
            (Some(va), Some(vb)) => op_value(op, va, vb),
            _ => None,
        },
    }
}

/// The tree is how C parses its text: an operator's right operand is not
/// itself an unparenthesized operation, and its left operand is one only
/// with the same operator (C groups equal operators from the left).
pub open spec fn c_wf(c: CExpr) -> bool
    decreases c,
{
    match c {
        CExpr::Paren(a) => c_wf(*a),
        CExpr::Bin(a, op, b) => {
            &&& c_wf(*a)
            &&& c_wf(*b)
            &&& !(*b is Bin)
            &&& (*a matches CExpr::Bin(_, op2, _) ==> op2 == op)
        },
        _ => true,
    }
}

/// The value of a decimal text, read digit by digit.
pub open spec fn digits_value(t: Seq<char>) -> int
    decreases t.len(),
{
    if t.len() == 0 {
        0
    } else {
        digits_value(t.drop_last()) * 10 + (t.last() as int - 48)
    }
}

/// Every character is a decimal digit.
pub open spec fn all_digits(t: Seq<char>) -> bool {
    forall|i: int| 0 <= i < t.len() ==> '0' <= #[trigger] t[i] <= '9'
}

/// The decimal text of `n` is a nonempty string of digits, without a leading
/// zero unless `n` is 0, that reads back as `n`.
pub proof fn lemma_decimal_reads_back(n: nat)
    ensures
        decimal(n).len() >= 1,
        all_digits(decimal(n)),
        digits_value(decimal(n)) == n,
        n > 0 ==> decimal(n)[0] != '0',
    decreases n,
{
    if n < 10 {
        assert(decimal(n) == seq![digit_char(n)]);
        assert(seq![digit_char(n)].drop_last() =~= Seq::<char>::empty());
        assert(digit_char(n) as int == 48 + n);
        assert(digits_value(Seq::<char>::empty()) == 0);
        assert(digits_value(decimal(n)) == digits_value(Seq::<char>::empty()) * 10 + (digit_char(n) as int - 48));
    } else {
        lemma_decimal_reads_back(n / 10);
        let t = decimal(n);
        let p = decimal(n / 10);
        assert(t == p + seq![digit_char(n % 10)]);
        assert(t.drop_last() =~= p);
        assert(t[0] == p[0]);
        assert(digit_char(n % 10) as int == 48 + n % 10);
        assert(t.last() == digit_char(n % 10));
        assert(digits_value(t) == digits_value(p) * 10 + (n % 10));
        assert forall|i: int| 0 <= i < t.len() implies '0' <= #[trigger] t[i] <= '9' by {
            if i < p.len() {
                assert(t[i] == p[i]);
            }
        }
    }
}

/// The scalar expression can be evaluated as C evaluates its text: inputs
/// exist, divisors are nonzero, shifts are below 64 and bit matrices have
/// fewer than 64 rows.
pub open spec fn c_evaluable(e: ScalarV, x: Seq<u64>) -> bool
    decreases e,
{
    match e {
        ScalarV::Input(i) => i < x.len(),
        ScalarV::Constant(_) => true,
        ScalarV::Add(a, b) => c_evaluable(*a, x) && c_evaluable(*b, x),
        ScalarV::Mul(a, b) => c_evaluable(*a, x) && c_evaluable(*b, x),
        ScalarV::Div(a, b) => c_evaluable(*a, x) && c_evaluable(*b, x) && eval_scalar(*b, x) != 0,
        ScalarV::Mod(a, b) => c_evaluable(*a, x) && c_evaluable(*b, x) && eval_scalar(*b, x) != 0,
        ScalarV::Xor(a, b) => c_evaluable(*a, x) && c_evaluable(*b, x),
        ScalarV::BitShiftRight(a, s) => c_evaluable(*a, x) && s < 64,
        ScalarV::BitLinear(a, m) => c_evaluable(*a, x) && m.len() < 64,
        ScalarV::Lt(a, b) => c_evaluable(*a, x) && c_evaluable(*b, x),
        ScalarV::Eq(a, b) => c_evaluable(*a, x) && c_evaluable(*b, x),
        ScalarV::And(a, b) => c_evaluable(*a, x) && c_evaluable(*b, x),
    }
}

/// The parenthesized operation `(a op b)`.
pub open spec fn pbin(a: CExpr, op: COp, b: CExpr) -> CExpr {
    CExpr::Paren(Box::new(CExpr::Bin(Box::new(a), op, Box::new(b))))
}

proof fn lemma_pbin(a: CExpr, op: COp, b: CExpr, names: Seq<Seq<char>>, x: Seq<u64>)
    requires
        c_wf(a),
        c_wf(b),
        !(a is Bin),
        !(b is Bin),
    ensures
        c_wf(pbin(a, op, b)),
        c_text(pbin(a, op, b), names) == binary_text(c_text(a, names), op_text(op), c_text(b, names)),
        c_value(pbin(a, op, b), x) == match (c_value(a, x), c_value(b, x)) {
            (Some(va), Some(vb)) => op_value(op, va, vb),
            _ => None,
        },
{
    let inner = CExpr::Bin(Box::new(a), op, Box::new(b));
    assert(c_wf(inner));
    assert(c_value(pbin(a, op, b), x) == c_value(inner, x));
    assert(c_text(inner, names) == c_text(a, names) + op_text(op) + c_text(b, names));
    assert(c_text(pbin(a, op, b), names) =~= binary_text(c_text(a, names), op_text(op), c_text(b, names)));
}


/// The operations `ts[0] op ts[1] op ...`, grouped from the left as C
/// groups them.
pub open spec fn chain(ts: Seq<CExpr>, op: COp) -> CExpr
    decreases ts.len(),
{
    if ts.len() <= 1 {
        ts[0]
    } else {
        CExpr::Bin(Box::new(chain(ts.drop_last(), op)), op, Box::new(ts.last()))
    }
}

/// The texts of a list of C expressions.
pub open spec fn texts(ts: Seq<CExpr>, names: Seq<Seq<char>>) -> Seq<Seq<char>> {
    Seq::new(ts.len(), |i: int| c_text(ts[i], names))
}

/// The value of `ts[0] op ts[1] op ...`, grouped from the left.
pub open spec fn fold_value(ts: Seq<CExpr>, op: COp, x: Seq<u64>) -> Option<u64>
    decreases ts.len(),
{
    if ts.len() <= 1 {
        c_value(ts[0], x)
    } else {
        match (fold_value(ts.drop_last(), op, x), c_value(ts.last(), x)) {
            (Some(a), Some(b)) => op_value(op, a, b),
            _ => None,
        }
    }
}

/// Every expression of the list is well parsed and not an unparenthesized
/// operation.
pub open spec fn atoms(ts: Seq<CExpr>) -> bool {
    forall|i: int| 0 <= i < ts.len() ==> c_wf(#[trigger] ts[i]) && !(ts[i] is Bin)
}

proof fn lemma_chain(ts: Seq<CExpr>, op: COp, names: Seq<Seq<char>>, x: Seq<u64>)
    requires
        ts.len() >= 1,
        atoms(ts),
    ensures
        c_wf(chain(ts, op)),
        c_text(chain(ts, op), names) == joined(texts(ts, names), op_text(op)),
        c_value(chain(ts, op), x) == fold_value(ts, op, x),
    decreases ts.len(),
{
    if ts.len() > 1 {
        let p = ts.drop_last();
        assert(atoms(p)) by {
            assert forall|i: int| 0 <= i < p.len() implies c_wf(#[trigger] p[i]) && !(p[i] is Bin) by {
                assert(p[i] == ts[i]);
            }
        }
        lemma_chain(p, op, names, x);
        assert(texts(p, names) =~= texts(ts, names).drop_last());
        assert(ts.last() == ts[ts.len() - 1]);
        assert(c_wf(ts.last()));
    } else {
        assert(texts(ts, names) =~= seq![c_text(ts[0], names)]);
    }
}

/// The tree of bit `j` of `a`: `((a >> j) & 1)`.
pub open spec fn bit_tree(a: CExpr, j: u64) -> CExpr {
    pbin(pbin(a, COp::Shr, CExpr::Lit(j)), COp::BitAnd, CExpr::Lit(1))
}

proof fn lemma_bit_tree(a: CExpr, j: u64, names: Seq<Seq<char>>, x: Seq<u64>, v: u64)
    requires
        c_wf(a),
        !(a is Bin),
        c_value(a, x) == Some(v),
        j < 64,
    ensures
        c_wf(bit_tree(a, j)),
        !(bit_tree(a, j) is Bin),
        c_text(bit_tree(a, j), names) == bit_term(c_text(a, names), j as nat),
        c_value(bit_tree(a, j), x) == Some((v >> j) & 1u64),
{
    let inner = pbin(a, COp::Shr, CExpr::Lit(j));
    lemma_pbin(a, COp::Shr, CExpr::Lit(j), names, x);
    lemma_pbin(inner, COp::BitAnd, CExpr::Lit(1), names, x);
    reveal_strlit("((");
    reveal_strlit("(");
    reveal_strlit(")");
    reveal_strlit(") & 1)");
    reveal_strlit(" & ");
    assert(decimal(1) =~= seq![digit_char(1)]);
    assert(digit_char(1) == '1');
    assert(c_text(bit_tree(a, j), names) =~= bit_term(c_text(a, names), j as nat));
}

/// The trees of the bits of `a` that `row` selects among columns `0..k`.
pub open spec fn row_trees(a: CExpr, row: Seq<u8>, k: int) -> Seq<CExpr>
    decreases k,
{
    if k <= 0 {
        seq![]
    } else {
        let prev = row_trees(a, row, k - 1);
        if row[k - 1] % 2 == 1 {
            prev.push(bit_tree(a, (k - 1) as u64))
        } else {
            prev
        }
    }
}

proof fn lemma_row_trees(a: CExpr, row: Seq<u8>, k: int, names: Seq<Seq<char>>, x: Seq<u64>, v: u64)
    requires
        c_wf(a),
        !(a is Bin),
        c_value(a, x) == Some(v),
        0 <= k < 64,
    ensures
        atoms(row_trees(a, row, k)),
        texts(row_trees(a, row, k), names) == row_terms(c_text(a, names), row, k),
        row_trees(a, row, k).len() == 0 ==> row_parity(v, row, k) == 0,
        row_trees(a, row, k).len() > 0 ==> fold_value(row_trees(a, row, k), COp::BitXor, x) == Some(
            row_parity(v, row, k),
        ),
    decreases k,
{
    if k > 0 {
        lemma_row_trees(a, row, k - 1, names, x, v);
        let prev = row_trees(a, row, k - 1);
        let j = (k - 1) as u64;
        let b = (v >> j) & 1u64;
        let r = row[k - 1];
        let pp = row_parity(v, row, k - 1);
        assert(row_parity(v, row, k) == pp ^ (b & (r as u64)));
        if r % 2 == 1 {
            assert(b & (r as u64) == b) by (bit_vector)
                requires
                    b == (v >> j) & 1u64,
                    r % 2 == 1,
            ;
            lemma_bit_tree(a, j, names, x, v);
            let cur = prev.push(bit_tree(a, j));
            assert(row_trees(a, row, k) == cur);
            assert(atoms(cur)) by {
                assert forall|i: int| 0 <= i < cur.len() implies c_wf(#[trigger] cur[i]) && !(cur[i] is Bin) by {
                    if i < prev.len() {
                        assert(cur[i] == prev[i]);
                    }
                }
            }
            assert(texts(cur, names) =~= texts(prev, names).push(c_text(bit_tree(a, j), names)));
            assert(cur.drop_last() =~= prev);
            if prev.len() == 0 {
                assert(pp ^ b == b) by (bit_vector)
                    requires
                        pp == 0,
                ;
            }
        } else {
            assert(b & (r as u64) == 0) by (bit_vector)
                requires
                    b == (v >> j) & 1u64,
                    r % 2 == 0,
            ;
            assert(pp ^ 0u64 == pp) by (bit_vector);
        }
    }
}

/// The tree of output bit `i` of a bit-linear map with row `row` of size
/// `d`: `((bit ^ bit ^ ...) << i)`, or nothing when the row selects no bit.
pub open spec fn row_tree(a: CExpr, row: Seq<u8>, i: int, d: int) -> Seq<CExpr> {
    let rt = row_trees(a, row, d);
    if rt.len() == 0 {
        seq![]
    } else {
        seq![pbin(CExpr::Paren(Box::new(chain(rt, COp::BitXor))), COp::Shl, CExpr::Lit(i as u64))]
    }
}

/// The trees of output bits `0..k` of the bit-linear map of `m` on `a`.
pub open spec fn matrix_trees(a: CExpr, m: Seq<Seq<u8>>, k: int) -> Seq<CExpr>
    decreases k,
{
    if k <= 0 {
        seq![]
    } else {
        matrix_trees(a, m, k - 1) + row_tree(a, m[k - 1], k - 1, m.len() as int)
    }
}

proof fn lemma_matrix_trees(a: CExpr, m: Seq<Seq<u8>>, k: int, names: Seq<Seq<char>>, x: Seq<u64>, v: u64)
    requires
        c_wf(a),
        !(a is Bin),
        c_value(a, x) == Some(v),
        0 <= k <= m.len(),
        m.len() < 64,
    ensures
        atoms(matrix_trees(a, m, k)),
        texts(matrix_trees(a, m, k), names) == matrix_terms(c_text(a, names), m, k),
        matrix_trees(a, m, k).len() == 0 ==> low_image(v, m, k) == 0,
        matrix_trees(a, m, k).len() > 0 ==> fold_value(matrix_trees(a, m, k), COp::BitOr, x) == Some(
            low_image(v, m, k),
        ),
    decreases k,
{
    if k > 0 {
        lemma_matrix_trees(a, m, k - 1, names, x, v);
        let d = m.len() as int;
        let prev = matrix_trees(a, m, k - 1);
        let row = m[k - 1];
        let i = (k - 1) as u64;
        let rt = row_trees(a, row, d);
        lemma_row_trees(a, row, d, names, x, v);
        let par = row_parity(v, row, d);
        let li = low_image(v, m, k - 1);
        assert(low_image(v, m, k) == li | (par << i));
        let txt = c_text(a, names);
        if rt.len() == 0 {
            assert(row_terms(txt, row, d).len() == 0);
            assert(row_text(txt, row, k - 1, d) =~= Seq::<Seq<char>>::empty());
            assert(matrix_trees(a, m, k) =~= prev);
            assert(par == 0);
            assert(li | (0u64 << i) == li) by (bit_vector);
            assert(matrix_terms(txt, m, k) =~= matrix_terms(txt, m, k - 1));
        } else {
            lemma_chain(rt, COp::BitXor, names, x);
            let p = CExpr::Paren(Box::new(chain(rt, COp::BitXor)));
            assert(c_wf(p));
            assert(c_value(p, x) == Some(par));
            lemma_pbin(p, COp::Shl, CExpr::Lit(i), names, x);
            let el = pbin(p, COp::Shl, CExpr::Lit(i));
            assert(c_value(el, x) == Some(par << i));
            let cur = matrix_trees(a, m, k);
            assert(cur =~= prev.push(el));
            assert(atoms(cur)) by {
                assert forall|j: int| 0 <= j < cur.len() implies c_wf(#[trigger] cur[j]) && !(cur[j] is Bin) by {
                    if j < prev.len() {
                        assert(cur[j] == prev[j]);
                    }
                }
            }
            reveal_strlit("((");
            reveal_strlit("(");
            reveal_strlit(")");
            reveal_strlit(") << ");
            reveal_strlit(" << ");
            assert(c_text(p, names) == "("@ + joined(texts(rt, names), " ^ "@) + ")"@);
            assert(c_text(el, names) =~= "(("@ + joined(row_terms(txt, row, d), " ^ "@) + ") << "@ + decimal(
                (k - 1) as nat,
            ) + ")"@);
            assert(row_text(txt, row, k - 1, d) =~= seq![c_text(el, names)]);
            assert(texts(cur, names) =~= texts(prev, names) + seq![c_text(el, names)]);
            assert(cur.drop_last() =~= prev);
            if prev.len() == 0 {
                assert(li | (par << i) == (par << i)) by (bit_vector)
                    requires
                        li == 0,
                ;
            }
        }
    }
}

/// The tree of the bits of `a` from bit `d` up: `((a >> d) << d)`.
pub open spec fn high_tree(a: CExpr, d: u64) -> CExpr {
    pbin(pbin(a, COp::Shr, CExpr::Lit(d)), COp::Shl, CExpr::Lit(d))
}

/// The CUDA text of a bit-linear map on the text of `a` is the text of a C
/// expression whose value is the bit-linear map of the value of `a`.
proof fn lemma_bit_linear_reads_back(a: CExpr, m: Seq<Seq<u8>>, names: Seq<Seq<char>>, x: Seq<u64>) -> (c: CExpr)
    requires
        c_wf(a),
        !(a is Bin),
        c_value(a, x) is Some,
        m.len() < 64,
    ensures
        c_wf(c),
        !(c is Bin),
        c_text(c, names) == bit_linear_text(c_text(a, names), m),
        c_value(c, x) == Some(bit_linear(c_value(a, x)->0, m)),
{
    let v = c_value(a, x)->0;
    let d = m.len() as int;
    let du = d as u64;
    let txt = c_text(a, names);
    lemma_matrix_trees(a, m, d, names, x, v);
    let mt = matrix_trees(a, m, d);
    let inner = pbin(a, COp::Shr, CExpr::Lit(du));
    lemma_pbin(a, COp::Shr, CExpr::Lit(du), names, x);
    lemma_pbin(inner, COp::Shl, CExpr::Lit(du), names, x);
    let h = high_tree(a, du);
    reveal_strlit("((");
    reveal_strlit("(");
    reveal_strlit(")");
    reveal_strlit(") << ");
    reveal_strlit(" << ");
    assert(c_text(h, names) =~= high_bits_text(txt, m.len()));
    let ts = mt.push(h);
    assert(atoms(ts)) by {
        assert forall|j: int| 0 <= j < ts.len() implies c_wf(#[trigger] ts[j]) && !(ts[j] is Bin) by {
            if j < mt.len() {
                assert(ts[j] == mt[j]);
            }
        }
    }
    lemma_chain(ts, COp::BitOr, names, x);
    assert(texts(ts, names) =~= texts(mt, names).push(c_text(h, names)));
    let c = CExpr::Paren(Box::new(chain(ts, COp::BitOr)));
    assert(c_text(c, names) =~= bit_linear_text(txt, m));
    let hv = (v >> du) << du;
    assert(c_value(h, x) == Some(hv));
    let lm = low_mask(m.len());
    assert(lm == ((1u64 << du) - 1u64) as u64);
    assert(hv == v & !lm) by (bit_vector)
        requires
            hv == (v >> du) << du,
            du < 64,
            lm == ((1u64 << du) - 1u64) as u64,
    ;
    let li = low_image(v, m, d);
    assert(bit_linear(v, m) == li | (v & !low_mask(m.len())));
    assert(ts.drop_last() =~= mt);
    if mt.len() == 0 {
        assert(li | hv == hv) by (bit_vector)
            requires
                li == 0,
        ;
    }
    c
}

/// The literal `0`.
proof fn lemma_zero_literal(names: Seq<Seq<char>>)
    ensures
        c_text(CExpr::Lit(0), names) == "0"@,
{
    reveal_strlit("0");
    assert(decimal(0) =~= seq![digit_char(0)]);
    assert(digit_char(0) == '0');
    assert(c_text(CExpr::Lit(0), names) =~= "0"@);
}

/// The CUDA text of every scalar expression that C can evaluate is the text
/// of a C expression, parsed as C parses it, whose value on the inputs is
/// the value of the scalar expression: each operation is printed as the C
/// operator with its meaning, each input as its variable and each constant
/// as its decimal literal.
pub proof fn lemma_cuda_text_reads_back(e: ScalarV, names: Seq<Seq<char>>, x: Seq<u64>) -> (c: CExpr)
    requires
        c_evaluable(e, x),
        cuda_ok(e),
    ensures
        c_wf(c),
        !(c is Bin),
        c_text(c, names) == cuda_text(e, names),
        c_value(c, x) == Some(eval_scalar(e, x)),
    decreases e,
{
    match e {
        ScalarV::Input(i) => CExpr::Var(i as nat),
        ScalarV::Constant(k) => CExpr::Lit(k),
        ScalarV::Add(a, b) => {
            let ca = lemma_cuda_text_reads_back(*a, names, x);
            let cb = lemma_cuda_text_reads_back(*b, names, x);
            lemma_pbin(ca, COp::Add, cb, names, x);
            pbin(ca, COp::Add, cb)
        },
        ScalarV::Mul(a, b) => {
            let ca = lemma_cuda_text_reads_back(*a, names, x);
            let cb = lemma_cuda_text_reads_back(*b, names, x);
            lemma_pbin(ca, COp::Mul, cb, names, x);
            pbin(ca, COp::Mul, cb)
        },
        ScalarV::Div(a, b) => {
            let ca = lemma_cuda_text_reads_back(*a, names, x);
            let cb = lemma_cuda_text_reads_back(*b, names, x);
            lemma_pbin(ca, COp::Div, cb, names, x);
            pbin(ca, COp::Div, cb)
        },
        ScalarV::Mod(a, b) => {
            let ca = lemma_cuda_text_reads_back(*a, names, x);
            let cb = lemma_cuda_text_reads_back(*b, names, x);
            lemma_pbin(ca, COp::Rem, cb, names, x);
            pbin(ca, COp::Rem, cb)
        },
        ScalarV::Xor(a, b) => {
            let ca = lemma_cuda_text_reads_back(*a, names, x);
            let cb = lemma_cuda_text_reads_back(*b, names, x);
            lemma_pbin(ca, COp::BitXor, cb, names, x);
            pbin(ca, COp::BitXor, cb)
        },
        ScalarV::BitShiftRight(a, sh) => {
            let ca = lemma_cuda_text_reads_back(*a, names, x);
            let cb = CExpr::Lit(sh as u64);
            lemma_pbin(ca, COp::Shr, cb, names, x);
            let va = eval_scalar(*a, x);
            assert((va >> sh) == (va >> (sh as u64))) by (bit_vector)
                requires
                    sh < 64,
            ;
            pbin(ca, COp::Shr, cb)
        },
        ScalarV::Lt(a, b) => {
            let ca = lemma_cuda_text_reads_back(*a, names, x);
            let cb = lemma_cuda_text_reads_back(*b, names, x);
            lemma_pbin(ca, COp::Less, cb, names, x);
            pbin(ca, COp::Less, cb)
        },
        ScalarV::Eq(a, b) => {
            let ca = lemma_cuda_text_reads_back(*a, names, x);
            let cb = lemma_cuda_text_reads_back(*b, names, x);
            lemma_pbin(ca, COp::Equal, cb, names, x);
            pbin(ca, COp::Equal, cb)
        },
        ScalarV::And(a, b) => {
            let ca = lemma_cuda_text_reads_back(*a, names, x);
            let cb = lemma_cuda_text_reads_back(*b, names, x);
            let z = CExpr::Lit(0);
            lemma_zero_literal(names);
            lemma_pbin(ca, COp::NotEqual, z, names, x);
            lemma_pbin(cb, COp::NotEqual, z, names, x);
            let la = pbin(ca, COp::NotEqual, z);
            let lb = pbin(cb, COp::NotEqual, z);
            lemma_pbin(la, COp::LogicalAnd, lb, names, x);
            pbin(la, COp::LogicalAnd, lb)
        },
        ScalarV::BitLinear(a, m) => {
            let ca = lemma_cuda_text_reads_back(*a, names, x);
            lemma_bit_linear_reads_back(ca, m, names, x)
        },
    }
}

} // verus!
