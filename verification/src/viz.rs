//! Output for people and compilers: CUDA C++ text for lowered index
//! arithmetic.
use vstd::prelude::*;
use vstd::string::*;
use crate::layout::scalar::{ScalarExpr, ScalarV, matrix_view};
use crate::space::{
    Space, SpaceV, Valuation, KindV, Kind, eval_extent, simplify_extent, simplify_extent_ok,
    volume_of,
};
use crate::layout::expr::{
    Expression, ExprV, expr_source, expr_source_ok, expr_target, expr_target_ok,
};
use crate::layout::apply::{expr_apply, expr_apply_ok};
use crate::layout::lower::{ext_or_one, ext_or_one_exec};

verus! {

/// The decimal digit `d`.
pub open spec fn digit_char(d: nat) -> char {
    (48 + d) as char
}

/// The decimal text of `n`, without leading zeros.
pub open spec fn decimal(n: nat) -> Seq<char>
    decreases n,
{
    if n < 10 {
        seq![digit_char(n)]
    } else {
        decimal(n / 10) + seq![digit_char(n % 10)]
    }
}

/// The text of a list of terms joined by `sep`.
pub open spec fn joined(ts: Seq<Seq<char>>, sep: Seq<char>) -> Seq<char>
    decreases ts.len(),
{
    if ts.len() == 0 {
        seq![]
    } else if ts.len() == 1 {
        ts[0]
    } else {
        joined(ts.drop_last(), sep) + sep + ts.last()
    }
}

/// The CUDA text of bit `j` of `v`.
pub open spec fn bit_term(v: Seq<char>, j: nat) -> Seq<char> {
    "(("@ + v + " >> "@ + decimal(j) + ") & 1)"@
}

/// The bit terms of a row of a bit-linear map for columns `0..k`: bit `j` of
/// `v` for each column whose entry is odd.
pub open spec fn row_terms(v: Seq<char>, row: Seq<u8>, k: int) -> Seq<Seq<char>>
    decreases k,
{
    if k <= 0 {
        seq![]
    } else {
        let prev = row_terms(v, row, k - 1);
        if row[k - 1] % 2 == 1 {
            prev.push(bit_term(v, (k - 1) as nat))
        } else {
            prev
        }
    }
}

/// The text of output bit `i` of a bit-linear map of size `d`: the xor of
/// the bit terms of its row, shifted to bit `i` (no text when the row has no
/// odd entry, as the bit is then 0).
pub open spec fn row_text(v: Seq<char>, row: Seq<u8>, i: int, d: int) -> Seq<Seq<char>> {
    let ts = row_terms(v, row, d);
    if ts.len() == 0 {
        seq![]
    } else {
        seq!["(("@ + joined(ts, " ^ "@) + ") << "@ + decimal(i as nat) + ")"@]
    }
}

/// The texts of output bits `0..k` of a bit-linear map.
pub open spec fn matrix_terms(v: Seq<char>, m: Seq<Seq<u8>>, k: int) -> Seq<Seq<char>>
    decreases k,
{
    if k <= 0 {
        seq![]
    } else {
        matrix_terms(v, m, k - 1) + row_text(v, m[k - 1], k - 1, m.len() as int)
    }
}

/// The bits of `v` from bit `d` up, in place.
pub open spec fn high_bits_text(v: Seq<char>, d: nat) -> Seq<char> {
    "(("@ + v + " >> "@ + decimal(d) + ") << "@ + decimal(d) + ")"@
}

/// The CUDA text of a bit-linear map of size `d` applied to the text `v`:
/// the or of its output bits `0..d` (each the xor of the bits of `v` that its
/// row selects) and the bits of `v` from bit `d` up.
pub open spec fn bit_linear_text(v: Seq<char>, m: Seq<Seq<u8>>) -> Seq<char> {
    "("@ + joined(matrix_terms(v, m, m.len() as int).push(high_bits_text(v, m.len())), " | "@) + ")"@
}

/// The CUDA text of a binary operation.
pub open spec fn binary_text(a: Seq<char>, op: Seq<char>, b: Seq<char>) -> Seq<char> {
    "("@ + a + op + b + ")"@
}

/// The CUDA C++ text of a scalar expression: inputs by their names (or
/// `i<k>` past the names given), constants in decimal, arithmetic, bit
/// operations and comparisons parenthesized, and a conjunction as the
/// conjunction of its operands being nonzero.
pub open spec fn cuda_text(e: ScalarV, names: Seq<Seq<char>>) -> Seq<char>
    decreases e,
{
    match e {
        ScalarV::Input(i) => if i < names.len() {
            names[i as int]
        } else {
            "i"@ + decimal(i as nat)
        },
        ScalarV::Constant(c) => decimal(c as nat),
        ScalarV::Add(a, b) => binary_text(cuda_text(*a, names), " + "@, cuda_text(*b, names)),
        ScalarV::Mul(a, b) => binary_text(cuda_text(*a, names), " * "@, cuda_text(*b, names)),
        ScalarV::Div(a, b) => binary_text(cuda_text(*a, names), " / "@, cuda_text(*b, names)),
        ScalarV::Mod(a, b) => binary_text(cuda_text(*a, names), " % "@, cuda_text(*b, names)),
        ScalarV::Xor(a, b) => binary_text(cuda_text(*a, names), " ^ "@, cuda_text(*b, names)),
        ScalarV::BitShiftRight(a, s) => binary_text(cuda_text(*a, names), " >> "@, decimal(s as nat)),
        ScalarV::BitLinear(a, m) => bit_linear_text(cuda_text(*a, names), m),
        ScalarV::Lt(a, b) => binary_text(cuda_text(*a, names), " < "@, cuda_text(*b, names)),
        ScalarV::Eq(a, b) => binary_text(cuda_text(*a, names), " == "@, cuda_text(*b, names)),
        ScalarV::And(a, b) => binary_text(
            binary_text(cuda_text(*a, names), " != "@, "0"@),
            " && "@,
            binary_text(cuda_text(*b, names), " != "@, "0"@),
        ),
    }
}

/// Printing does not panic: the rows of every bit-linear matrix are at least
/// as long as it has rows.
pub open spec fn cuda_ok(e: ScalarV) -> bool
    decreases e,
{
    match e {
        ScalarV::Add(a, b) => cuda_ok(*a) && cuda_ok(*b),
        ScalarV::Mul(a, b) => cuda_ok(*a) && cuda_ok(*b),
        ScalarV::Div(a, b) => cuda_ok(*a) && cuda_ok(*b),
        ScalarV::Mod(a, b) => cuda_ok(*a) && cuda_ok(*b),
        ScalarV::Xor(a, b) => cuda_ok(*a) && cuda_ok(*b),
        ScalarV::BitShiftRight(a, _) => cuda_ok(*a),
        ScalarV::BitLinear(a, m) => cuda_ok(*a) && crate::layout::gf2::rows_cover(m),
        ScalarV::Lt(a, b) => cuda_ok(*a) && cuda_ok(*b),
        ScalarV::Eq(a, b) => cuda_ok(*a) && cuda_ok(*b),
        ScalarV::And(a, b) => cuda_ok(*a) && cuda_ok(*b),
        _ => true,
    }
}

/// The names, by their text.
pub open spec fn names_view(names: Seq<&str>) -> Seq<Seq<char>> {
    Seq::new(names.len(), |i: int| names[i]@)
}

fn digit_str(d: u64) -> (r: &'static str)
    requires
        d < 10,
    ensures
        r@ == seq![digit_char(d as nat)],
{
    proof {
        reveal_strlit("0");
        reveal_strlit("1");
        reveal_strlit("2");
        reveal_strlit("3");
        reveal_strlit("4");
        reveal_strlit("5");
        reveal_strlit("6");
        reveal_strlit("7");
        reveal_strlit("8");
        reveal_strlit("9");
    }
    let r = if d == 0 {
        "0"
    } else if d == 1 {
        "1"
    } else if d == 2 {
        "2"
    } else if d == 3 {
        "3"
    } else if d == 4 {
        "4"
    } else if d == 5 {
        "5"
    } else if d == 6 {
        "6"
    } else if d == 7 {
        "7"
    } else if d == 8 {
        "8"
    } else {
        "9"
    };
    assert(r@ =~= seq![digit_char(d as nat)]);
    r
}

/// Appends the decimal text of `n`.
fn append_decimal(out: &mut String, n: u64)
    ensures
        final(out)@ == old(out)@ + decimal(n as nat),
    decreases n,
{
    if n < 10 {
        out.append(digit_str(n));
    } else {
        append_decimal(out, n / 10);
        out.append(digit_str(n % 10));
        proof {
            assert(decimal(n as nat) == decimal((n / 10) as nat) + seq![digit_char((n % 10) as nat)]);
        }
    }
}

/// The decimal text of `n`.
pub fn decimal_string(n: u64) -> (r: String)
    ensures
        r@ == decimal(n as nat),
{
    let mut s = String::new();
    append_decimal(&mut s, n);
    assert(s@ =~= decimal(n as nat));
    s
}

fn binary_string(a: String, op: &str, b: String) -> (r: String)
    ensures
        r@ == binary_text(a@, op@, b@),
{
    let mut s = String::from_str("(");
    s.append(a.as_str());
    s.append(op);
    s.append(b.as_str());
    s.append(")");
    s
}

fn bit_term_string(v: &String, j: usize) -> (r: String)
    ensures
        r@ == bit_term(v@, j as nat),
{
    let mut s = String::from_str("((");
    s.append(v.as_str());
    s.append(" >> ");
    append_decimal(&mut s, j as u64);
    s.append(") & 1)");
    s
}

/// The texts joined by `sep`.
fn join_strings(terms: &Vec<String>, sep: &str) -> (r: String)
    ensures
        r@ == joined(Seq::new(terms@.len(), |q: int| terms@[q]@), sep@),
{
    let ghost ts = Seq::new(terms@.len(), |q: int| terms@[q]@);
    let mut out = String::new();
    let mut k: usize = 0;
    while k < terms.len()
        invariant
            k <= terms.len(),
            ts == Seq::new(terms@.len(), |q: int| terms@[q]@),
            out@ == joined(ts.take(k as int), sep@),
        decreases terms.len() - k,
    {
        let ghost prev = out@;
        if k > 0 {
            out.append(sep);
        }
        out.append(terms[k].as_str());
        proof {
            if k == 0 {
                assert(ts.take(0) =~= Seq::<Seq<char>>::empty());
                assert(out@ =~= ts[0]);
                assert(ts.take(1).len() == 1);
                assert(joined(ts.take(1), sep@) == ts.take(1)[0]);
            } else {
                assert(ts.take(k + 1).drop_last() =~= ts.take(k as int));
                assert(ts.take(k + 1).last() == ts[k as int]);
                assert(out@ =~= prev + sep@ + ts[k as int]);
            }
        }
        k += 1;
    }
    assert(ts.take(terms.len() as int) =~= ts);
    out
}

fn push_text(terms: &mut Vec<String>, t: String)
    ensures
        Seq::new(final(terms)@.len(), |q: int| final(terms)@[q]@) == Seq::new(
            old(terms)@.len(),
            |q: int| old(terms)@[q]@,
        ).push(t@),
{
    let ghost before = terms@;
    terms.push(t);
    assert(Seq::new(terms@.len(), |q: int| terms@[q]@) =~= Seq::new(before.len(), |q: int| before[q]@).push(t@));
}

/// The text of output bit `i` of a bit-linear map (see [`row_text`]).
fn row_string(v: &String, m: &Vec<Vec<u8>>, i: usize) -> (r: Option<String>)
    requires
        i < m.len(),
        m@[i as int]@.len() >= m.len(),
    ensures
        match r {
            Some(t) => row_text(v@, matrix_view(*m)[i as int], i as int, m.len() as int) == seq![t@],
            None => row_text(v@, matrix_view(*m)[i as int], i as int, m.len() as int) == Seq::<Seq<char>>::empty(),
        },
{
    let ghost row = matrix_view(*m)[i as int];
    assert(row == m@[i as int]@);
    let d = m.len();
    let mut terms: Vec<String> = Vec::new();
    let mut j: usize = 0;
    while j < d
        invariant
            i < m.len(),
            d == m.len(),
            j <= d,
            row == m@[i as int]@,
            row.len() >= d,
            Seq::new(terms@.len(), |q: int| terms@[q]@) == row_terms(v@, row, j as int),
        decreases d - j,
    {
        if m[i][j] % 2 == 1 {
            push_text(&mut terms, bit_term_string(v, j));
        }
        j += 1;
    }
    if terms.len() == 0 {
        return None;
    }
    let mut s = String::from_str("((");
    s.append(join_strings(&terms, " ^ ").as_str());
    s.append(") << ");
    append_decimal(&mut s, i as u64);
    s.append(")");
    Some(s)
}

fn bit_linear_string(v: String, m: &Vec<Vec<u8>>) -> (r: String)
    requires
        crate::layout::gf2::rows_cover(matrix_view(*m)),
    ensures
        r@ == bit_linear_text(v@, matrix_view(*m)),
{
    let ghost mv = matrix_view(*m);
    let d = m.len();
    let mut terms: Vec<String> = Vec::new();
    let mut i: usize = 0;
    while i < d
        invariant
            i <= d,
            d == m.len(),
            mv == matrix_view(*m),
            crate::layout::gf2::rows_cover(mv),
            Seq::new(terms@.len(), |q: int| terms@[q]@) == matrix_terms(v@, mv, i as int),
        decreases d - i,
    {
        assert(mv[i as int] == m@[i as int]@);
        assert(mv[i as int].len() >= mv.len());
        let ghost before = Seq::new(terms@.len(), |q: int| terms@[q]@);
        match row_string(&v, m, i) {
            Some(t) => {
                push_text(&mut terms, t);
            },
            None => {},
        }
        assert(matrix_terms(v@, mv, i + 1) == before + row_text(v@, mv[i as int], i as int, d as int));
        assert(Seq::new(terms@.len(), |q: int| terms@[q]@) =~= matrix_terms(v@, mv, i + 1));
        i += 1;
    }
    let mut high = String::from_str("((");
    high.append(v.as_str());
    high.append(" >> ");
    append_decimal(&mut high, d as u64);
    high.append(") << ");
    append_decimal(&mut high, d as u64);
    high.append(")");
    push_text(&mut terms, high);
    let mut s = String::from_str("(");
    s.append(join_strings(&terms, " | ").as_str());
    s.append(")");
    s
}

/// The CUDA C++ text of `expr` (see [`cuda_text`]).
pub fn to_cuda(expr: &ScalarExpr, input_names: &[&str]) -> (r: String)
    requires
        cuda_ok(expr@),
    ensures
        r@ == cuda_text(expr@, names_view(input_names@)),
    decreases expr,
{
    match expr {
        ScalarExpr::Input(i) => {
            if *i < input_names.len() {
                String::from_str(input_names[*i])
            } else {
                let mut s = String::from_str("i");
                append_decimal(&mut s, *i as u64);
                s
            }
        },
        ScalarExpr::Constant(c) => decimal_string(*c),
        ScalarExpr::Add(a, b) => binary_string(to_cuda(a, input_names), " + ", to_cuda(b, input_names)),
        ScalarExpr::Mul(a, b) => binary_string(to_cuda(a, input_names), " * ", to_cuda(b, input_names)),
        ScalarExpr::Div(a, b) => binary_string(to_cuda(a, input_names), " / ", to_cuda(b, input_names)),
        ScalarExpr::Mod(a, b) => binary_string(to_cuda(a, input_names), " % ", to_cuda(b, input_names)),
        ScalarExpr::Xor(a, b) => binary_string(to_cuda(a, input_names), " ^ ", to_cuda(b, input_names)),
        ScalarExpr::BitShiftRight(a, s) => binary_string(to_cuda(a, input_names), " >> ", decimal_string(*s as u64)),
        ScalarExpr::BitLinear(a, m) => {
            assert(expr@ == ScalarV::BitLinear(Box::new((**a)@), matrix_view(*m)));
            bit_linear_string(to_cuda(a, input_names), m)
        },
        ScalarExpr::Lt(a, b) => binary_string(to_cuda(a, input_names), " < ", to_cuda(b, input_names)),
        ScalarExpr::Eq(a, b) => binary_string(to_cuda(a, input_names), " == ", to_cuda(b, input_names)),
        ScalarExpr::And(a, b) => {
            let zero_a = String::from_str("0");
            let zero_b = String::from_str("0");
            let left = binary_string(to_cuda(a, input_names), " != ", zero_a);
            let right = binary_string(to_cuda(b, input_names), " != ", zero_b);
            binary_string(left, " && ", right)
        },
    }
}


/// The side of a grid cell, in pixels.
pub const CELL_SIZE: u64 = 60;

/// One cell of the picture of a 2D layout: its corner, the execution unit
/// and storage offset that its point maps to, and the hue of its unit.
pub struct SvgCell {
    pub x: u64,
    pub y: u64,
    pub exec_id: u64,
    pub storage_offset: u64,
    pub has_exec: bool,
    pub hue: u64,
}

/// The picture of a 2D layout: its size, the volume of its target (for
/// shading by offset) and its cells, row by row.
pub struct SvgGrid {
    pub width: u64,
    pub height: u64,
    pub max_volume: u64,
    pub rows: Vec<Vec<SvgCell>>,
}

/// The value of a grid: width, height, target volume and cells.
pub open spec fn grid_view(g: SvgGrid) -> (u64, u64, u64, Seq<Seq<SvgCell>>) {
    (g.width, g.height, g.max_volume, Seq::new(g.rows@.len(), |i: int| g.rows@[i]@))
}

/// Whether a factor kind is counted: `Execution` kinds for execution units,
/// `Storage` and `Other` kinds for storage.
pub open spec fn counts(k: KindV, exec: bool) -> bool {
    if exec {
        k is Execution
    } else {
        k is Storage || k is Other
    }
}

/// The positions among the first `k` factors of `t` whose kinds count.
pub open spec fn kind_positions(t: SpaceV, exec: bool, k: int) -> Seq<usize>
    decreases k,
{
    if k <= 0 {
        seq![]
    } else {
        let prev = kind_positions(t, exec, k - 1);
        if counts(t[k - 1].kind, exec) {
            prev.push((k - 1) as usize)
        } else {
            prev
        }
    }
}

/// Mixed-radix value of the coordinates of `out` at the last `n` of
/// `idxs`, taken last first: each coordinate times the product of the
/// extents (1 where unvalued) after it; also that product.
pub open spec fn radix(out: Seq<u64>, idxs: Seq<usize>, t: SpaceV, vars: Map<Seq<char>, u64>, n: int) -> (int, int)
    decreases n,
{
    if n <= 0 {
        (0, 1)
    } else {
        let prev = radix(out, idxs, t, vars, n - 1);
        let idx = idxs[idxs.len() - n] as int;
        (prev.0 + out[idx] * prev.1, prev.1 * ext_or_one(t, vars, idx))
    }
}

/// The mixed-radix value is computed without panic: positions are in
/// range and the running values fit in 64 bits.
pub open spec fn radix_ok(out: Seq<u64>, idxs: Seq<usize>, t: SpaceV, vars: Map<Seq<char>, u64>, n: int) -> bool
    decreases n,
{
    if n <= 0 {
        true
    } else {
        let prev = radix(out, idxs, t, vars, n - 1);
        let idx = idxs[idxs.len() - n] as int;
        &&& radix_ok(out, idxs, t, vars, n - 1)
        &&& idx < out.len()
        &&& idx < t.len()
        &&& prev.0 + out[idx] * prev.1 <= u64::MAX
        &&& prev.1 * ext_or_one(t, vars, idx) <= u64::MAX
    }
}

/// The target point of the cell at row `h`, column `w`: the image of
/// `(h, w)`, or the origin where the layout does not map it.
pub open spec fn cell_point(e: ExprV, vars: Map<Seq<char>, u64>, h: u64, w: u64) -> Seq<u64> {
    match expr_apply(e, vars, seq![h, w]) {
        Some(o) => o,
        None => Seq::new(expr_target(e).len(), |i: int| 0u64),
    }
}

/// The cell at row `h`, column `w`.
pub open spec fn cell_of(e: ExprV, vars: Map<Seq<char>, u64>, h: u64, w: u64) -> SvgCell {
    let t = expr_target(e);
    let out = cell_point(e, vars, h, w);
    let ex = kind_positions(t, true, t.len() as int);
    let st = kind_positions(t, false, t.len() as int);
    let id = radix(out, ex, t, vars, ex.len() as int).0;
    SvgCell {
        x: (w * CELL_SIZE) as u64,
        y: (h * CELL_SIZE) as u64,
        exec_id: id as u64,
        storage_offset: radix(out, st, t, vars, st.len() as int).0 as u64,
        has_exec: ex.len() > 0,
        hue: if ex.len() > 0 {
            ((id * 137) % 360) as u64
        } else {
            0
        },
    }
}

/// Computing the cell at row `h`, column `w` does not panic.
pub open spec fn cell_ok(e: ExprV, vars: Map<Seq<char>, u64>, h: u64, w: u64) -> bool {
    let t = expr_target(e);
    let out = cell_point(e, vars, h, w);
    let ex = kind_positions(t, true, t.len() as int);
    let st = kind_positions(t, false, t.len() as int);
    &&& expr_apply_ok(e, vars, seq![h, w])
    &&& radix_ok(out, ex, t, vars, ex.len() as int)
    &&& radix_ok(out, st, t, vars, st.len() as int)
    &&& ex.len() > 0 ==> radix(out, ex, t, vars, ex.len() as int).0 * 137 <= u64::MAX
}

/// The picture of a layout with a 2D source: `extent(0) x extent(1)` cells
/// (1 for an extent with no value) of `CELL_SIZE` pixels; the target
/// volume is 1 unless cells are shaded by offset. `None` for any other
/// source.
pub open spec fn grid_of(e: ExprV, vars: Map<Seq<char>, u64>) -> Option<(u64, u64, u64, Seq<Seq<SvgCell>>)> {
    let src = expr_source(e);
    let t = expr_target(e);
    if src.len() != 2 {
        None
    } else {
        let hs = ext_or_one(src, vars, 0);
        let ws = ext_or_one(src, vars, 1);
        let shaded = kind_positions(t, true, t.len() as int).len() == 0 && hs > 0 && ws > 0;
        Some(
            (
                (ws * CELL_SIZE) as u64,
                (hs * CELL_SIZE) as u64,
                if shaded {
                    match eval_extent(simplify_extent(volume_of(t)), vars) {
                        Some(v) => v,
                        None => 1,
                    }
                } else {
                    1
                },
                Seq::new(hs as nat, |h: int| Seq::new(ws as nat, |w: int| cell_of(e, vars, h as u64, w as u64))),
            ),
        )
    }
}

/// Computing the picture does not panic: the sizes in pixels fit in 64 bits
/// and every cell is computed without panic.
pub open spec fn grid_ok(e: ExprV, vars: Map<Seq<char>, u64>) -> bool {
    let src = expr_source(e);
    let t = expr_target(e);
    &&& expr_source_ok(e)
    &&& expr_target_ok(e)
    &&& src.len() == 2 ==> {
        let hs = ext_or_one(src, vars, 0);
        let ws = ext_or_one(src, vars, 1);
        &&& hs * CELL_SIZE <= u64::MAX
        &&& ws * CELL_SIZE <= u64::MAX
        &&& forall|h: u64, w: u64| h < hs && w < ws ==> #[trigger] cell_ok(e, vars, h, w)
        &&& (kind_positions(t, true, t.len() as int).len() == 0 && hs > 0 && ws > 0)
            ==> simplify_extent_ok(volume_of(t))
    }
}

/// The picture, if there is one, by its value.
pub open spec fn opt_grid(r: Option<SvgGrid>) -> Option<(u64, u64, u64, Seq<Seq<SvgCell>>)> {
    match r {
        Some(g) => Some(grid_view(g)),
        None => None,
    }
}

fn kind_positions_exec(t: &Space, exec: bool) -> (r: Vec<usize>)
    ensures
        r@ == kind_positions(t@, exec, t@.len() as int),
{
    let mut out: Vec<usize> = Vec::new();
    let mut i: usize = 0;
    while i < t.factors.len()
        invariant
            i <= t.factors.len(),
            out@ == kind_positions(t@, exec, i as int),
        decreases t.factors.len() - i,
    {
        assert(t@[i as int] == t.factors[i as int]@);
        let counted = match &t.factors[i].kind {
            Kind::Execution => exec,
            Kind::Storage | Kind::Other(_) => !exec,
            _ => false,
        };
        if counted {
            out.push(i);
        }
        i += 1;
    }
    out
}

proof fn lemma_radix_ok_prefix(out: Seq<u64>, idxs: Seq<usize>, t: SpaceV, vars: Map<Seq<char>, u64>, n: int, m: int)
    requires
        radix_ok(out, idxs, t, vars, n),
        0 <= m <= n,
    ensures
        radix_ok(out, idxs, t, vars, m),
    decreases n,
{
    if m < n {
        lemma_radix_ok_prefix(out, idxs, t, vars, n - 1, m);
    }
}

fn radix_exec(out: &Vec<u64>, idxs: &Vec<usize>, t: &Space, valuation: &Valuation) -> (r: u64)
    requires
        radix_ok(out@, idxs@, t@, valuation@, idxs@.len() as int),
    ensures
        r == radix(out@, idxs@, t@, valuation@, idxs@.len() as int).0,
{
    let ghost vars = valuation@;
    let mut acc: u64 = 0;
    let mut stride: u64 = 1;
    let mut n: usize = 0;
    while n < idxs.len()
        invariant
            n <= idxs.len(),
            vars == valuation@,
            radix_ok(out@, idxs@, t@, vars, idxs@.len() as int),
            acc == radix(out@, idxs@, t@, vars, n as int).0,
            stride == radix(out@, idxs@, t@, vars, n as int).1,
        decreases idxs.len() - n,
    {
        proof {
            lemma_radix_ok_prefix(out@, idxs@, t@, vars, idxs@.len() as int, n + 1);
        }
        let idx = idxs[idxs.len() - 1 - n];
        assert(out[idx as int] * stride <= u64::MAX) by (nonlinear_arith)
            requires
                acc + out[idx as int] * stride <= u64::MAX,
                acc >= 0,
        ;
        acc = acc + out[idx] * stride;
        stride = stride * ext_or_one_exec(t, valuation, idx);
        n += 1;
    }
    acc
}

fn cell_exec(
    layout: &Expression,
    valuation: &Valuation,
    tgt: &Space,
    exec_idx: &Vec<usize>,
    storage_idx: &Vec<usize>,
    h: u64,
    w: u64,
) -> (r: SvgCell)
    requires
        tgt@ == expr_target(layout@),
        exec_idx@ == kind_positions(tgt@, true, tgt@.len() as int),
        storage_idx@ == kind_positions(tgt@, false, tgt@.len() as int),
        cell_ok(layout@, valuation@, h, w),
        w * CELL_SIZE <= u64::MAX,
        h * CELL_SIZE <= u64::MAX,
    ensures
        r == cell_of(layout@, valuation@, h, w),
{
    let mut pt: Vec<u64> = Vec::new();
    pt.push(h);
    pt.push(w);
    assert(pt@ =~= seq![h, w]);
    let out = match layout.map_point(valuation, pt.as_slice()) {
        Some(o) => o,
        None => {
            let mut z: Vec<u64> = Vec::new();
            let mut i: usize = 0;
            while i < tgt.factors.len()
                invariant
                    i <= tgt.factors.len(),
                    z@ == Seq::new(i as nat, |k: int| 0u64),
                decreases tgt.factors.len() - i,
            {
                z.push(0);
                i += 1;
                assert(z@ =~= Seq::new(i as nat, |k: int| 0u64));
            }
            z
        },
    };
    assert(out@ == cell_point(layout@, valuation@, h, w));
    let exec_id = radix_exec(&out, exec_idx, tgt, valuation);
    let storage_val = radix_exec(&out, storage_idx, tgt, valuation);
    let has_exec = exec_idx.len() > 0;
    let hue = if has_exec {
        (exec_id * 137) % 360
    } else {
        0
    };
    SvgCell { x: w * CELL_SIZE, y: h * CELL_SIZE, exec_id, storage_offset: storage_val, has_exec, hue }
}

/// The picture of a layout with a 2D source (see [`grid_of`]); `None` for
/// any other source.
pub fn render_grid(layout: &Expression, valuation: &Valuation) -> (r: Option<SvgGrid>)
    requires
        grid_ok(layout@, valuation@),
    ensures
        opt_grid(r) == grid_of(layout@, valuation@),
{
    let ghost e = layout@;
    let ghost vars = valuation@;
    let src = layout.source_space();
    let tgt = layout.target_space();
    if src.factors.len() != 2 {
        return None;
    }
    let h_extent = ext_or_one_exec(&src, valuation, 0);
    let w_extent = ext_or_one_exec(&src, valuation, 1);
    let exec_idx = kind_positions_exec(&tgt, true);
    let storage_idx = kind_positions_exec(&tgt, false);
    let shaded = exec_idx.len() == 0 && h_extent > 0 && w_extent > 0;
    let max_volume = if shaded {
        match valuation.get_extent(&tgt.volume_extent()) {
            Some(v) => v,
            None => 1,
        }
    } else {
        1
    };
    let ghost want = Seq::new(
        h_extent as nat,
        |i: int| Seq::new(w_extent as nat, |j: int| cell_of(e, vars, i as u64, j as u64)),
    );
    let mut rows: Vec<Vec<SvgCell>> = Vec::new();
    let mut h: u64 = 0;
    while h < h_extent
        invariant
            h <= h_extent,
            e == layout@,
            vars == valuation@,
            src@ == expr_source(e),
            tgt@ == expr_target(e),
            src@.len() == 2,
            h_extent == ext_or_one(src@, vars, 0),
            w_extent == ext_or_one(src@, vars, 1),
            exec_idx@ == kind_positions(tgt@, true, tgt@.len() as int),
            storage_idx@ == kind_positions(tgt@, false, tgt@.len() as int),
            grid_ok(e, vars),
            want == Seq::new(h_extent as nat, |i: int| Seq::new(w_extent as nat, |j: int| cell_of(e, vars, i as u64, j as u64))),
            rows@.len() == h,
            Seq::new(rows@.len(), |i: int| rows@[i]@) == want.take(h as int),
        decreases h_extent - h,
    {
        let mut row: Vec<SvgCell> = Vec::new();
        let mut w: u64 = 0;
        while w < w_extent
            invariant
                h < h_extent,
                w <= w_extent,
                e == layout@,
                vars == valuation@,
                src@ == expr_source(e),
                tgt@ == expr_target(e),
                src@.len() == 2,
                h_extent == ext_or_one(src@, vars, 0),
                w_extent == ext_or_one(src@, vars, 1),
                exec_idx@ == kind_positions(tgt@, true, tgt@.len() as int),
                storage_idx@ == kind_positions(tgt@, false, tgt@.len() as int),
                grid_ok(e, vars),
                want == Seq::new(h_extent as nat, |i: int| Seq::new(w_extent as nat, |j: int| cell_of(e, vars, i as u64, j as u64))),
                row@ == want[h as int].take(w as int),
            decreases w_extent - w,
        {
            assert(cell_ok(e, vars, h, w));
            assert(w * CELL_SIZE <= u64::MAX) by (nonlinear_arith)
                requires
                    w < w_extent,
                    w_extent * CELL_SIZE <= u64::MAX,
            ;
            assert(h * CELL_SIZE <= u64::MAX) by (nonlinear_arith)
                requires
                    h < h_extent,
                    h_extent * CELL_SIZE <= u64::MAX,
            ;
            let c = cell_exec(layout, valuation, &tgt, &exec_idx, &storage_idx, h, w);
            row.push(c);
            w += 1;
            assert(row@ =~= want[h as int].take(w as int));
        }
        assert(row@ =~= want[h as int]);
        let ghost old_rows = rows@;
        rows.push(row);
        h += 1;
        assert(Seq::new(rows@.len(), |i: int| rows@[i]@) =~= want.take(h as int)) by {
            assert forall|i: int| 0 <= i < rows@.len() implies rows@[i]@ == want.take(h as int)[i] by {
                assert(want.take(h as int)[i] == want[i]);
                if i < old_rows.len() {
                    assert(rows@[i] == old_rows[i]);
                    assert(Seq::new(old_rows.len(), |k: int| old_rows[k]@)[i] == want.take(h - 1)[i]);
                }
            }
        }
    }
    assert(want.take(h_extent as int) =~= want);
    let g = SvgGrid {
        width: w_extent * CELL_SIZE,
        height: h_extent * CELL_SIZE,
        max_volume,
        rows,
    };
    Some(g)
}

} // verus!
