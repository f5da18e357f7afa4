//! Simplification keeps values: wherever the arithmetic of an expression
//! stays within 64 bits and its conjunctions join conditions, the simplified
//! expression evaluates to the same number; and where this holds at some
//! point and the bit matrices are well formed, simplifying does not panic.
use vstd::prelude::*;
use vstd::arithmetic::div_mod::{
    lemma_fundamental_div_mod, lemma_div_multiples_vanish_fancy, lemma_mod_multiples_vanish,
    lemma_mod_pos_bound, lemma_mod_multiples_basic, lemma_small_mod,
};
use vstd::arithmetic::mul::{lemma_mul_is_distributive_add, lemma_mul_is_commutative};
use vstd::arithmetic::power2::{pow2, lemma_pow2_unfold, lemma_pow2_pos};
use vstd::bits::lemma_u64_shr_is_div;
use crate::layout::scalar::{
    ScalarV, eval_scalar, scalar_size, simp_f, simp_ok_f, simplify_scalar, simplify_scalar_ok,
    add_rule, mul_rule, div_rule, mod_rule, and_rule, div_distribute, mod_distribute, add_ok,
    mul_ok, div_ok, mod_ok, is_cst, cst, exact_log2, bit_linear_ok, eval_scalar_ok,
};

verus! {

/// Every sum and product met in evaluating `e` at `x` fits in 64 bits, so
/// no arithmetic wraps around.
pub open spec fn no_wrap(e: ScalarV, x: Seq<u64>) -> bool
    decreases e,
{
    match e {
        ScalarV::Add(a, b) => no_wrap(*a, x) && no_wrap(*b, x) && eval_scalar(*a, x) + eval_scalar(*b, x)
            <= u64::MAX,
        ScalarV::Mul(a, b) => no_wrap(*a, x) && no_wrap(*b, x) && eval_scalar(*a, x) * eval_scalar(*b, x)
            <= u64::MAX,
        ScalarV::Div(a, b) => no_wrap(*a, x) && no_wrap(*b, x),
        ScalarV::Mod(a, b) => no_wrap(*a, x) && no_wrap(*b, x),
        ScalarV::Xor(a, b) => no_wrap(*a, x) && no_wrap(*b, x),
        ScalarV::And(a, b) => no_wrap(*a, x) && no_wrap(*b, x),
        ScalarV::Lt(a, b) => no_wrap(*a, x) && no_wrap(*b, x),
        ScalarV::Eq(a, b) => no_wrap(*a, x) && no_wrap(*b, x),
        ScalarV::BitShiftRight(a, _) => no_wrap(*a, x),
        ScalarV::BitLinear(a, _) => no_wrap(*a, x),
        _ => true,
    }
}

/// A condition: a comparison, a conjunction, or the constant 0 or 1.
pub open spec fn is_condition(e: ScalarV) -> bool {
    e is Lt || e is Eq || e is And || is_cst(e, 0) || is_cst(e, 1)
}

/// Every conjunction in `e` joins conditions.
pub open spec fn conditions_only(e: ScalarV) -> bool
    decreases e,
{
    match e {
        ScalarV::And(a, b) => is_condition(*a) && is_condition(*b) && conditions_only(*a)
            && conditions_only(*b),
        ScalarV::Add(a, b) => conditions_only(*a) && conditions_only(*b),
        ScalarV::Mul(a, b) => conditions_only(*a) && conditions_only(*b),
        ScalarV::Div(a, b) => conditions_only(*a) && conditions_only(*b),
        ScalarV::Mod(a, b) => conditions_only(*a) && conditions_only(*b),
        ScalarV::Xor(a, b) => conditions_only(*a) && conditions_only(*b),
        ScalarV::Lt(a, b) => conditions_only(*a) && conditions_only(*b),
        ScalarV::Eq(a, b) => conditions_only(*a) && conditions_only(*b),
        ScalarV::BitShiftRight(a, _) => conditions_only(*a),
        ScalarV::BitLinear(a, _) => conditions_only(*a),
        _ => true,
    }
}

/// A product is not by the constant 0.
pub open spec fn mul_clean(e: ScalarV) -> bool {
    e is Mul ==> !is_cst(*e->Mul_1, 0)
}

/// The top of `e`, and the operands of a top-level sum, are not products by
/// the constant 0 (simplification removes those).
pub open spec fn top_clean(e: ScalarV) -> bool {
    &&& mul_clean(e)
    &&& e is Add ==> mul_clean(*e->Add_0) && mul_clean(*e->Add_1)
}

/// What simplifying `e` to `r` keeps at `x`.
pub open spec fn kept(e: ScalarV, r: ScalarV, x: Seq<u64>) -> bool {
    &&& eval_scalar(r, x) == eval_scalar(e, x)
    &&& no_wrap(r, x)
    &&& conditions_only(r)
    &&& top_clean(r)
    &&& scalar_size(r) <= scalar_size(e)
    &&& is_condition(e) ==> is_condition(r)
}

/// A simplified operand: no wrapping, conditions in conjunctions, clean top.
pub open spec fn operand(a: ScalarV, x: Seq<u64>) -> bool {
    no_wrap(a, x) && conditions_only(a) && top_clean(a)
}

proof fn lemma_size_pos(e: ScalarV)
    ensures
        scalar_size(e) >= 1,
{
}

/// Without wrapping, a product evaluates to the product of its operands.
proof fn lemma_mul_node(l: ScalarV, x: Seq<u64>)
    requires
        l is Mul,
        no_wrap(l, x),
    ensures
        eval_scalar(l, x) == eval_scalar(*l->Mul_0, x) * eval_scalar(*l->Mul_1, x),
        no_wrap(*l->Mul_0, x),
        no_wrap(*l->Mul_1, x),
{
    let p = eval_scalar(*l->Mul_0, x) * eval_scalar(*l->Mul_1, x);
    lemma_small_mod(p as nat, 0x10000000000000000);
}

/// Without wrapping, a sum evaluates to the sum of its operands.
proof fn lemma_add_node(a: ScalarV, x: Seq<u64>)
    requires
        a is Add,
        no_wrap(a, x),
    ensures
        eval_scalar(a, x) == eval_scalar(*a->Add_0, x) + eval_scalar(*a->Add_1, x),
        no_wrap(*a->Add_0, x),
        no_wrap(*a->Add_1, x),
{
}

proof fn lemma_condition_value(e: ScalarV, x: Seq<u64>)
    requires
        is_condition(e),
    ensures
        eval_scalar(e, x) <= 1,
{
}

/// `(t * k + r) / k == t + r / k` and `(t * k + r) % k == r % k`.
proof fn lemma_div_split(t: int, k: int, r: int)
    requires
        k > 0,
        t >= 0,
        r >= 0,
    ensures
        (t * k + r) / k == t + r / k,
        (t * k + r) % k == r % k,
        t + r / k <= t * k + r,
{
    lemma_fundamental_div_mod(r, k);
    lemma_mod_pos_bound(r, k);
    lemma_mul_is_distributive_add(k, t, r / k);
    lemma_mul_is_commutative(t, k);
    lemma_div_multiples_vanish_fancy(t + r / k, r % k, k);
    assert(t * k + r == k * (t + r / k) + r % k);
    lemma_mod_multiples_vanish(t, r, k);
    assert(t <= t * k) by (nonlinear_arith)
        requires
            k >= 1,
            t >= 0,
    ;
    assert(r / k <= r) by (nonlinear_arith)
        requires
            k >= 1,
            r >= 0,
            r == k * (r / k) + r % k,
            r % k >= 0,
    ;
}

proof fn lemma_exact_log2(d: nat)
    requires
        exact_log2(d) is Some,
    ensures
        d == pow2(exact_log2(d)->0),
    decreases d,
{
    if d > 1 {
        lemma_exact_log2(d / 2);
        lemma_pow2_unfold(exact_log2(d)->0);
    } else {
        assert(pow2(0) == 1) by {
            vstd::arithmetic::power2::lemma2_to64();
        }
    }
}

proof fn lemma_shift_is_div(v: u64, d: u64)
    requires
        exact_log2(d as nat) is Some,
    ensures
        d > 0,
        exact_log2(d as nat)->0 < 64,
        v >> (exact_log2(d as nat)->0 as u32) == v / d,
{
    let k = exact_log2(d as nat)->0;
    lemma_exact_log2(d as nat);
    lemma_pow2_pos(k);
    if k >= 64 {
        vstd::arithmetic::power2::lemma2_to64_rest();
        vstd::arithmetic::power2::lemma_pow2_strictly_increases(64, k);
        assert(false);
    }
    lemma_u64_shr_is_div(v, k as u64);
    let s = k as u32;
    let s64 = k as u64;
    assert(v >> s == v >> s64) by (bit_vector)
        requires
            s == s64,
            s64 < 64,
    ;
}

proof fn lemma_add_rule(a: ScalarV, b: ScalarV, x: Seq<u64>, g: nat)
    requires
        operand(a, x),
        operand(b, x),
        eval_scalar(a, x) + eval_scalar(b, x) <= u64::MAX,
        g >= scalar_size(a) + scalar_size(b),
        add_ok(a, b, g),
    ensures
        kept(ScalarV::Add(Box::new(a), Box::new(b)), add_rule(a, b, g), x),
    decreases g + 1, 1int,
{
    lemma_size_pos(a);
    lemma_size_pos(b);
    let e = ScalarV::Add(Box::new(a), Box::new(b));
    if is_cst(a, 0) || is_cst(b, 0) {
    } else if a is Constant && b is Constant {
    } else if a is Add && b is Constant && (*a->Add_1) is Constant {
        let c = ((*a->Add_1)->Constant_0 + b->Constant_0) as u64;
        let n = ScalarV::Add(a->Add_0, Box::new(cst(c)));
        assert(scalar_size(cst(c)) == 1);
        assert(scalar_size(*a->Add_1) == 1);
        assert(scalar_size(n) == scalar_size(a));
        lemma_add_node(a, x);
        let c1 = (*a->Add_1)->Constant_0;
        let c2 = b->Constant_0;
        assert(eval_scalar(*a->Add_1, x) == c1);
        assert(eval_scalar(b, x) == c2);
        assert(c == c1 + c2);
        assert(eval_scalar(cst(c), x) == c);
        assert(no_wrap(cst(c), x));
        assert(eval_scalar(*a->Add_0, x) + c <= u64::MAX);
        assert(no_wrap(n, x));
        assert(conditions_only(*a->Add_0));
        assert(conditions_only(cst(c)));
        assert(conditions_only(n));
        lemma_simp(n, x, g);
    } else {
    }
}

proof fn lemma_mul_rule(a: ScalarV, b: ScalarV, x: Seq<u64>)
    requires
        operand(a, x),
        operand(b, x),
        eval_scalar(a, x) * eval_scalar(b, x) <= u64::MAX,
        mul_ok(a, b),
    ensures
        kept(ScalarV::Mul(Box::new(a), Box::new(b)), mul_rule(a, b), x),
{
    lemma_size_pos(a);
    lemma_size_pos(b);
    let va = eval_scalar(a, x);
    let vb = eval_scalar(b, x);
    lemma_small_mod((va * vb) as nat, 0x10000000000000000);
}

proof fn lemma_div_rule(a: ScalarV, b: ScalarV, x: Seq<u64>, g: nat)
    requires
        operand(a, x),
        operand(b, x),
        g >= scalar_size(a) + scalar_size(b),
        div_ok(a, b, g),
    ensures
        kept(ScalarV::Div(Box::new(a), Box::new(b)), div_rule(a, b, g), x),
    decreases g + 1, 1int,
{
    lemma_size_pos(a);
    lemma_size_pos(b);
    if is_cst(b, 1) {
        assert(div_rule(a, b, g) == a);
        assert(eval_scalar(b, x) == 1);
        assert(eval_scalar(ScalarV::Div(Box::new(a), Box::new(b)), x) == eval_scalar(a, x));
        assert(kept(ScalarV::Div(Box::new(a), Box::new(b)), div_rule(a, b, g), x));
    } else if a is Constant && b is Constant && b->Constant_0 != 0 {
        assert(div_rule(a, b, g) == cst((a->Constant_0 / b->Constant_0) as u64));
        assert(eval_scalar(a, x) == a->Constant_0);
        assert(eval_scalar(b, x) == b->Constant_0);
        assert(eval_scalar(ScalarV::Div(Box::new(a), Box::new(b)), x) == a->Constant_0 / b->Constant_0);
        assert(kept(ScalarV::Div(Box::new(a), Box::new(b)), div_rule(a, b, g), x));
    } else if a is Add && b is Constant {
        let l = *a->Add_0;
        let r = *a->Add_1;
        let k = b->Constant_0;
        lemma_size_pos(l);
        lemma_size_pos(r);
        if l is Mul {
            if is_cst(*l->Mul_1, k) {
                let t = *l->Mul_0;
                let n = ScalarV::Add(Box::new(t), Box::new(ScalarV::Div(Box::new(r), Box::new(cst(k)))));
                let vt = eval_scalar(t, x) as int;
                let vr = eval_scalar(r, x) as int;
                lemma_div_split(vt, k as int, vr);
                lemma_add_node(a, x);
                lemma_mul_node(l, x);
                assert(eval_scalar(l, x) == vt * k);
                assert(scalar_size(*l->Mul_1) == 1);
                assert(scalar_size(cst(k)) == 1);
                assert(scalar_size(l) == scalar_size(t) + 2);
                assert(scalar_size(ScalarV::Div(Box::new(r), Box::new(cst(k)))) == scalar_size(r) + 2);
                assert(scalar_size(n) == scalar_size(a));
                assert(k != 0);
                assert(eval_scalar(ScalarV::Div(Box::new(r), Box::new(cst(k))), x) == vr / k as int);
                assert(no_wrap(ScalarV::Div(Box::new(r), Box::new(cst(k))), x));
                assert(no_wrap(n, x));
                assert(conditions_only(l));
                assert(conditions_only(r));
                assert(conditions_only(t));
                assert(conditions_only(cst(k)));
                assert(conditions_only(ScalarV::Div(Box::new(r), Box::new(cst(k)))));
                assert(conditions_only(n));
                lemma_simp(n, x, g);
                assert(div_distribute(l, r, k, g) == Some(simp_f(n, g)));
                assert(kept(ScalarV::Div(Box::new(a), Box::new(b)), div_rule(a, b, g), x));
            }
        } else if r is Mul {
            if is_cst(*r->Mul_1, k) {
                let t = *r->Mul_0;
                let n = ScalarV::Add(Box::new(t), Box::new(ScalarV::Div(Box::new(l), Box::new(cst(k)))));
                let vt = eval_scalar(t, x) as int;
                let vl = eval_scalar(l, x) as int;
                lemma_div_split(vt, k as int, vl);
                lemma_add_node(a, x);
                lemma_mul_node(r, x);
                assert(eval_scalar(r, x) == vt * k);
                assert(eval_scalar(a, x) == vl + vt * k);
                assert(scalar_size(*r->Mul_1) == 1);
                assert(scalar_size(cst(k)) == 1);
                assert(scalar_size(r) == scalar_size(t) + 2);
                assert(scalar_size(ScalarV::Div(Box::new(l), Box::new(cst(k)))) == scalar_size(l) + 2);
                assert(scalar_size(n) == scalar_size(a));
                assert(k != 0);
                assert(eval_scalar(ScalarV::Div(Box::new(l), Box::new(cst(k))), x) == vl / k as int);
                assert(no_wrap(ScalarV::Div(Box::new(l), Box::new(cst(k))), x));
                assert(no_wrap(n, x));
                assert(conditions_only(l));
                assert(conditions_only(r));
                assert(conditions_only(t));
                assert(conditions_only(cst(k)));
                assert(conditions_only(ScalarV::Div(Box::new(l), Box::new(cst(k)))));
                assert(conditions_only(n));
                lemma_simp(n, x, g);
                assert(div_distribute(l, r, k, g) == Some(simp_f(n, g)));
                assert(kept(ScalarV::Div(Box::new(a), Box::new(b)), div_rule(a, b, g), x));
            }
        }
    } else if b is Constant && exact_log2(b->Constant_0 as nat) is Some {
        lemma_shift_is_div(eval_scalar(a, x), b->Constant_0);
        let k = exact_log2(b->Constant_0 as nat)->0;
        assert(div_rule(a, b, g) == ScalarV::BitShiftRight(Box::new(a), k as u32));
        assert(eval_scalar(b, x) == b->Constant_0);
        assert(eval_scalar(ScalarV::Div(Box::new(a), Box::new(b)), x) == eval_scalar(a, x) / b->Constant_0);
        assert(kept(ScalarV::Div(Box::new(a), Box::new(b)), div_rule(a, b, g), x));
    } else {
        assert(div_rule(a, b, g) == ScalarV::Div(Box::new(a), Box::new(b)));
        assert(kept(ScalarV::Div(Box::new(a), Box::new(b)), div_rule(a, b, g), x));
    }
}

proof fn lemma_mod_rule(a: ScalarV, b: ScalarV, x: Seq<u64>, g: nat)
    requires
        operand(a, x),
        operand(b, x),
        g >= scalar_size(a) + scalar_size(b),
        mod_ok(a, b, g),
    ensures
        kept(ScalarV::Mod(Box::new(a), Box::new(b)), mod_rule(a, b, g), x),
    decreases g + 1, 1int,
{
    lemma_size_pos(a);
    lemma_size_pos(b);
    if a is Constant && b is Constant && b->Constant_0 != 0 {
        assert(mod_rule(a, b, g) == cst((a->Constant_0 % b->Constant_0) as u64));
        assert(eval_scalar(a, x) == a->Constant_0);
        assert(eval_scalar(b, x) == b->Constant_0);
        assert(eval_scalar(ScalarV::Mod(Box::new(a), Box::new(b)), x) == a->Constant_0 % b->Constant_0);
    } else if a is Add && b is Constant {
        let l = *a->Add_0;
        let r = *a->Add_1;
        let k = b->Constant_0;
        lemma_size_pos(l);
        lemma_size_pos(r);
        if l is Mul {
            if is_cst(*l->Mul_1, k) {
                let t = *l->Mul_0;
                let n = ScalarV::Mod(Box::new(r), Box::new(cst(k)));
                assert(k != 0);
                let vt = eval_scalar(t, x) as int;
                let vr = eval_scalar(r, x) as int;
                lemma_div_split(vt, k as int, vr);
                lemma_add_node(a, x);
                lemma_mul_node(l, x);
                assert(eval_scalar(l, x) == vt * k);
                assert(scalar_size(cst(k)) == 1);
                assert(scalar_size(n) == scalar_size(r) + 2);
                assert(eval_scalar(n, x) == vr % k as int);
                assert(conditions_only(r));
                assert(conditions_only(cst(k)));
                assert(conditions_only(n));
                assert(no_wrap(n, x));
                lemma_simp(n, x, g);
                assert(mod_distribute(l, r, k, g) == Some(simp_f(n, g)));
                assert(kept(ScalarV::Mod(Box::new(a), Box::new(b)), mod_rule(a, b, g), x));
                assert(mod_distribute(l, r, k, g) == Some(simp_f(n, g)));
            }
        } else if r is Mul {
            if is_cst(*r->Mul_1, k) {
                let t = *r->Mul_0;
                let n = ScalarV::Mod(Box::new(l), Box::new(cst(k)));
                assert(k != 0);
                let vt = eval_scalar(t, x) as int;
                let vl = eval_scalar(l, x) as int;
                lemma_div_split(vt, k as int, vl);
                lemma_add_node(a, x);
                lemma_mul_node(r, x);
                assert(eval_scalar(r, x) == vt * k);
                assert(eval_scalar(a, x) == vl + vt * k);
                assert(scalar_size(cst(k)) == 1);
                assert(scalar_size(n) == scalar_size(l) + 2);
                assert(eval_scalar(n, x) == vl % k as int);
                assert(conditions_only(l));
                assert(conditions_only(cst(k)));
                assert(conditions_only(n));
                assert(no_wrap(n, x));
                lemma_simp(n, x, g);
                assert(mod_distribute(l, r, k, g) == Some(simp_f(n, g)));
                assert(kept(ScalarV::Mod(Box::new(a), Box::new(b)), mod_rule(a, b, g), x));
                assert(mod_distribute(l, r, k, g) == Some(simp_f(n, g)));
            }
        }
    } else if a is Mul && b is Constant && is_cst(*a->Mul_1, b->Constant_0) {
        let k = b->Constant_0;
        if k != 0 {
            let vt = eval_scalar(*a->Mul_0, x) as int;
            lemma_mod_multiples_basic(vt, k as int);
            lemma_mul_node(a, x);
        }
        assert(mod_rule(a, b, g) == cst(0));
        assert(eval_scalar(ScalarV::Mod(Box::new(a), Box::new(b)), x) == 0);
        assert(kept(ScalarV::Mod(Box::new(a), Box::new(b)), mod_rule(a, b, g), x));
    } else {
        assert(mod_rule(a, b, g) == ScalarV::Mod(Box::new(a), Box::new(b)));
        assert(kept(ScalarV::Mod(Box::new(a), Box::new(b)), mod_rule(a, b, g), x));
    }
}

proof fn lemma_and_rule(a: ScalarV, b: ScalarV, x: Seq<u64>)
    requires
        operand(a, x),
        operand(b, x),
        is_condition(a),
        is_condition(b),
    ensures
        kept(ScalarV::And(Box::new(a), Box::new(b)), and_rule(a, b), x),
{
    lemma_size_pos(a);
    lemma_size_pos(b);
    lemma_condition_value(a, x);
    lemma_condition_value(b, x);
}

/// Simplifying with enough budget keeps the value, the absence of
/// wrapping, the conditions in conjunctions, and does not grow.
pub proof fn lemma_simp(e: ScalarV, x: Seq<u64>, f: nat)
    requires
        f >= scalar_size(e),
        simp_ok_f(e, f),
        no_wrap(e, x),
        conditions_only(e),
    ensures
        kept(e, simp_f(e, f), x),
    decreases f, 2int,
{
    lemma_size_pos(e);
    let g = (f - 1) as nat;
    match e {
        ScalarV::Add(a, b) => {
            lemma_simp(*a, x, g);
            lemma_simp(*b, x, g);
            lemma_add_rule(simp_f(*a, g), simp_f(*b, g), x, g);
        },
        ScalarV::Mul(a, b) => {
            lemma_simp(*a, x, g);
            lemma_simp(*b, x, g);
            lemma_mul_rule(simp_f(*a, g), simp_f(*b, g), x);
        },
        ScalarV::Div(a, b) => {
            lemma_simp(*a, x, g);
            lemma_simp(*b, x, g);
            lemma_div_rule(simp_f(*a, g), simp_f(*b, g), x, g);
        },
        ScalarV::Mod(a, b) => {
            lemma_simp(*a, x, g);
            lemma_simp(*b, x, g);
            lemma_mod_rule(simp_f(*a, g), simp_f(*b, g), x, g);
        },
        ScalarV::And(a, b) => {
            lemma_simp(*a, x, g);
            lemma_simp(*b, x, g);
            lemma_and_rule(simp_f(*a, g), simp_f(*b, g), x);
        },
        ScalarV::BitLinear(a, m) => {
            lemma_simp(*a, x, g);
        },
        _ => {},
    }
}

/// Simplification keeps the value of an expression at every point where its
/// arithmetic stays within 64 bits and its conjunctions join conditions.
pub proof fn lemma_simplify_keeps_value(e: ScalarV, x: Seq<u64>)
    requires
        simplify_scalar_ok(e),
        no_wrap(e, x),
        conditions_only(e),
    ensures
        eval_scalar(simplify_scalar(e), x) == eval_scalar(e, x),
        no_wrap(simplify_scalar(e), x),
        conditions_only(simplify_scalar(e)),
{
    assert(simp_ok_f(e, scalar_size(e)));
    lemma_simp(e, x, scalar_size(e));
}

/// Every bit matrix in `e` is well formed.
pub open spec fn matrices_ok(e: ScalarV) -> bool
    decreases e,
{
    match e {
        ScalarV::Add(a, b) => matrices_ok(*a) && matrices_ok(*b),
        ScalarV::Mul(a, b) => matrices_ok(*a) && matrices_ok(*b),
        ScalarV::Div(a, b) => matrices_ok(*a) && matrices_ok(*b),
        ScalarV::Mod(a, b) => matrices_ok(*a) && matrices_ok(*b),
        ScalarV::Xor(a, b) => matrices_ok(*a) && matrices_ok(*b),
        ScalarV::And(a, b) => matrices_ok(*a) && matrices_ok(*b),
        ScalarV::Lt(a, b) => matrices_ok(*a) && matrices_ok(*b),
        ScalarV::Eq(a, b) => matrices_ok(*a) && matrices_ok(*b),
        ScalarV::BitShiftRight(a, _) => matrices_ok(*a),
        ScalarV::BitLinear(a, m) => matrices_ok(*a) && bit_linear_ok(m),
        _ => true,
    }
}

proof fn lemma_add_matrices(a: ScalarV, b: ScalarV, g: nat)
    requires
        matrices_ok(a),
        matrices_ok(b),
    ensures
        matrices_ok(add_rule(a, b, g)),
    decreases g + 1, 1int,
{
    if !is_cst(a, 0) && !is_cst(b, 0) && !(a is Constant && b is Constant) && a is Add && b is Constant
        && (*a->Add_1) is Constant {
        let c = ((*a->Add_1)->Constant_0 + b->Constant_0) as u64;
        let n = ScalarV::Add(a->Add_0, Box::new(cst(c)));
        assert(matrices_ok(*a->Add_0));
        assert(matrices_ok(cst(c)));
        assert(matrices_ok(n));
        lemma_simp_matrices(n, g);
    }
}

proof fn lemma_div_matrices(a: ScalarV, b: ScalarV, g: nat)
    requires
        matrices_ok(a),
        matrices_ok(b),
    ensures
        matrices_ok(div_rule(a, b, g)),
    decreases g + 1, 1int,
{
    if !is_cst(b, 1) && !(a is Constant && b is Constant && b->Constant_0 != 0) && a is Add && b is Constant {
        let l = *a->Add_0;
        let r = *a->Add_1;
        let k = b->Constant_0;
        assert(matrices_ok(l) && matrices_ok(r) && matrices_ok(cst(k)));
        if l is Mul && is_cst(*l->Mul_1, k) {
            let d = ScalarV::Div(Box::new(r), Box::new(cst(k)));
            assert(matrices_ok(*l->Mul_0));
            assert(matrices_ok(d));
            lemma_simp_matrices(ScalarV::Add(l->Mul_0, Box::new(d)), g);
        } else if !(l is Mul) && r is Mul && is_cst(*r->Mul_1, k) {
            let d = ScalarV::Div(Box::new(l), Box::new(cst(k)));
            assert(matrices_ok(*r->Mul_0));
            assert(matrices_ok(d));
            lemma_simp_matrices(ScalarV::Add(r->Mul_0, Box::new(d)), g);
        }
    }
}

proof fn lemma_mod_matrices(a: ScalarV, b: ScalarV, g: nat)
    requires
        matrices_ok(a),
        matrices_ok(b),
    ensures
        matrices_ok(mod_rule(a, b, g)),
    decreases g + 1, 1int,
{
    if !(a is Constant && b is Constant && b->Constant_0 != 0) && a is Add && b is Constant {
        let l = *a->Add_0;
        let r = *a->Add_1;
        let k = b->Constant_0;
        assert(matrices_ok(l) && matrices_ok(r) && matrices_ok(cst(k)));
        if l is Mul && is_cst(*l->Mul_1, k) {
            lemma_simp_matrices(ScalarV::Mod(Box::new(r), Box::new(cst(k))), g);
        } else if !(l is Mul) && r is Mul && is_cst(*r->Mul_1, k) {
            lemma_simp_matrices(ScalarV::Mod(Box::new(l), Box::new(cst(k))), g);
        }
    }
}

/// Simplifying keeps bit matrices well formed.
proof fn lemma_simp_matrices(e: ScalarV, f: nat)
    requires
        matrices_ok(e),
    ensures
        matrices_ok(simp_f(e, f)),
    decreases f, 2int,
{
    if f > 0 {
        let g = (f - 1) as nat;
        match e {
            ScalarV::Add(a, b) => {
                lemma_simp_matrices(*a, g);
                lemma_simp_matrices(*b, g);
                lemma_add_matrices(simp_f(*a, g), simp_f(*b, g), g);
            },
            ScalarV::Mul(a, b) => {
                lemma_simp_matrices(*a, g);
                lemma_simp_matrices(*b, g);
            },
            ScalarV::Div(a, b) => {
                lemma_simp_matrices(*a, g);
                lemma_simp_matrices(*b, g);
                lemma_div_matrices(simp_f(*a, g), simp_f(*b, g), g);
            },
            ScalarV::Mod(a, b) => {
                lemma_simp_matrices(*a, g);
                lemma_simp_matrices(*b, g);
                lemma_mod_matrices(simp_f(*a, g), simp_f(*b, g), g);
            },
            ScalarV::And(a, b) => {
                lemma_simp_matrices(*a, g);
                lemma_simp_matrices(*b, g);
            },
            ScalarV::BitLinear(a, m) => {
                lemma_simp_matrices(*a, g);
            },
            _ => {},
        }
    }
}

proof fn lemma_add_safe(a: ScalarV, b: ScalarV, x: Seq<u64>, g: nat)
    requires
        operand(a, x),
        operand(b, x),
        matrices_ok(a),
        matrices_ok(b),
        eval_scalar(a, x) + eval_scalar(b, x) <= u64::MAX,
        g >= scalar_size(a) + scalar_size(b),
    ensures
        add_ok(a, b, g),
    decreases g + 1, 1int,
{
    lemma_size_pos(a);
    lemma_size_pos(b);
    if !is_cst(a, 0) && !is_cst(b, 0) && !(a is Constant && b is Constant) && a is Add && b is Constant
        && (*a->Add_1) is Constant {
        lemma_add_node(a, x);
        let c1 = (*a->Add_1)->Constant_0;
        let c2 = b->Constant_0;
        assert(eval_scalar(*a->Add_1, x) == c1);
        assert(eval_scalar(b, x) == c2);
        assert(c1 + c2 <= u64::MAX);
        let c = (c1 + c2) as u64;
        let n = ScalarV::Add(a->Add_0, Box::new(cst(c)));
        assert(scalar_size(cst(c)) == 1);
        assert(scalar_size(*a->Add_1) == 1);
        assert(scalar_size(n) == scalar_size(a));
        assert(eval_scalar(cst(c), x) == c);
        assert(no_wrap(cst(c), x));
        assert(eval_scalar(*a->Add_0, x) + c <= u64::MAX);
        assert(no_wrap(n, x));
        assert(conditions_only(*a->Add_0));
        assert(conditions_only(cst(c)));
        assert(conditions_only(n));
        assert(matrices_ok(*a->Add_0));
        assert(matrices_ok(cst(c)));
        assert(matrices_ok(n));
        lemma_simp_safe(n, x, g);
    }
}

proof fn lemma_div_safe(a: ScalarV, b: ScalarV, x: Seq<u64>, g: nat)
    requires
        operand(a, x),
        operand(b, x),
        matrices_ok(a),
        matrices_ok(b),
        g >= scalar_size(a) + scalar_size(b),
    ensures
        div_ok(a, b, g),
    decreases g + 1, 1int,
{
    lemma_size_pos(a);
    lemma_size_pos(b);
    if !is_cst(b, 1) && !(a is Constant && b is Constant && b->Constant_0 != 0) && a is Add && b is Constant {
        let l = *a->Add_0;
        let r = *a->Add_1;
        let k = b->Constant_0;
        lemma_size_pos(l);
        lemma_size_pos(r);
        assert(conditions_only(l) && conditions_only(r));
        assert(matrices_ok(l) && matrices_ok(r) && matrices_ok(cst(k)));
        if l is Mul {
            if is_cst(*l->Mul_1, k) {
                let t = *l->Mul_0;
                let n = ScalarV::Add(Box::new(t), Box::new(ScalarV::Div(Box::new(r), Box::new(cst(k)))));
                let vt = eval_scalar(t, x) as int;
                let vr = eval_scalar(r, x) as int;
                assert(matrices_ok(t));
                assert(matrices_ok(ScalarV::Div(Box::new(r), Box::new(cst(k)))));
                assert(k != 0);
                lemma_div_split(vt, k as int, vr);
                lemma_add_node(a, x);
                lemma_mul_node(l, x);
                assert(eval_scalar(l, x) == vt * k);
                assert(scalar_size(*l->Mul_1) == 1);
                assert(scalar_size(cst(k)) == 1);
                assert(scalar_size(l) == scalar_size(t) + 2);
                assert(scalar_size(ScalarV::Div(Box::new(r), Box::new(cst(k)))) == scalar_size(r) + 2);
                assert(scalar_size(n) == scalar_size(a));
                assert(eval_scalar(ScalarV::Div(Box::new(r), Box::new(cst(k))), x) == vr / k as int);
                assert(no_wrap(ScalarV::Div(Box::new(r), Box::new(cst(k))), x));
                assert(no_wrap(n, x));
                assert(conditions_only(t));
                assert(conditions_only(cst(k)));
                assert(conditions_only(ScalarV::Div(Box::new(r), Box::new(cst(k)))));
                assert(conditions_only(n));
                assert(matrices_ok(n));
                lemma_simp_safe(n, x, g);
            }
        } else if r is Mul {
            if is_cst(*r->Mul_1, k) {
                let t = *r->Mul_0;
                let n = ScalarV::Add(Box::new(t), Box::new(ScalarV::Div(Box::new(l), Box::new(cst(k)))));
                let vt = eval_scalar(t, x) as int;
                let vl = eval_scalar(l, x) as int;
                assert(matrices_ok(t));
                assert(matrices_ok(ScalarV::Div(Box::new(l), Box::new(cst(k)))));
                assert(k != 0);
                lemma_div_split(vt, k as int, vl);
                lemma_add_node(a, x);
                lemma_mul_node(r, x);
                assert(eval_scalar(r, x) == vt * k);
                assert(eval_scalar(a, x) == vl + vt * k);
                assert(scalar_size(*r->Mul_1) == 1);
                assert(scalar_size(cst(k)) == 1);
                assert(scalar_size(r) == scalar_size(t) + 2);
                assert(scalar_size(ScalarV::Div(Box::new(l), Box::new(cst(k)))) == scalar_size(l) + 2);
                assert(scalar_size(n) == scalar_size(a));
                assert(eval_scalar(ScalarV::Div(Box::new(l), Box::new(cst(k))), x) == vl / k as int);
                assert(no_wrap(ScalarV::Div(Box::new(l), Box::new(cst(k))), x));
                assert(no_wrap(n, x));
                assert(conditions_only(t));
                assert(conditions_only(cst(k)));
                assert(conditions_only(ScalarV::Div(Box::new(l), Box::new(cst(k)))));
                assert(conditions_only(n));
                assert(matrices_ok(n));
                lemma_simp_safe(n, x, g);
            }
        }
    }
}

proof fn lemma_mod_safe(a: ScalarV, b: ScalarV, x: Seq<u64>, g: nat)
    requires
        operand(a, x),
        operand(b, x),
        matrices_ok(a),
        matrices_ok(b),
        g >= scalar_size(a) + scalar_size(b),
    ensures
        mod_ok(a, b, g),
    decreases g + 1, 1int,
{
    lemma_size_pos(a);
    lemma_size_pos(b);
    if !(a is Constant && b is Constant && b->Constant_0 != 0) && a is Add && b is Constant {
        let l = *a->Add_0;
        let r = *a->Add_1;
        let k = b->Constant_0;
        lemma_size_pos(l);
        lemma_size_pos(r);
        assert(conditions_only(l) && conditions_only(r));
        assert(matrices_ok(l) && matrices_ok(r) && matrices_ok(cst(k)));
        if l is Mul {
            if is_cst(*l->Mul_1, k) {
                let n = ScalarV::Mod(Box::new(r), Box::new(cst(k)));
                assert(scalar_size(cst(k)) == 1);
                assert(scalar_size(n) == scalar_size(r) + 2);
                assert(conditions_only(cst(k)));
                assert(conditions_only(n));
                assert(no_wrap(n, x));
                assert(matrices_ok(n));
                lemma_simp_safe(n, x, g);
            }
        } else if r is Mul {
            if is_cst(*r->Mul_1, k) {
                let n = ScalarV::Mod(Box::new(l), Box::new(cst(k)));
                assert(scalar_size(cst(k)) == 1);
                assert(scalar_size(n) == scalar_size(l) + 2);
                assert(conditions_only(cst(k)));
                assert(conditions_only(n));
                assert(no_wrap(n, x));
                assert(matrices_ok(n));
                lemma_simp_safe(n, x, g);
            }
        }
    }
}

/// Simplifying with enough budget does not panic where the arithmetic stays
/// within 64 bits at some point, conjunctions join conditions and bit
/// matrices are well formed.
proof fn lemma_simp_safe(e: ScalarV, x: Seq<u64>, f: nat)
    requires
        f >= scalar_size(e),
        no_wrap(e, x),
        conditions_only(e),
        matrices_ok(e),
    ensures
        simp_ok_f(e, f),
    decreases f, 2int,
{
    lemma_size_pos(e);
    let g = (f - 1) as nat;
    match e {
        ScalarV::Add(a, b) => {
            lemma_simp_safe(*a, x, g);
            lemma_simp_safe(*b, x, g);
            lemma_simp(*a, x, g);
            lemma_simp(*b, x, g);
            lemma_simp_matrices(*a, g);
            lemma_simp_matrices(*b, g);
            lemma_add_safe(simp_f(*a, g), simp_f(*b, g), x, g);
        },
        ScalarV::Mul(a, b) => {
            lemma_simp_safe(*a, x, g);
            lemma_simp_safe(*b, x, g);
            lemma_simp(*a, x, g);
            lemma_simp(*b, x, g);
        },
        ScalarV::Div(a, b) => {
            lemma_simp_safe(*a, x, g);
            lemma_simp_safe(*b, x, g);
            lemma_simp(*a, x, g);
            lemma_simp(*b, x, g);
            lemma_simp_matrices(*a, g);
            lemma_simp_matrices(*b, g);
            lemma_div_safe(simp_f(*a, g), simp_f(*b, g), x, g);
        },
        ScalarV::Mod(a, b) => {
            lemma_simp_safe(*a, x, g);
            lemma_simp_safe(*b, x, g);
            lemma_simp(*a, x, g);
            lemma_simp(*b, x, g);
            lemma_simp_matrices(*a, g);
            lemma_simp_matrices(*b, g);
            lemma_mod_safe(simp_f(*a, g), simp_f(*b, g), x, g);
        },
        ScalarV::And(a, b) => {
            lemma_simp_safe(*a, x, g);
            lemma_simp_safe(*b, x, g);
        },
        ScalarV::BitLinear(a, m) => {
            lemma_simp_safe(*a, x, g);
        },
        _ => {},
    }
}

/// Simplification does not panic on an expression whose arithmetic stays
/// within 64 bits at some point, whose conjunctions join conditions and whose
/// bit matrices are well formed, and it keeps the value at that point.
pub proof fn lemma_simplify_safe_where_no_wrap(e: ScalarV, x: Seq<u64>)
    requires
        no_wrap(e, x),
        conditions_only(e),
        matrices_ok(e),
    ensures
        simplify_scalar_ok(e),
        eval_scalar(simplify_scalar(e), x) == eval_scalar(e, x),
{
    assert forall|f: nat| f >= scalar_size(e) implies #[trigger] simp_ok_f(e, f) by {
        lemma_simp_safe(e, x, f);
    }
    lemma_simplify_keeps_value(e, x);
}

proof fn lemma_add_eval_ok(a: ScalarV, b: ScalarV, x: Seq<u64>, g: nat)
    requires
        operand(a, x),
        operand(b, x),
        eval_scalar_ok(a, x),
        eval_scalar_ok(b, x),
        eval_scalar(a, x) + eval_scalar(b, x) <= u64::MAX,
        g >= scalar_size(a) + scalar_size(b),
        add_ok(a, b, g),
    ensures
        eval_scalar_ok(add_rule(a, b, g), x),
    decreases g + 1, 1int,
{
    lemma_size_pos(a);
    lemma_size_pos(b);
    if !is_cst(a, 0) && !is_cst(b, 0) && !(a is Constant && b is Constant) && a is Add && b is Constant
        && (*a->Add_1) is Constant {
        let c = ((*a->Add_1)->Constant_0 + b->Constant_0) as u64;
        let n = ScalarV::Add(a->Add_0, Box::new(cst(c)));
        assert(scalar_size(cst(c)) == 1);
        assert(scalar_size(*a->Add_1) == 1);
        assert(scalar_size(n) == scalar_size(a));
        lemma_add_node(a, x);
        let c1 = (*a->Add_1)->Constant_0;
        let c2 = b->Constant_0;
        assert(eval_scalar(*a->Add_1, x) == c1);
        assert(eval_scalar(b, x) == c2);
        assert(c == c1 + c2);
        assert(eval_scalar(cst(c), x) == c);
        assert(no_wrap(cst(c), x));
        assert(eval_scalar(*a->Add_0, x) + c <= u64::MAX);
        assert(no_wrap(n, x));
        assert(conditions_only(*a->Add_0));
        assert(conditions_only(cst(c)));
        assert(conditions_only(n));
        assert(eval_scalar_ok(*a->Add_0, x));
        assert(eval_scalar_ok(cst(c), x));
        assert(n == ScalarV::Add(a->Add_0, Box::new(cst(c))));
        assert(eval_scalar_ok(n, x));
        lemma_simp_eval_ok(n, x, g);
    }
}

proof fn lemma_div_eval_ok(a: ScalarV, b: ScalarV, x: Seq<u64>, g: nat)
    requires
        operand(a, x),
        operand(b, x),
        eval_scalar_ok(b, x),
        eval_scalar(b, x) != 0 ==> eval_scalar_ok(a, x),
        g >= scalar_size(a) + scalar_size(b),
        div_ok(a, b, g),
    ensures
        eval_scalar_ok(div_rule(a, b, g), x),
    decreases g + 1, 1int,
{
    lemma_size_pos(a);
    lemma_size_pos(b);
    if is_cst(b, 1) {
        assert(eval_scalar(b, x) == 1);
    } else if a is Constant && b is Constant && b->Constant_0 != 0 {
    } else if a is Add && b is Constant {
        let l = *a->Add_0;
        let r = *a->Add_1;
        let k = b->Constant_0;
        lemma_size_pos(l);
        lemma_size_pos(r);
        assert(conditions_only(l) && conditions_only(r));
        if l is Mul && is_cst(*l->Mul_1, k) {
            let t = *l->Mul_0;
            let n = ScalarV::Add(Box::new(t), Box::new(ScalarV::Div(Box::new(r), Box::new(cst(k)))));
            let vt = eval_scalar(t, x) as int;
            let vr = eval_scalar(r, x) as int;
            assert(k != 0);
            assert(eval_scalar(b, x) == k);
            assert(eval_scalar_ok(l, x) && eval_scalar_ok(r, x));
            assert(eval_scalar_ok(t, x));
            lemma_div_split(vt, k as int, vr);
            lemma_add_node(a, x);
            lemma_mul_node(l, x);
            assert(eval_scalar(l, x) == vt * k);
            assert(scalar_size(*l->Mul_1) == 1);
            assert(scalar_size(cst(k)) == 1);
            assert(scalar_size(l) == scalar_size(t) + 2);
            assert(scalar_size(ScalarV::Div(Box::new(r), Box::new(cst(k)))) == scalar_size(r) + 2);
            assert(scalar_size(n) == scalar_size(a));
            assert(eval_scalar(ScalarV::Div(Box::new(r), Box::new(cst(k))), x) == vr / k as int);
            assert(no_wrap(ScalarV::Div(Box::new(r), Box::new(cst(k))), x));
            assert(no_wrap(n, x));
            assert(conditions_only(t));
            assert(conditions_only(cst(k)));
            assert(conditions_only(ScalarV::Div(Box::new(r), Box::new(cst(k)))));
            assert(conditions_only(n));
            assert(eval_scalar_ok(ScalarV::Div(Box::new(r), Box::new(cst(k))), x));
            assert(eval_scalar_ok(n, x));
            lemma_simp_eval_ok(n, x, g);
            assert(div_distribute(l, r, k, g) == Some(simp_f(n, g)));
        } else if !(l is Mul) && r is Mul && is_cst(*r->Mul_1, k) {
            let t = *r->Mul_0;
            let n = ScalarV::Add(Box::new(t), Box::new(ScalarV::Div(Box::new(l), Box::new(cst(k)))));
            let vt = eval_scalar(t, x) as int;
            let vl = eval_scalar(l, x) as int;
            assert(k != 0);
            assert(eval_scalar(b, x) == k);
            assert(eval_scalar_ok(l, x) && eval_scalar_ok(r, x));
            assert(eval_scalar_ok(t, x));
            lemma_div_split(vt, k as int, vl);
            lemma_add_node(a, x);
            lemma_mul_node(r, x);
            assert(eval_scalar(r, x) == vt * k);
            assert(eval_scalar(a, x) == vl + vt * k);
            assert(scalar_size(*r->Mul_1) == 1);
            assert(scalar_size(cst(k)) == 1);
            assert(scalar_size(r) == scalar_size(t) + 2);
            assert(scalar_size(ScalarV::Div(Box::new(l), Box::new(cst(k)))) == scalar_size(l) + 2);
            assert(scalar_size(n) == scalar_size(a));
            assert(eval_scalar(ScalarV::Div(Box::new(l), Box::new(cst(k))), x) == vl / k as int);
            assert(no_wrap(ScalarV::Div(Box::new(l), Box::new(cst(k))), x));
            assert(no_wrap(n, x));
            assert(conditions_only(t));
            assert(conditions_only(cst(k)));
            assert(conditions_only(ScalarV::Div(Box::new(l), Box::new(cst(k)))));
            assert(conditions_only(n));
            assert(eval_scalar_ok(ScalarV::Div(Box::new(l), Box::new(cst(k))), x));
            assert(eval_scalar_ok(n, x));
            lemma_simp_eval_ok(n, x, g);
            assert(div_distribute(l, r, k, g) == Some(simp_f(n, g)));
        } else {
            assert(div_distribute(l, r, k, g) is None);
        }
    } else if b is Constant && exact_log2(b->Constant_0 as nat) is Some {
        lemma_shift_is_div(eval_scalar(a, x), b->Constant_0);
        assert(eval_scalar(b, x) == b->Constant_0);
    }
}

proof fn lemma_mod_eval_ok(a: ScalarV, b: ScalarV, x: Seq<u64>, g: nat)
    requires
        operand(a, x),
        operand(b, x),
        eval_scalar_ok(b, x),
        eval_scalar(b, x) != 0 ==> eval_scalar_ok(a, x),
        g >= scalar_size(a) + scalar_size(b),
        mod_ok(a, b, g),
    ensures
        eval_scalar_ok(mod_rule(a, b, g), x),
    decreases g + 1, 1int,
{
    lemma_size_pos(a);
    lemma_size_pos(b);
    if a is Constant && b is Constant && b->Constant_0 != 0 {
    } else if a is Add && b is Constant {
        let l = *a->Add_0;
        let r = *a->Add_1;
        let k = b->Constant_0;
        lemma_size_pos(l);
        lemma_size_pos(r);
        assert(conditions_only(l) && conditions_only(r));
        if l is Mul && is_cst(*l->Mul_1, k) {
            let n = ScalarV::Mod(Box::new(r), Box::new(cst(k)));
            assert(k != 0);
            assert(eval_scalar(b, x) == k);
            assert(eval_scalar_ok(r, x));
            assert(scalar_size(cst(k)) == 1);
            assert(scalar_size(n) == scalar_size(r) + 2);
            assert(conditions_only(cst(k)));
            assert(conditions_only(n));
            assert(no_wrap(n, x));
            assert(eval_scalar_ok(n, x));
            lemma_simp_eval_ok(n, x, g);
            assert(mod_distribute(l, r, k, g) == Some(simp_f(n, g)));
        } else if !(l is Mul) && r is Mul && is_cst(*r->Mul_1, k) {
            let n = ScalarV::Mod(Box::new(l), Box::new(cst(k)));
            assert(k != 0);
            assert(eval_scalar(b, x) == k);
            assert(eval_scalar_ok(l, x));
            assert(scalar_size(cst(k)) == 1);
            assert(scalar_size(n) == scalar_size(l) + 2);
            assert(conditions_only(cst(k)));
            assert(conditions_only(n));
            assert(no_wrap(n, x));
            assert(eval_scalar_ok(n, x));
            lemma_simp_eval_ok(n, x, g);
            assert(mod_distribute(l, r, k, g) == Some(simp_f(n, g)));
        } else {
            assert(mod_distribute(l, r, k, g) is None);
        }
    }
}

/// Simplifying with enough budget keeps evaluation free of panic at a point
/// where it was, the arithmetic does not wrap and conjunctions join
/// conditions.
proof fn lemma_simp_eval_ok(e: ScalarV, x: Seq<u64>, f: nat)
    requires
        f >= scalar_size(e),
        simp_ok_f(e, f),
        no_wrap(e, x),
        conditions_only(e),
        eval_scalar_ok(e, x),
    ensures
        eval_scalar_ok(simp_f(e, f), x),
    decreases f, 2int,
{
    lemma_size_pos(e);
    let g = (f - 1) as nat;
    match e {
        ScalarV::Add(a, b) => {
            lemma_simp_eval_ok(*a, x, g);
            lemma_simp_eval_ok(*b, x, g);
            lemma_simp(*a, x, g);
            lemma_simp(*b, x, g);
            lemma_add_eval_ok(simp_f(*a, g), simp_f(*b, g), x, g);
        },
        ScalarV::Mul(a, b) => {
            lemma_simp_eval_ok(*a, x, g);
            lemma_simp_eval_ok(*b, x, g);
        },
        ScalarV::Div(a, b) => {
            lemma_simp_eval_ok(*b, x, g);
            if eval_scalar(*b, x) != 0 {
                lemma_simp_eval_ok(*a, x, g);
            }
            lemma_simp(*a, x, g);
            lemma_simp(*b, x, g);
            lemma_div_eval_ok(simp_f(*a, g), simp_f(*b, g), x, g);
        },
        ScalarV::Mod(a, b) => {
            lemma_simp_eval_ok(*b, x, g);
            if eval_scalar(*b, x) != 0 {
                lemma_simp_eval_ok(*a, x, g);
            }
            lemma_simp(*a, x, g);
            lemma_simp(*b, x, g);
            lemma_mod_eval_ok(simp_f(*a, g), simp_f(*b, g), x, g);
        },
        ScalarV::And(a, b) => {
            lemma_simp_eval_ok(*a, x, g);
            if eval_scalar(*a, x) != 0 {
                lemma_simp_eval_ok(*b, x, g);
            }
            lemma_simp(*a, x, g);
            lemma_simp(*b, x, g);
        },
        ScalarV::BitLinear(a, m) => {
            lemma_simp_eval_ok(*a, x, g);
        },
        _ => {},
    }
}

/// Where an expression evaluates without panic at a point at which its
/// arithmetic does not wrap and its conjunctions join conditions, its
/// simplified form evaluates without panic there too, to the same value.
pub proof fn lemma_simplify_evaluates_safely(e: ScalarV, x: Seq<u64>)
    requires
        simplify_scalar_ok(e),
        no_wrap(e, x),
        conditions_only(e),
        eval_scalar_ok(e, x),
    ensures
        eval_scalar_ok(simplify_scalar(e), x),
        eval_scalar(simplify_scalar(e), x) == eval_scalar(e, x),
{
    assert(simp_ok_f(e, scalar_size(e)));
    lemma_simp_eval_ok(e, x, scalar_size(e));
    lemma_simplify_keeps_value(e, x);
}

} // verus!
