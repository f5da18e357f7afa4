//! What simplifying an extent keeps: where the simplified extent of a product,
//! or the product itself, has a positive value, the other has the same value;
//! and where an extent has a positive value, simplifying it does not overflow.
use vstd::prelude::*;
use crate::space::{
    ExtentV, SpaceV, eval_extent, eval_product, simplify_extent, simplified_parts, fold_constants, const_product,
    constants_fit, non_constants, simplify_extent_ok, prod, volume_of, opt_extents, extents, all_some,
    lemma_prod_split, lemma_prod_positive, lemma_filter_push,
};

verus! {

/// The values of the parts (arbitrary where a part has none).
pub open spec fn part_values(parts: Seq<ExtentV>, vars: Map<Seq<char>, u64>) -> Seq<u64> {
    Seq::new(parts.len(), |i: int| eval_extent(parts[i], vars)->0)
}

/// Every part has a value.
pub open spec fn parts_valued(parts: Seq<ExtentV>, vars: Map<Seq<char>, u64>) -> bool {
    forall|i: int| 0 <= i < parts.len() ==> (#[trigger] eval_extent(parts[i], vars)) is Some
}

proof fn lemma_prod_push(e: Seq<u64>, x: u64)
    ensures
        prod(e.push(x)) == prod(e) * x as nat,
{
    let f = e.push(x);
    lemma_prod_split(f, e.len() as int);
    assert(f.take(e.len() as int) =~= e);
    assert(f.skip(e.len() as int) =~= seq![x]);
    assert(seq![x].drop_first() =~= Seq::<u64>::empty());
    assert(prod(seq![x].drop_first()) == 1);
    assert(seq![x][0] == x);
    let one = prod(seq![x].drop_first());
    assert(prod(seq![x]) == x as nat * one);
    assert(x as nat * one == x as nat) by (nonlinear_arith)
        requires
            one == 1,
    ;
}

proof fn lemma_prod_cons(x: u64, e: Seq<u64>)
    ensures
        prod(seq![x] + e) == x as nat * prod(e),
{
    assert((seq![x] + e).drop_first() =~= e);
}

pub proof fn lemma_prod_zero(e: Seq<u64>, i: int)
    requires
        0 <= i < e.len(),
        e[i] == 0,
    ensures
        prod(e) == 0,
{
    lemma_prod_split(e, i);
    assert(e.skip(i).drop_first() =~= e.skip(i + 1));
    assert(prod(e.skip(i)) == 0);
    assert(prod(e.take(i)) * 0 == 0) by (nonlinear_arith);
}

/// A running product that has a value has every part valued, and it is the
/// product of their values.
proof fn lemma_eval_product_exact(parts: Seq<ExtentV>, vars: Map<Seq<char>, u64>, k: int)
    requires
        0 <= k <= parts.len(),
        eval_product(parts, vars, k) is Some,
    ensures
        forall|i: int| 0 <= i < k ==> (#[trigger] eval_extent(parts[i], vars)) is Some,
        eval_product(parts, vars, k)->0 == prod(part_values(parts, vars).take(k)),
    decreases k,
{
    let vals = part_values(parts, vars);
    if k == 0 {
        assert(vals.take(0) =~= Seq::<u64>::empty());
    } else {
        lemma_eval_product_exact(parts, vars, k - 1);
        assert(vals.take(k) =~= vals.take(k - 1).push(vals[k - 1]));
        lemma_prod_push(vals.take(k - 1), vals[k - 1]);
    }
}

/// A product of positive values that fits in 64 bits has its running products
/// fit too, so it has a value.
proof fn lemma_eval_product_positive(parts: Seq<ExtentV>, vars: Map<Seq<char>, u64>, k: int)
    requires
        0 <= k <= parts.len(),
        parts_valued(parts, vars),
        forall|i: int| 0 <= i < parts.len() ==> #[trigger] part_values(parts, vars)[i] > 0,
        prod(part_values(parts, vars)) <= u64::MAX,
    ensures
        eval_product(parts, vars, k) == Some(prod(part_values(parts, vars).take(k)) as u64),
    decreases k,
{
    let vals = part_values(parts, vars);
    if k == 0 {
        assert(vals.take(0) =~= Seq::<u64>::empty());
    } else {
        lemma_eval_product_positive(parts, vars, k - 1);
        assert(vals.take(k) =~= vals.take(k - 1).push(vals[k - 1]));
        lemma_prod_push(vals.take(k - 1), vals[k - 1]);
        lemma_prod_split(vals, k);
        assert forall|i: int| 0 <= i < vals.skip(k).len() implies #[trigger] vals.skip(k)[i] > 0 by {
            assert(vals.skip(k)[i] == vals[k + i]);
        }
        lemma_prod_positive(vals.skip(k));
        let a = prod(vals.take(k));
        let b = prod(vals.skip(k));
        assert(a <= a * b) by (nonlinear_arith)
            requires
                b >= 1,
        ;
        assert(eval_extent(parts[k - 1], vars) is Some);
        let r = prod(vals.take(k - 1));
        let v = vals[k - 1];
        assert(r <= r * v) by (nonlinear_arith)
            requires
                v >= 1,
        ;
        assert(r * v <= u64::MAX);
        assert(eval_product(parts, vars, k - 1) == Some(r as u64));
        assert(eval_extent(parts[k - 1], vars) == Some(v));
    }
}

/// The product of the values of the first `k` parts is the product of their
/// constants times the product of the values of their other parts.
proof fn lemma_const_split(sp: Seq<ExtentV>, vars: Map<Seq<char>, u64>, k: int)
    requires
        0 <= k <= sp.len(),
    ensures
        const_product(sp, k) >= 0,
        prod(part_values(sp, vars).take(k)) == const_product(sp, k) * prod(
            part_values(non_constants(sp.take(k)), vars),
        ),
        parts_valued(sp.take(k), vars) <==> parts_valued(non_constants(sp.take(k)), vars),
    decreases k,
{
    let vals = part_values(sp, vars);
    if k == 0 {
        assert(vals.take(0) =~= Seq::<u64>::empty());
        assert(sp.take(0) =~= Seq::<ExtentV>::empty());
        reveal(Seq::filter);
        assert(non_constants(sp.take(0)) =~= Seq::<ExtentV>::empty());
        assert(part_values(non_constants(sp.take(0)), vars) =~= Seq::<u64>::empty());
    } else {
        lemma_const_split(sp, vars, k - 1);
        let x = sp[k - 1];
        let pre = sp.take(k - 1);
        assert(sp.take(k) =~= pre.push(x));
        lemma_filter_push(pre, x);
        assert(vals.take(k) =~= vals.take(k - 1).push(vals[k - 1]));
        lemma_prod_push(vals.take(k - 1), vals[k - 1]);
        let nc = non_constants(pre);
        let c = const_product(sp, k - 1);
        let p = prod(part_values(nc, vars));
        if x is Constant {
            let v = x->Constant_0;
            assert(const_product(sp, k) == c * v);
            assert(c * p * v == (c * v) * p) by (nonlinear_arith);
            assert(c * v >= 0) by (nonlinear_arith)
                requires
                    c >= 0,
            ;
            assert(parts_valued(sp.take(k), vars) <==> parts_valued(pre, vars)) by {
                if parts_valued(pre, vars) {
                    assert forall|i: int| 0 <= i < sp.take(k).len() implies (#[trigger] eval_extent(
                        sp.take(k)[i],
                        vars,
                    )) is Some by {
                        if i < k - 1 {
                            assert(sp.take(k)[i] == pre[i]);
                        }
                    }
                }
                if parts_valued(sp.take(k), vars) {
                    assert forall|i: int| 0 <= i < pre.len() implies (#[trigger] eval_extent(
                        pre[i],
                        vars,
                    )) is Some by {
                        assert(sp.take(k)[i] == pre[i]);
                    }
                }
            }
        } else {
            assert(const_product(sp, k) == c);
            assert(part_values(nc.push(x), vars) =~= part_values(nc, vars).push(vals[k - 1]));
            lemma_prod_push(part_values(nc, vars), vals[k - 1]);
            assert(c * (p * vals[k - 1]) == c * p * vals[k - 1]) by (nonlinear_arith);
            assert(parts_valued(sp.take(k), vars) <==> parts_valued(pre, vars) && eval_extent(x, vars) is Some) by {
                if parts_valued(pre, vars) && eval_extent(x, vars) is Some {
                    assert forall|i: int| 0 <= i < sp.take(k).len() implies (#[trigger] eval_extent(
                        sp.take(k)[i],
                        vars,
                    )) is Some by {
                        if i < k - 1 {
                            assert(sp.take(k)[i] == pre[i]);
                        }
                    }
                }
                if parts_valued(sp.take(k), vars) {
                    assert forall|i: int| 0 <= i < pre.len() implies (#[trigger] eval_extent(
                        pre[i],
                        vars,
                    )) is Some by {
                        assert(sp.take(k)[i] == pre[i]);
                    }
                    assert(sp.take(k)[k - 1] == x);
                }
            }
            assert(parts_valued(nc.push(x), vars) <==> parts_valued(nc, vars) && eval_extent(x, vars) is Some) by {
                if parts_valued(nc, vars) && eval_extent(x, vars) is Some {
                    assert forall|i: int| 0 <= i < nc.push(x).len() implies (#[trigger] eval_extent(
                        nc.push(x)[i],
                        vars,
                    )) is Some by {
                        if i < nc.len() {
                            assert(nc.push(x)[i] == nc[i]);
                        }
                    }
                }
                if parts_valued(nc.push(x), vars) {
                    assert forall|i: int| 0 <= i < nc.len() implies (#[trigger] eval_extent(nc[i], vars)) is Some by {
                        assert(nc.push(x)[i] == nc[i]);
                    }
                    assert(nc.push(x)[nc.len() as int] == x);
                }
            }
        }
    }
}

/// The parts of a product with its constants folded: the folded constant
/// first (left out when it is 1 and other parts remain), then the other parts.
pub open spec fn folded_parts(sp: Seq<ExtentV>) -> Seq<ExtentV> {
    let c = const_product(sp, sp.len() as int);
    let rest = non_constants(sp);
    if c != 1 || rest.len() == 0 {
        seq![ExtentV::Constant(c as u64)] + rest
    } else {
        rest
    }
}

/// What folding the constants of the simplified parts `sp` keeps: the value
/// of the folded product is the running product of the folded parts, whose
/// values multiply to the constant times the values of the other parts.
proof fn lemma_fold_facts(sp: Seq<ExtentV>, vars: Map<Seq<char>, u64>)
    requires
        constants_fit(sp),
    ensures
        eval_extent(fold_constants(sp), vars) == eval_product(
            folded_parts(sp),
            vars,
            folded_parts(sp).len() as int,
        ),
        prod(part_values(folded_parts(sp), vars)) == const_product(sp, sp.len() as int) * prod(
            part_values(non_constants(sp), vars),
        ),
        parts_valued(folded_parts(sp), vars) <==> parts_valued(non_constants(sp), vars),
        const_product(sp, sp.len() as int) > 0 && (forall|i: int|
            0 <= i < non_constants(sp).len() ==> #[trigger] part_values(non_constants(sp), vars)[i] > 0)
            ==> (forall|i: int|
            0 <= i < folded_parts(sp).len() ==> #[trigger] part_values(folded_parts(sp), vars)[i] > 0),
{
    let n = sp.len() as int;
    let c = const_product(sp, n);
    let rest = non_constants(sp);
    let wc = folded_parts(sp);
    lemma_const_split(sp, vars, n);
    assert(const_product(sp, n) <= u64::MAX);
    if wc.len() == 1 {
        assert(eval_product(wc, vars, 0) == Some(1u64));
        if let Some(v) = eval_extent(wc[0], vars) {
            assert(1 * v == v);
            assert(eval_product(wc, vars, 1) == Some(v)) by {
                reveal_with_fuel(eval_product, 2);
            }
        }
    }
    if c != 1 || rest.len() == 0 {
        let k = ExtentV::Constant(c as u64);
        assert(wc =~= seq![k] + rest);
        assert(part_values(wc, vars) =~= seq![c as u64] + part_values(rest, vars));
        lemma_prod_cons(c as u64, part_values(rest, vars));
        assert(parts_valued(wc, vars) <==> parts_valued(rest, vars)) by {
            if parts_valued(rest, vars) {
                assert forall|i: int| 0 <= i < wc.len() implies (#[trigger] eval_extent(wc[i], vars)) is Some by {
                    if i > 0 {
                        assert(wc[i] == rest[i - 1]);
                    }
                }
            }
            if parts_valued(wc, vars) {
                assert forall|i: int| 0 <= i < rest.len() implies (#[trigger] eval_extent(rest[i], vars)) is Some by {
                    assert(wc[i + 1] == rest[i]);
                }
            }
        }
        if c > 0 && (forall|i: int| 0 <= i < rest.len() ==> #[trigger] part_values(rest, vars)[i] > 0) {
            assert forall|i: int| 0 <= i < wc.len() implies #[trigger] part_values(wc, vars)[i] > 0 by {
                if i > 0 {
                    assert(part_values(wc, vars)[i] == part_values(rest, vars)[i - 1]);
                }
            }
        }
    } else {
        assert(wc == rest);
        assert(c * prod(part_values(rest, vars)) == prod(part_values(rest, vars)));
    }
}

/// The two extents agree wherever either has a positive value.
pub open spec fn agree_when_positive(a: ExtentV, b: ExtentV, vars: Map<Seq<char>, u64>) -> bool {
    &&& (eval_extent(b, vars) matches Some(w) && w > 0 ==> eval_extent(a, vars) == eval_extent(b, vars))
    &&& (eval_extent(a, vars) matches Some(w) && w > 0 ==> eval_extent(b, vars) == eval_extent(a, vars))
}

/// Simplifying an extent keeps its value wherever the extent or its
/// simplification has a positive value. (Where a value is 0 they may differ:
/// the product `y * x * 4 * 4` with `y = 2^62` and `x = 0` is 0, while its
/// simplification `16 * y * x` overflows at `16 * y` and has no value.)
pub proof fn lemma_simplify_keeps_positive_value(e: ExtentV, vars: Map<Seq<char>, u64>)
    requires
        simplify_extent_ok(e),
    ensures
        agree_when_positive(e, simplify_extent(e), vars),
    decreases e,
{
    match e {
        ExtentV::Product(parts) => {
            if parts.len() == 0 {
                assert(eval_product(parts, vars, 0) == Some(1u64));
            } else {
                let n = parts.len() as int;
                let sp = simplified_parts(parts);
                assert forall|i: int| 0 <= i < n implies #[trigger] agree_when_positive(parts[i], sp[i], vars) by {
                    lemma_simplify_keeps_positive_value(parts[i], vars);
                }
                let c = const_product(sp, n);
                let rest = non_constants(sp);
                let wc = folded_parts(sp);
                lemma_const_split(sp, vars, n);
                assert(sp.take(n) =~= sp);
                assert(part_values(sp, vars).take(n) =~= part_values(sp, vars));
                lemma_fold_facts(sp, vars);
                assert(simplify_extent(e) == fold_constants(sp));
                let lw = wc.len() as int;
                assert(part_values(wc, vars).take(lw) =~= part_values(wc, vars));
                assert(part_values(parts, vars).take(n) =~= part_values(parts, vars));
                if eval_extent(simplify_extent(e), vars) matches Some(w) && w > 0 {
                    lemma_eval_product_exact(wc, vars, lw);
                    assert(parts_valued(sp, vars));
                    assert forall|i: int| 0 <= i < n implies #[trigger] part_values(sp, vars)[i] > 0 by {
                        if part_values(sp, vars)[i] == 0 {
                            lemma_prod_zero(part_values(sp, vars), i);
                        }
                    }
                    assert forall|i: int| 0 <= i < n implies eval_extent(#[trigger] parts[i], vars) == eval_extent(
                        sp[i],
                        vars,
                    ) by {
                        assert(agree_when_positive(parts[i], sp[i], vars));
                        assert(eval_extent(sp[i], vars) is Some);
                        assert(part_values(sp, vars)[i] > 0);
                    }
                    assert(parts_valued(parts, vars)) by {
                        assert forall|i: int| 0 <= i < n implies (#[trigger] eval_extent(parts[i], vars)) is Some by {
                            assert(eval_extent(parts[i], vars) == eval_extent(sp[i], vars));
                            assert(eval_extent(sp[i], vars) is Some);
                        }
                    }
                    assert(part_values(parts, vars) =~= part_values(sp, vars));
                    lemma_eval_product_positive(parts, vars, n);
                }
                if eval_extent(e, vars) matches Some(w) && w > 0 {
                    let w = eval_extent(e, vars)->0;
                    lemma_eval_product_exact(parts, vars, n);
                    assert forall|i: int| 0 <= i < n implies #[trigger] part_values(parts, vars)[i] > 0 by {
                        if part_values(parts, vars)[i] == 0 {
                            lemma_prod_zero(part_values(parts, vars), i);
                        }
                    }
                    assert forall|i: int| 0 <= i < n implies eval_extent(#[trigger] sp[i], vars) == eval_extent(
                        parts[i],
                        vars,
                    ) by {
                        assert(agree_when_positive(parts[i], sp[i], vars));
                        assert(eval_extent(parts[i], vars) is Some);
                        assert(part_values(parts, vars)[i] > 0);
                    }
                    assert(parts_valued(sp, vars)) by {
                        assert forall|i: int| 0 <= i < n implies (#[trigger] eval_extent(sp[i], vars)) is Some by {
                            assert(eval_extent(sp[i], vars) == eval_extent(parts[i], vars));
                            assert(eval_extent(parts[i], vars) is Some);
                        }
                    }
                    assert(part_values(parts, vars) =~= part_values(sp, vars));
                    let p = prod(part_values(rest, vars));
                    assert(c > 0 && p > 0) by (nonlinear_arith)
                        requires
                            c * p == w,
                            w > 0,
                            c >= 0,
                            p >= 0,
                    ;
                    assert forall|i: int| 0 <= i < rest.len() implies #[trigger] part_values(rest, vars)[i] > 0 by {
                        if part_values(rest, vars)[i] == 0 {
                            lemma_prod_zero(part_values(rest, vars), i);
                        }
                    }
                    lemma_eval_product_positive(wc, vars, lw);
                }
            }
        },
        _ => {},
    }
}

/// Where the simplified volume of a space has a positive value `w`, every
/// extent of the space has a value and their product is `w`.
pub proof fn lemma_volume_value(s: SpaceV, vars: Map<Seq<char>, u64>, w: u64)
    requires
        simplify_extent_ok(volume_of(s)),
        eval_extent(simplify_extent(volume_of(s)), vars) == Some(w),
        w > 0,
    ensures
        all_some(opt_extents(s, vars)),
        prod(extents(s, vars)) == w,
{
    lemma_simplify_keeps_positive_value(volume_of(s), vars);
    let parts = volume_of(s)->Product_0;
    lemma_eval_product_exact(parts, vars, parts.len() as int);
    assert(part_values(parts, vars).take(parts.len() as int) =~= part_values(parts, vars));
    assert(part_values(parts, vars) =~= extents(s, vars));
    assert forall|i: int| 0 <= i < opt_extents(s, vars).len() implies #[trigger] opt_extents(s, vars)[i] is Some by {
        assert(eval_extent(parts[i], vars) is Some);
    }
}

/// Where every extent of a space has a positive value and their product fits
/// in 64 bits, the simplified volume of the space has that product as value.
pub proof fn lemma_volume_of_extents(s: SpaceV, vars: Map<Seq<char>, u64>)
    requires
        simplify_extent_ok(volume_of(s)),
        all_some(opt_extents(s, vars)),
        forall|i: int| 0 <= i < s.len() ==> #[trigger] extents(s, vars)[i] > 0,
        prod(extents(s, vars)) <= u64::MAX,
    ensures
        eval_extent(simplify_extent(volume_of(s)), vars) == Some(prod(extents(s, vars)) as u64),
{
    let parts = volume_of(s)->Product_0;
    assert(part_values(parts, vars) =~= extents(s, vars));
    assert(parts_valued(parts, vars)) by {
        assert forall|i: int| 0 <= i < parts.len() implies (#[trigger] eval_extent(parts[i], vars)) is Some by {
            assert(opt_extents(s, vars)[i] is Some);
        }
    }
    lemma_eval_product_positive(parts, vars, parts.len() as int);
    assert(part_values(parts, vars).take(parts.len() as int) =~= part_values(parts, vars));
    lemma_prod_positive(extents(s, vars));
    lemma_simplify_keeps_positive_value(volume_of(s), vars);
}

/// The extent has a positive value.
pub open spec fn has_positive_value(e: ExtentV, vars: Map<Seq<char>, u64>) -> bool {
    match eval_extent(e, vars) {
        Some(v) => v > 0,
        None => false,
    }
}

/// The running products of the constants among the first `k` simplified parts
/// stay within the running product of the values of the parts, where all
/// parts have positive values.
proof fn lemma_constants_within(parts: Seq<ExtentV>, vars: Map<Seq<char>, u64>, k: int)
    requires
        0 <= k <= parts.len(),
        forall|i: int| 0 <= i < parts.len() ==> #[trigger] has_positive_value(parts[i], vars),
        forall|i: int| 0 <= i < parts.len() ==> simplify_extent_ok(#[trigger] parts[i]),
    ensures
        0 <= const_product(simplified_parts(parts), k) <= prod(part_values(parts, vars).take(k)),
        prod(part_values(parts, vars).take(k)) >= 1,
    decreases k,
{
    let vals = part_values(parts, vars);
    let sp = simplified_parts(parts);
    if k == 0 {
        assert(vals.take(0) =~= Seq::<u64>::empty());
    } else {
        lemma_constants_within(parts, vars, k - 1);
        assert(vals.take(k) =~= vals.take(k - 1).push(vals[k - 1]));
        lemma_prod_push(vals.take(k - 1), vals[k - 1]);
        let r = prod(vals.take(k - 1));
        let v = vals[k - 1];
        assert(has_positive_value(parts[k - 1], vars));
        assert(v > 0);
        let c = const_product(sp, k - 1);
        assert(sp[k - 1] == simplify_extent(parts[k - 1]));
        lemma_simplify_keeps_positive_value(parts[k - 1], vars);
        if let ExtentV::Constant(cv) = sp[k - 1] {
            assert(eval_extent(sp[k - 1], vars) == Some(cv));
            assert(cv == v);
            assert(0 <= c * cv <= r * v) by (nonlinear_arith)
                requires
                    0 <= c <= r,
                    cv == v,
            ;
        } else {
            assert(c <= r * v) by (nonlinear_arith)
                requires
                    c <= r,
                    v >= 1,
                    r >= 1,
            ;
        }
        assert(r * v >= 1) by (nonlinear_arith)
            requires
                r >= 1,
                v >= 1,
        ;
    }
}

/// Where an extent has a positive value, simplifying it does not overflow
/// when folding constants.
pub proof fn lemma_positive_value_simplifies(e: ExtentV, vars: Map<Seq<char>, u64>, w: u64)
    requires
        eval_extent(e, vars) == Some(w),
        w > 0,
    ensures
        simplify_extent_ok(e),
    decreases e,
{
    if let ExtentV::Product(parts) = e {
        let n = parts.len() as int;
        let vals = part_values(parts, vars);
        lemma_eval_product_exact(parts, vars, n);
        assert(vals.take(n) =~= vals);
        assert forall|i: int| 0 <= i < n implies #[trigger] has_positive_value(parts[i], vars) by {
            assert(eval_extent(parts[i], vars) is Some);
            if vals[i] == 0 {
                lemma_prod_zero(vals, i);
            }
        }
        assert forall|i: int| 0 <= i < n implies simplify_extent_ok(#[trigger] parts[i]) by {
            assert(has_positive_value(parts[i], vars));
            lemma_positive_value_simplifies(parts[i], vars, eval_extent(parts[i], vars)->0);
        }
        assert forall|k: int| 0 <= k <= n implies #[trigger] const_product(simplified_parts(parts), k) <= u64::MAX by {
            lemma_constants_within(parts, vars, k);
            lemma_prod_split(vals, k);
            assert forall|i: int| 0 <= i < vals.skip(k).len() implies #[trigger] vals.skip(k)[i] > 0 by {
                assert(vals.skip(k)[i] == vals[k + i]);
                assert(has_positive_value(parts[k + i], vars));
            }
            lemma_prod_positive(vals.skip(k));
            let a = prod(vals.take(k));
            let b = prod(vals.skip(k));
            assert(a <= a * b) by (nonlinear_arith)
                requires
                    b >= 1,
            ;
        }
    }
}


/// What an extent's value is, by its form: a constant is its number; a
/// variable is its binding, and has a value exactly when it is bound; a
/// product is the product of its parts' values, and has one wherever those
/// are positive and their product fits in 64 bits; a quotient `a / b` and a
/// remainder `a % b` have a value exactly when `a` and `b` have one and `b`
/// is nonzero, the quotient `q` then being the floor of `a / b`
/// (`q * b <= a < (q + 1) * b`) and the remainder `r` what is left of `a`
/// after taking out whole multiples of `b` (`r < b`, `r <= a`, and `b`
/// divides `a - r`).
pub proof fn lemma_extent_values(e: ExtentV, vars: Map<Seq<char>, u64>)
    ensures
        e matches ExtentV::Constant(c) ==> eval_extent(e, vars) == Some(c),
        e matches ExtentV::Variable(n) ==> (eval_extent(e, vars) is Some <==> vars.contains_key(n)) && (
        vars.contains_key(n) ==> eval_extent(e, vars) == Some(vars[n])),
        e matches ExtentV::Product(parts) ==> (eval_extent(e, vars) is Some ==> parts_valued(parts, vars)
            && eval_extent(e, vars)->0 == prod(part_values(parts, vars))),
        e matches ExtentV::Product(parts) ==> (parts_valued(parts, vars) && (forall|i: int|
            0 <= i < parts.len() ==> #[trigger] part_values(parts, vars)[i] > 0) && prod(
            part_values(parts, vars),
        ) <= u64::MAX ==> eval_extent(e, vars) == Some(prod(part_values(parts, vars)) as u64)),
        e matches ExtentV::Quotient(a, b) ==> (eval_extent(e, vars) is Some <==> (eval_extent(*a, vars) is Some
            && eval_extent(*b, vars) is Some && eval_extent(*b, vars)->0 != 0)),
        e matches ExtentV::Quotient(a, b) ==> (eval_extent(e, vars) matches Some(q) ==> {
            let va = eval_extent(*a, vars)->0 as int;
            let vb = eval_extent(*b, vars)->0 as int;
            q * vb <= va < (q + 1) * vb
        }),
        e matches ExtentV::Remainder(a, b) ==> (eval_extent(e, vars) is Some <==> (eval_extent(*a, vars) is Some
            && eval_extent(*b, vars) is Some && eval_extent(*b, vars)->0 != 0)),
        e matches ExtentV::Remainder(a, b) ==> (eval_extent(e, vars) matches Some(r) ==> {
            let va = eval_extent(*a, vars)->0 as int;
            let vb = eval_extent(*b, vars)->0 as int;
            r < vb && r <= va && (va - r) % vb == 0
        }),
{
    match e {
        ExtentV::Product(parts) => {
            let vals = part_values(parts, vars);
            assert(vals.take(parts.len() as int) =~= vals);
            if eval_extent(e, vars) is Some {
                lemma_eval_product_exact(parts, vars, parts.len() as int);
            }
            if parts_valued(parts, vars) && (forall|i: int| 0 <= i < parts.len() ==> #[trigger] vals[i] > 0)
                && prod(vals) <= u64::MAX {
                lemma_eval_product_positive(parts, vars, parts.len() as int);
            }
        },
        ExtentV::Quotient(a, b) => {
            if let Some(q) = eval_extent(e, vars) {
                let va = eval_extent(*a, vars)->0 as int;
                let vb = eval_extent(*b, vars)->0 as int;
                assert(q == va / vb);
                assert(q * vb <= va < (q + 1) * vb) by (nonlinear_arith)
                    requires
                        vb > 0,
                        va >= 0,
                        q == va / vb,
                ;
            }
        },
        ExtentV::Remainder(a, b) => {
            if let Some(r) = eval_extent(e, vars) {
                let va = eval_extent(*a, vars)->0 as int;
                let vb = eval_extent(*b, vars)->0 as int;
                assert(r == va % vb);
                assert(r < vb && r <= va && (va - r) % vb == 0) by (nonlinear_arith)
                    requires
                        vb > 0,
                        va >= 0,
                        r == va % vb,
                ;
            }
        },
        _ => {},
    }
}

} // verus!
