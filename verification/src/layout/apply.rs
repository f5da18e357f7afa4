//! The map of a layout on concrete points.
use vstd::prelude::*;
use crate::space::{
    Space, SpaceV, Valuation, eval_extent, valid_coords, spec_linearize, linearize_fits,
    spec_delinearize, delinearize_ok, opt_extents, scatter, positions_below, prod, extents,
};
use crate::layout::scalar::{bit_linear, bit_linear_ok, bit_linear_apply};
use crate::layout::expr::{Expression, ExprV, expr_source, expr_source_ok};

verus! {

/// The value of an optional vector.
pub open spec fn opt_seq(r: Option<Vec<u64>>) -> Option<Seq<u64>> {
    match r {
        Some(v) => Some(v@),
        None => None,
    }
}

/// The extent of factor `i` of `s`, if it has a value.
pub open spec fn ext_at(s: SpaceV, vars: Map<Seq<char>, u64>, i: int) -> Option<u64> {
    eval_extent(s[i].extent, vars)
}

/// Scanning `0..n` in order reaches no index past `t.len()` before an index
/// whose extent in `t` has no value.
pub open spec fn scan_covered(t: SpaceV, vars: Map<Seq<char>, u64>, n: int) -> bool {
    forall|i: int| 0 <= i < n ==> (#[trigger] prefix_valued(t, vars, i) ==> i < t.len())
}

/// The indices below `i` lie in `t` and their extents have values.
pub open spec fn prefix_valued(t: SpaceV, vars: Map<Seq<char>, u64>, i: int) -> bool {
    forall|j: int| 0 <= j < i ==> j < t.len() && (#[trigger] ext_at(t, vars, j)) is Some
}

/// Some index below `n` has an extent in `t` with no value.
pub open spec fn some_unvalued(t: SpaceV, vars: Map<Seq<char>, u64>, n: int) -> bool {
    exists|j: int| 0 <= j < n && j < t.len() && #[trigger] ext_at(t, vars, j) is None
}

/// The slice map: each coordinate shifted down by its range's start, or `None`
/// when a coordinate lies outside its range.
pub open spec fn slice_map(ranges: Seq<(u64, u64)>, c: Seq<u64>) -> Option<Seq<u64>> {
    if exists|i: int| 0 <= i < c.len() && !(ranges[i].0 <= #[trigger] c[i] < ranges[i].1) {
        None
    } else {
        Some(Seq::new(c.len(), |i: int| (c[i] - ranges[i].0) as u64))
    }
}

/// The map of a layout on the point `input`, `None` where it is undefined.
pub open spec fn expr_apply(e: ExprV, vars: Map<Seq<char>, u64>, input: Seq<u64>) -> Option<Seq<u64>>
    decreases e,
{
    match e {
        ExprV::Identity(_) => Some(input),
        ExprV::Linearize(s) => match spec_linearize(s, vars, input) {
            Some(o) => Some(seq![o]),
            None => None,
        },
        ExprV::Delinearize(s) => if input.len() != 1 {
            None
        } else {
            spec_delinearize(opt_extents(s, vars), input[0])
        },
        ExprV::Permute(s, p) => if !valid_coords(s, vars, input) {
            None
        } else {
            Some(scatter(Seq::new(s.len(), |i: int| 0u64), input, p, p.len() as int))
        },
        ExprV::Composition(l1, l2) => match expr_apply(*l1, vars, input) {
            None => None,
            Some(mid) => expr_apply(*l2, vars, mid),
        },
        ExprV::Product(l1, l2) => {
            let n1 = expr_source(*l1).len() as int;
            match expr_apply(*l1, vars, input.take(n1)) {
                None => None,
                Some(o1) => match expr_apply(*l2, vars, input.skip(n1)) {
                    None => None,
                    Some(o2) => Some(o1 + o2),
                },
            }
        },
        ExprV::Reshape(s, t) => match spec_linearize(s, vars, input) {
            None => None,
            Some(o) => spec_delinearize(opt_extents(t, vars), o),
        },
        ExprV::BinaryShadow(s, m) => if !valid_coords(s, vars, input) {
            None
        } else {
            spec_delinearize(
                opt_extents(s, vars),
                bit_linear(spec_linearize(s, vars, input)->0, m),
            )
        },
        ExprV::Slice(s, ranges) => if !valid_coords(s, vars, input) {
            None
        } else {
            slice_map(ranges, input)
        },
        ExprV::Broadcast(s, t) => if !valid_coords(s, vars, input) {
            None
        } else if some_unvalued(t, vars, input.len() as int) {
            None
        } else {
            Some(
                Seq::new(
                    input.len(),
                    |i: int|
                        if ext_at(s, vars, i)->0 > 1 && ext_at(t, vars, i)->0 == 1 {
                            0u64
                        } else {
                            input[i]
                        },
                ),
            )
        },
        ExprV::Pad(_, _, padding) => Some(
            Seq::new(input.len(), |i: int| (input[i] + padding[i].0) as u64),
        ),
        ExprV::Flip(s, dims) => if !valid_coords(s, vars, input) {
            None
        } else {
            Some(
                Seq::new(
                    input.len(),
                    |i: int|
                        if dims[i] {
                            (ext_at(s, vars, i)->0 - 1 - input[i]) as u64
                        } else {
                            input[i]
                        },
                ),
            )
        },
        ExprV::Split(s, idx, n1) => if !valid_coords(s, vars, input) {
            None
        } else {
            let v = input[idx as int];
            Some(
                input.remove(idx as int).insert(idx as int, (v / n1) as u64).insert(
                    idx + 1,
                    (v % n1) as u64,
                ),
            )
        },
        ExprV::Join(s, idx) => if !valid_coords(s, vars, input) {
            None
        } else {
            let v1 = input[idx as int];
            let v2 = input[idx + 1];
            let n2 = ext_at(s, vars, idx + 1)->0;
            Some(input.remove(idx as int).remove(idx as int).insert(idx as int, (v1 * n2 + v2) as u64))
        },
        ExprV::Squeeze(s, idx) => if !valid_coords(s, vars, input) {
            None
        } else {
            Some(input.remove(idx as int))
        },
        ExprV::Unsqueeze(s, idx, _) => if !valid_coords(s, vars, input) {
            None
        } else {
            Some(input.insert(idx as int, 0))
        },
        ExprV::Repeat(s, t) => if !valid_coords(s, vars, input) {
            None
        } else if some_unvalued(t, vars, input.len() as int) {
            None
        } else {
            Some(
                Seq::new(
                    input.len(),
                    |i: int|
                        if ext_at(t, vars, i)->0 < ext_at(s, vars, i)->0 {
                            (input[i] % ext_at(t, vars, i)->0) as u64
                        } else {
                            input[i]
                        },
                ),
            )
        },
    }
}

/// Applying the layout to `input` does not panic: no index leaves its vector,
/// no arithmetic overflows and no remainder is taken by zero.
pub open spec fn expr_apply_ok(e: ExprV, vars: Map<Seq<char>, u64>, input: Seq<u64>) -> bool
    decreases e,
{
    match e {
        ExprV::Identity(_) => true,
        ExprV::Linearize(s) => linearize_fits(s, vars, input),
        ExprV::Delinearize(s) => input.len() == 1 ==> delinearize_ok(opt_extents(s, vars)),
        ExprV::Permute(s, p) => valid_coords(s, vars, input) ==> p.len() <= s.len() && positions_below(
            p,
            s.len() as int,
        ),
        ExprV::Composition(l1, l2) => {
            &&& expr_apply_ok(*l1, vars, input)
            &&& (expr_apply(*l1, vars, input) matches Some(mid) ==> expr_apply_ok(*l2, vars, mid))
        },
        ExprV::Product(l1, l2) => {
            let n1 = expr_source(*l1).len() as int;
            &&& expr_source_ok(*l1)
            &&& n1 <= input.len()
            &&& expr_apply_ok(*l1, vars, input.take(n1))
            &&& (expr_apply(*l1, vars, input.take(n1)) is Some ==> expr_apply_ok(
                *l2,
                vars,
                input.skip(n1),
            ))
        },
        ExprV::Reshape(s, t) => {
            &&& linearize_fits(s, vars, input)
            &&& (valid_coords(s, vars, input) ==> delinearize_ok(opt_extents(t, vars)))
        },
        ExprV::BinaryShadow(s, m) => valid_coords(s, vars, input) ==> {
            &&& prod(extents(s, vars)) <= u64::MAX
            &&& bit_linear_ok(m)
            &&& delinearize_ok(opt_extents(s, vars))
        },
        ExprV::Slice(s, ranges) => valid_coords(s, vars, input) ==> (ranges.len() >= input.len()
            || exists|j: int|
            0 <= j < ranges.len() && !(ranges[j].0 <= #[trigger] input[j] < ranges[j].1)),
        ExprV::Broadcast(s, t) => valid_coords(s, vars, input) ==> scan_covered(
            t,
            vars,
            input.len() as int,
        ),
        ExprV::Pad(_, _, padding) => {
            &&& padding.len() >= input.len()
            &&& forall|i: int| 0 <= i < input.len() ==> #[trigger] input[i] + padding[i].0 <= u64::MAX
        },
        ExprV::Flip(s, dims) => valid_coords(s, vars, input) ==> dims.len() >= input.len(),
        ExprV::Split(s, idx, n1) => valid_coords(s, vars, input) ==> idx < input.len() && n1 != 0,
        ExprV::Join(s, idx) => valid_coords(s, vars, input) ==> {
            &&& idx + 1 < input.len()
            &&& input[idx as int] * ext_at(s, vars, idx + 1)->0 + input[idx + 1] <= u64::MAX
        },
        ExprV::Squeeze(s, idx) => valid_coords(s, vars, input) ==> idx < input.len(),
        ExprV::Unsqueeze(s, idx, _) => valid_coords(s, vars, input) ==> idx <= input.len(),
        ExprV::Repeat(s, t) => valid_coords(s, vars, input) ==> {
            &&& scan_covered(t, vars, input.len() as int)
            &&& forall|i: int|
                0 <= i < input.len() && i < t.len() && #[trigger] prefix_valued(t, vars, i)
                    ==> ext_at(t, vars, i) != Some(0u64)
        },
    }
}

fn extent_at(s: &Space, valuation: &Valuation, i: usize) -> (r: Option<u64>)
    requires
        i < s@.len(),
    ensures
        r == ext_at(s@, valuation@, i as int),
{
    s.factors[i].extent.try_eval(&valuation.variables)
}

fn zeros(n: usize) -> (r: Vec<u64>)
    ensures
        r@ == Seq::new(n as nat, |i: int| 0u64),
{
    let mut v: Vec<u64> = Vec::new();
    let mut k: usize = 0;
    while k < n
        invariant
            k <= n,
            v@ == Seq::new(k as nat, |i: int| 0u64),
        decreases n - k,
    {
        v.push(0);
        k += 1;
        assert(v@ =~= Seq::new(k as nat, |i: int| 0u64));
    }
    v
}

proof fn lemma_valid_extent(s: SpaceV, vars: Map<Seq<char>, u64>, input: Seq<u64>, i: int)
    requires
        valid_coords(s, vars, input),
        0 <= i < input.len(),
    ensures
        ext_at(s, vars, i) is Some,
        input[i] < ext_at(s, vars, i)->0,
{
    assert(eval_extent(s[i].extent, vars) is Some);
}

fn apply_permute(s: &Space, p: &Vec<usize>, valuation: &Valuation, input: &[u64]) -> (r: Option<Vec<u64>>)
    requires
        expr_apply_ok(ExprV::Permute(s@, p@), valuation@, input@),
    ensures
        opt_seq(r) == expr_apply(ExprV::Permute(s@, p@), valuation@, input@),
{
    if !s.is_valid(valuation, input) {
        return None;
    }
    let n = s.factors.len();
    let mut output = zeros(n);
    let ghost base = Seq::new(n as nat, |i: int| 0u64);
    let mut i: usize = 0;
    while i < p.len()
        invariant
            i <= p.len(),
            p@.len() <= n,
            n == s@.len(),
            n == input.len(),
            positions_below(p@, n as int),
            output@ == scatter(base, input@, p@, i as int),
            output.len() == n,
            base.len() == n,
        decreases p.len() - i,
    {
        let pos = p[i];
        output.set(pos, input[i]);
        i += 1;
        proof {
            crate::space::lemma_scatter_len(base, input@, p@, i as int);
        }
    }
    Some(output)
}

fn apply_slice(s: &Space, ranges: &Vec<(u64, u64)>, valuation: &Valuation, input: &[u64]) -> (r: Option<Vec<u64>>)
    requires
        expr_apply_ok(ExprV::Slice(s@, ranges@), valuation@, input@),
    ensures
        opt_seq(r) == expr_apply(ExprV::Slice(s@, ranges@), valuation@, input@),
{
    if !s.is_valid(valuation, input) {
        return None;
    }
    let mut output: Vec<u64> = Vec::new();
    let mut i: usize = 0;
    while i < input.len()
        invariant
            i <= input.len(),
            ranges@.len() >= input@.len() || exists|j: int|
                0 <= j < ranges@.len() && !(ranges@[j].0 <= #[trigger] input@[j] < ranges@[j].1),
            forall|j: int| 0 <= j < i ==> ranges@[j].0 <= #[trigger] input@[j] < ranges@[j].1,
            output@ == Seq::new(i as nat, |j: int| (input@[j] - ranges@[j].0) as u64),
        decreases input.len() - i,
    {
        if i >= ranges.len() {
            proof {
                let j = choose|j: int|
                    0 <= j < ranges@.len() && !(ranges@[j].0 <= #[trigger] input@[j] < ranges@[j].1);
                assert(ranges@[j].0 <= input@[j] < ranges@[j].1);
            }
        }
        let (start, end) = ranges[i];
        let c = input[i];
        if c < start || c >= end {
            proof {
                assert(!(ranges@[i as int].0 <= input@[i as int] < ranges@[i as int].1));
            }
            return None;
        }
        output.push(c - start);
        i += 1;
        assert(output@ =~= Seq::new(i as nat, |j: int| (input@[j] - ranges@[j].0) as u64));
    }
    Some(output)
}

fn apply_broadcast(s: &Space, t: &Space, valuation: &Valuation, input: &[u64]) -> (r: Option<Vec<u64>>)
    requires
        expr_apply_ok(ExprV::Broadcast(s@, t@), valuation@, input@),
    ensures
        opt_seq(r) == expr_apply(ExprV::Broadcast(s@, t@), valuation@, input@),
{
    if !s.is_valid(valuation, input) {
        return None;
    }
    let ghost vars = valuation@;
    let mut output: Vec<u64> = Vec::new();
    let mut i: usize = 0;
    while i < input.len()
        invariant
            i <= input.len(),
            vars == valuation@,
            valid_coords(s@, vars, input@),
            scan_covered(t@, vars, input@.len() as int),
            prefix_valued(t@, vars, i as int),
            output@ == Seq::new(
                i as nat,
                |j: int|
                    if ext_at(s@, vars, j)->0 > 1 && ext_at(t@, vars, j)->0 == 1 {
                        0u64
                    } else {
                        input@[j]
                    },
            ),
        decreases input.len() - i,
    {
        let te = match extent_at(t, valuation, i) {
            Some(v) => v,
            None => {
                return None;
            },
        };
        let se = match extent_at(s, valuation, i) {
            Some(v) => v,
            None => {
                proof {
                    lemma_valid_extent(s@, vars, input@, i as int);
                }
                return None;
            },
        };
        if se > 1 && te == 1 {
            output.push(0);
        } else {
            output.push(input[i]);
        }
        i += 1;
        assert(output@ =~= Seq::new(
            i as nat,
            |j: int|
                if ext_at(s@, vars, j)->0 > 1 && ext_at(t@, vars, j)->0 == 1 {
                    0u64
                } else {
                    input@[j]
                },
        ));
    }
    proof {
        assert(!some_unvalued(t@, vars, input@.len() as int));
    }
    Some(output)
}

fn apply_pad(padding: &Vec<(u64, u64)>, input: &[u64]) -> (r: Vec<u64>)
    requires
        padding@.len() >= input@.len(),
        forall|i: int| 0 <= i < input@.len() ==> #[trigger] input@[i] + padding@[i].0 <= u64::MAX,
    ensures
        r@ == Seq::new(input@.len(), |i: int| (input@[i] + padding@[i].0) as u64),
{
    let mut output: Vec<u64> = Vec::new();
    let mut i: usize = 0;
    while i < input.len()
        invariant
            i <= input.len(),
            padding@.len() >= input@.len(),
            forall|j: int| 0 <= j < input@.len() ==> #[trigger] input@[j] + padding@[j].0 <= u64::MAX,
            output@ == Seq::new(i as nat, |j: int| (input@[j] + padding@[j].0) as u64),
        decreases input.len() - i,
    {
        let (left, _) = padding[i];
        assert(input@[i as int] + padding@[i as int].0 <= u64::MAX);
        output.push(input[i] + left);
        i += 1;
        assert(output@ =~= Seq::new(i as nat, |j: int| (input@[j] + padding@[j].0) as u64));
    }
    output
}

fn apply_flip(s: &Space, dims: &Vec<bool>, valuation: &Valuation, input: &[u64]) -> (r: Option<Vec<u64>>)
    requires
        expr_apply_ok(ExprV::Flip(s@, dims@), valuation@, input@),
    ensures
        opt_seq(r) == expr_apply(ExprV::Flip(s@, dims@), valuation@, input@),
{
    if !s.is_valid(valuation, input) {
        return None;
    }
    let ghost vars = valuation@;
    let mut output: Vec<u64> = Vec::new();
    let mut i: usize = 0;
    while i < input.len()
        invariant
            i <= input.len(),
            vars == valuation@,
            valid_coords(s@, vars, input@),
            dims@.len() >= input@.len(),
            output@ == Seq::new(
                i as nat,
                |j: int|
                    if dims@[j] {
                        (ext_at(s@, vars, j)->0 - 1 - input@[j]) as u64
                    } else {
                        input@[j]
                    },
            ),
        decreases input.len() - i,
    {
        proof {
            lemma_valid_extent(s@, vars, input@, i as int);
        }
        if dims[i] {
            let n = match extent_at(s, valuation, i) {
                Some(v) => v,
                None => {
                    return None;
                },
            };
            output.push(n - 1 - input[i]);
        } else {
            output.push(input[i]);
        }
        i += 1;
        assert(output@ =~= Seq::new(
            i as nat,
            |j: int|
                if dims@[j] {
                    (ext_at(s@, vars, j)->0 - 1 - input@[j]) as u64
                } else {
                    input@[j]
                },
        ));
    }
    Some(output)
}

fn apply_repeat(s: &Space, t: &Space, valuation: &Valuation, input: &[u64]) -> (r: Option<Vec<u64>>)
    requires
        expr_apply_ok(ExprV::Repeat(s@, t@), valuation@, input@),
    ensures
        opt_seq(r) == expr_apply(ExprV::Repeat(s@, t@), valuation@, input@),
{
    if !s.is_valid(valuation, input) {
        return None;
    }
    let ghost vars = valuation@;
    let mut output: Vec<u64> = Vec::new();
    let mut i: usize = 0;
    while i < input.len()
        invariant
            i <= input.len(),
            vars == valuation@,
            valid_coords(s@, vars, input@),
            scan_covered(t@, vars, input@.len() as int),
            forall|k: int|
                0 <= k < input@.len() && k < t@.len() && #[trigger] prefix_valued(t@, vars, k)
                    ==> ext_at(t@, vars, k) != Some(0u64),
            prefix_valued(t@, vars, i as int),
            output@ == Seq::new(
                i as nat,
                |j: int|
                    if ext_at(t@, vars, j)->0 < ext_at(s@, vars, j)->0 {
                        (input@[j] % ext_at(t@, vars, j)->0) as u64
                    } else {
                        input@[j]
                    },
            ),
        decreases input.len() - i,
    {
        proof {
            lemma_valid_extent(s@, vars, input@, i as int);
        }
        let se = match extent_at(s, valuation, i) {
            Some(v) => v,
            None => {
                return None;
            },
        };
        let te = match extent_at(t, valuation, i) {
            Some(v) => v,
            None => {
                return None;
            },
        };
        if te < se {
            output.push(input[i] % te);
        } else {
            output.push(input[i]);
        }
        i += 1;
        assert(output@ =~= Seq::new(
            i as nat,
            |j: int|
                if ext_at(t@, vars, j)->0 < ext_at(s@, vars, j)->0 {
                    (input@[j] % ext_at(t@, vars, j)->0) as u64
                } else {
                    input@[j]
                },
        ));
    }
    proof {
        assert(!some_unvalued(t@, vars, input@.len() as int));
    }
    Some(output)
}

fn vec_of(input: &[u64]) -> (r: Vec<u64>)
    ensures
        r@ == input@,
{
    let mut v: Vec<u64> = Vec::new();
    let mut i: usize = 0;
    while i < input.len()
        invariant
            i <= input.len(),
            v@ == input@.take(i as int),
        decreases input.len() - i,
    {
        v.push(input[i]);
        i += 1;
        assert(v@ =~= input@.take(i as int));
    }
    assert(input@.take(input@.len() as int) =~= input@);
    v
}

impl Expression {
    /// The map of the layout on `input` (see [`expr_apply`]).
    pub fn map_point(&self, valuation: &Valuation, input: &[u64]) -> (r: Option<Vec<u64>>)
        requires
            expr_apply_ok(self@, valuation@, input@),
        ensures
            opt_seq(r) == expr_apply(self@, valuation@, input@),
        decreases self,
    {
        let ghost vars = valuation@;
        match self {
            Expression::Identity(_) => Some(vec_of(input)),
            Expression::Linearize(s) => {
                match s.linearize(input, valuation) {
                    Some(o) => {
                        let mut v: Vec<u64> = Vec::new();
                        v.push(o);
                        assert(v@ =~= seq![o]);
                        Some(v)
                    },
                    None => None,
                }
            },
            Expression::Delinearize(s) => {
                if input.len() != 1 {
                    return None;
                }
                s.delinearize(input[0], valuation)
            },
            Expression::Permute(s, p) => apply_permute(s, p, valuation, input),
            Expression::Composition(l1, l2) => {
                let mid = match l1.map_point(valuation, input) {
                    Some(m) => m,
                    None => {
                        return None;
                    },
                };
                l2.map_point(valuation, mid.as_slice())
            },
            Expression::Product(l1, l2) => {
                let n1 = l1.source_space().factors.len();
                let (i1, i2) = input.split_at(n1);
                assert(i1@ == input@.take(n1 as int));
                assert(i2@ == input@.skip(n1 as int));
                let mut o1 = match l1.map_point(valuation, i1) {
                    Some(o) => o,
                    None => {
                        return None;
                    },
                };
                let mut o2 = match l2.map_point(valuation, i2) {
                    Some(o) => o,
                    None => {
                        return None;
                    },
                };
                o1.append(&mut o2);
                Some(o1)
            },
            Expression::Reshape(s, t) => {
                let offset = match s.linearize(input, valuation) {
                    Some(o) => o,
                    None => {
                        return None;
                    },
                };
                t.delinearize(offset, valuation)
            },
            Expression::BinaryShadow(s, matrix) => {
                if !s.is_valid(valuation, input) {
                    return None;
                }
                let offset = match s.linearize(input, valuation) {
                    Some(o) => o,
                    None => {
                        return None;
                    },
                };
                let new_offset = bit_linear_apply(offset, matrix);
                s.delinearize(new_offset, valuation)
            },
            Expression::Slice(s, ranges) => apply_slice(s, ranges, valuation, input),
            Expression::Broadcast(s, t) => apply_broadcast(s, t, valuation, input),
            Expression::Pad(_, _, padding) => Some(apply_pad(padding, input)),
            Expression::Flip(s, dims) => apply_flip(s, dims, valuation, input),
            Expression::Split(s, idx, n1) => {
                if !s.is_valid(valuation, input) {
                    return None;
                }
                let mut output = vec_of(input);
                let val = output.remove(*idx);
                output.insert(*idx, val / *n1);
                output.insert(*idx + 1, val % *n1);
                Some(output)
            },
            Expression::Join(s, idx) => {
                if !s.is_valid(valuation, input) {
                    return None;
                }
                let mut output = vec_of(input);
                let v1 = output.remove(*idx);
                let v2 = output.remove(*idx);
                proof {
                    lemma_valid_extent(s@, vars, input@, *idx as int + 1);
                }
                let n2 = match extent_at(s, valuation, *idx + 1) {
                    Some(v) => v,
                    None => {
                        return None;
                    },
                };
                output.insert(*idx, v1 * n2 + v2);
                Some(output)
            },
            Expression::Squeeze(s, idx) => {
                if !s.is_valid(valuation, input) {
                    return None;
                }
                let mut output = vec_of(input);
                let _ = output.remove(*idx);
                Some(output)
            },
            Expression::Unsqueeze(s, idx, _) => {
                if !s.is_valid(valuation, input) {
                    return None;
                }
                let mut output = vec_of(input);
                output.insert(*idx, 0);
                Some(output)
            },
            Expression::Repeat(s, t) => apply_repeat(s, t, valuation, input),
        }
    }
}

} // verus!
