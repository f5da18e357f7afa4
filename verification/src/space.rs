//! Factor spaces, symbolic extents and valuations.
use vstd::prelude::*;
use vstd::arithmetic::div_mod::{lemma_div_denominator, lemma_fundamental_div_mod_converse};


verus! {

broadcast use vstd::std_specs::vec::axiom_vec_index_decreases;

// ---------------------------------------------------------------------------
// Kinds
// ---------------------------------------------------------------------------

/// A role label for a factor space.
#[derive(Debug, PartialEq, Eq)]
pub enum Kind {
    Logical,
    Storage,
    Execution,
    Instruction,
    Fragment,
    Tile,
    Offset,
    Other(String),
}

/// The mathematical value of a [`Kind`]: labels are compared by their characters.
pub enum KindV {
    Logical,
    Storage,
    Execution,
    Instruction,
    Fragment,
    Tile,
    Offset,
    Other(Seq<char>),
}

impl View for Kind {
    type V = KindV;

    open spec fn view(&self) -> KindV {
        match self {
            Kind::Logical => KindV::Logical,
            Kind::Storage => KindV::Storage,
            Kind::Execution => KindV::Execution,
            Kind::Instruction => KindV::Instruction,
            Kind::Fragment => KindV::Fragment,
            Kind::Tile => KindV::Tile,
            Kind::Offset => KindV::Offset,
            Kind::Other(s) => KindV::Other(s@),
        }
    }
}

impl Kind {
    /// A copy with the same value.
    pub fn duplicate(&self) -> (r: Kind)
        ensures
            r@ == self@,
    {
        match self {
            Kind::Logical => Kind::Logical,
            Kind::Storage => Kind::Storage,
            Kind::Execution => Kind::Execution,
            Kind::Instruction => Kind::Instruction,
            Kind::Fragment => Kind::Fragment,
            Kind::Tile => Kind::Tile,
            Kind::Offset => Kind::Offset,
            Kind::Other(s) => Kind::Other(s.clone()),
        }
    }

    /// Whether two kinds are the same label.
    pub fn same_as(&self, other: &Kind) -> (r: bool)
        ensures
            r == (self@ == other@),
    {
        match (self, other) {
            (Kind::Logical, Kind::Logical) => true,
            (Kind::Storage, Kind::Storage) => true,
            (Kind::Execution, Kind::Execution) => true,
            (Kind::Instruction, Kind::Instruction) => true,
            (Kind::Fragment, Kind::Fragment) => true,
            (Kind::Tile, Kind::Tile) => true,
            (Kind::Offset, Kind::Offset) => true,
            (Kind::Other(a), Kind::Other(b)) => *a == *b,
            _ => false,
        }
    }

    /// The kind `Other("Offset")` that labels a linear offset space.
    pub fn offset_label() -> (r: Kind)
        ensures
            r@ == offset_kind(),
    {
        Kind::Other("Offset".to_string())
    }
}

impl Clone for Kind {
    fn clone(&self) -> (r: Kind)
        ensures
            r@ == self@,
    {
        self.duplicate()
    }
}

/// The label of the single factor of an offset space.
pub open spec fn offset_kind() -> KindV {
    KindV::Other("Offset"@)
}

// ---------------------------------------------------------------------------
// Extents
// ---------------------------------------------------------------------------

/// A symbolic natural-number value.
#[derive(Debug, PartialEq, Eq)]
pub enum Extent {
    Constant(u64),
    Variable(String),
    Product(Vec<Extent>),
    Quotient(Box<Extent>, Box<Extent>),
    Remainder(Box<Extent>, Box<Extent>),
}

/// The mathematical value of an [`Extent`] expression.
pub enum ExtentV {
    Constant(u64),
    Variable(Seq<char>),
    Product(Seq<ExtentV>),
    Quotient(Box<ExtentV>, Box<ExtentV>),
    Remainder(Box<ExtentV>, Box<ExtentV>),
}

pub open spec fn extent_view(e: Extent) -> ExtentV
    decreases e,
{
    match e {
        Extent::Constant(c) => ExtentV::Constant(c),
        Extent::Variable(s) => ExtentV::Variable(s@),
        Extent::Product(parts) => ExtentV::Product(
            Seq::new(
                parts.len() as nat,
                |i: int|
                    if 0 <= i < parts.len() {
                        extent_view(parts[i])
                    } else {
                        ExtentV::Constant(0)
                    },
            ),
        ),
        Extent::Quotient(a, b) => ExtentV::Quotient(
            Box::new(extent_view(*a)),
            Box::new(extent_view(*b)),
        ),
        Extent::Remainder(a, b) => ExtentV::Remainder(
            Box::new(extent_view(*a)),
            Box::new(extent_view(*b)),
        ),
    }
}

impl View for Extent {
    type V = ExtentV;

    open spec fn view(&self) -> ExtentV {
        extent_view(*self)
    }
}

/// The views of a sequence of extents.
pub open spec fn extents_view(parts: Seq<Extent>) -> Seq<ExtentV> {
    Seq::new(parts.len(), |i: int| parts[i]@)
}

/// The value of an extent under a valuation of its variables; `None` when a
/// variable is unbound, a product overflows 64 bits or a divisor is zero.
pub open spec fn eval_extent(e: ExtentV, vars: Map<Seq<char>, u64>) -> Option<u64>
    decreases e, 0int,
{
    match e {
        ExtentV::Constant(v) => Some(v),
        ExtentV::Variable(name) => if vars.contains_key(name) {
            Some(vars[name])
        } else {
            None
        },
        ExtentV::Product(parts) => eval_product(parts, vars, parts.len() as int),
        ExtentV::Quotient(a, b) => match (eval_extent(*a, vars), eval_extent(*b, vars)) {
            (Some(va), Some(vb)) => if vb == 0 {
                None
            } else {
                Some((va / vb) as u64)
            },
            _ => None,
        },
        ExtentV::Remainder(a, b) => match (eval_extent(*a, vars), eval_extent(*b, vars)) {
            (Some(va), Some(vb)) => if vb == 0 {
                None
            } else {
                Some((va % vb) as u64)
            },
            _ => None,
        },
    }
}

/// The product of the first `k` parts, multiplied from the left; `None` as soon
/// as a part has no value or a partial product leaves 64 bits.
pub open spec fn eval_product(parts: Seq<ExtentV>, vars: Map<Seq<char>, u64>, k: int) -> Option<u64>
    decreases parts, k,
{
    if k <= 0 || k > parts.len() {
        Some(1)
    } else {
        match eval_product(parts, vars, k - 1) {
            None => None,
            Some(r) => match eval_extent(parts[k - 1], vars) {
                None => None,
                Some(v) => if r * v <= u64::MAX {
                    Some((r * v) as u64)
                } else {
                    None
                },
            },
        }
    }
}

/// The product of the constant parts among the first `k`, as an integer.
pub open spec fn const_product(parts: Seq<ExtentV>, k: int) -> int
    decreases k,
{
    if k <= 0 || k > parts.len() {
        1
    } else {
        match parts[k - 1] {
            ExtentV::Constant(v) => const_product(parts, k - 1) * v,
            _ => const_product(parts, k - 1),
        }
    }
}

/// No running product of the constant parts leaves 64 bits.
pub open spec fn constants_fit(parts: Seq<ExtentV>) -> bool {
    forall|k: int| 0 <= k <= parts.len() ==> #[trigger] const_product(parts, k) <= u64::MAX
}

/// The parts that are not constants, in their order.
pub open spec fn non_constants(parts: Seq<ExtentV>) -> Seq<ExtentV> {
    parts.filter(|p: ExtentV| !(p is Constant))
}

/// Extent simplification: products are flattened one level, their constant
/// parts folded into one leading constant (left out when it is 1 and other
/// parts remain), and a product of a single part is that part.
pub open spec fn simplify_extent(e: ExtentV) -> ExtentV
    decreases e, 1int,
{
    match e {
        ExtentV::Product(parts) => if parts.len() == 0 {
            ExtentV::Constant(1)
        } else {
            fold_constants(simplified_parts(parts))
        },
        _ => e,
    }
}

/// Each part simplified.
pub open spec fn simplified_parts(parts: Seq<ExtentV>) -> Seq<ExtentV>
    decreases parts, 0int,
{
    Seq::new(
        parts.len(),
        |i: int|
            if 0 <= i < parts.len() {
                simplify_extent(parts[i])
            } else {
                ExtentV::Constant(0)
            },
    )
}

/// The product of the already simplified parts `sp`, with the constants folded.
pub open spec fn fold_constants(sp: Seq<ExtentV>) -> ExtentV {
    let c = const_product(sp, sp.len() as int);
    let rest = non_constants(sp);
    let with_c = if c != 1 || rest.len() == 0 {
        seq![ExtentV::Constant(c as u64)] + rest
    } else {
        rest
    };
    if with_c.len() == 1 {
        with_c[0]
    } else {
        ExtentV::Product(with_c)
    }
}

/// Simplification does not overflow when folding constants.
pub open spec fn simplify_extent_ok(e: ExtentV) -> bool
    decreases e,
{
    match e {
        ExtentV::Product(parts) => {
            &&& forall|i: int| 0 <= i < parts.len() ==> simplify_extent_ok(#[trigger] parts[i])
            &&& constants_fit(simplified_parts(parts))
        },
        _ => true,
    }
}

impl Extent {
    /// A copy with the same value.
    pub fn duplicate(&self) -> (r: Extent)
        ensures
            r@ == self@,
        decreases self,
    {
        match self {
            Extent::Constant(c) => Extent::Constant(*c),
            Extent::Variable(s) => Extent::Variable(s.clone()),
            Extent::Product(parts) => {
                let mut out: Vec<Extent> = Vec::new();
                let mut i: usize = 0;
                while i < parts.len()
                    invariant
                        i <= parts.len(),
                        out.len() == i,
                        forall|j: int| 0 <= j < i ==> (#[trigger] out[j])@ == parts[j]@,
                        *self == Extent::Product(*parts),
                    decreases parts.len() - i,
                {
                    proof {
                        assert(decreases_to!(*self => (*self)->Product_0));
                        assert(decreases_to!(*parts => parts[i as int]));
                    }
                    let p = parts[i].duplicate();
                    out.push(p);
                    i += 1;
                }
                let r = Extent::Product(out);
                assert(r@ == self@) by {
                    assert(extents_view(out@) =~= extents_view(parts@));
                    if let ExtentV::Product(a) = r@ {
                        if let ExtentV::Product(b) = self@ {
                            assert(a =~= b);
                        }
                    }
                }
                r
            },
            Extent::Quotient(a, b) => Extent::Quotient(
                Box::new((**a).duplicate()),
                Box::new((**b).duplicate()),
            ),
            Extent::Remainder(a, b) => Extent::Remainder(
                Box::new((**a).duplicate()),
                Box::new((**b).duplicate()),
            ),
        }
    }

    /// Whether two extents are the same expression.
    pub fn same_as(&self, other: &Extent) -> (r: bool)
        ensures
            r == (self@ == other@),
        decreases self,
    {
        match (self, other) {
            (Extent::Constant(a), Extent::Constant(b)) => *a == *b,
            (Extent::Variable(a), Extent::Variable(b)) => *a == *b,
            (Extent::Product(a), Extent::Product(b)) => {
                if a.len() != b.len() {
                    proof {
                        let va = self@;
                        let vb = other@;
                        if va == vb {
                            assert(va->Product_0.len() == vb->Product_0.len());
                        }
                    }
                    return false;
                }
                let mut i: usize = 0;
                while i < a.len()
                    invariant
                        i <= a.len(),
                        a.len() == b.len(),
                        forall|j: int| 0 <= j < i ==> (#[trigger] a[j])@ == b[j]@,
                        *self == Extent::Product(*a),
                        *other == Extent::Product(*b),
                    decreases a.len() - i,
                {
                    proof {
                        assert(decreases_to!(*self => (*self)->Product_0));
                        assert(decreases_to!(*a => a[i as int]));
                    }
                    if !a[i].same_as(&b[i]) {
                        proof {
                            let va = self@;
                            let vb = other@;
                            if va == vb {
                                assert(va->Product_0[i as int] == vb->Product_0[i as int]);
                            }
                        }
                        return false;
                    }
                    i += 1;
                }
                proof {
                    let va = self@;
                    let vb = other@;
                    assert(va->Product_0 =~= vb->Product_0);
                }
                true
            },
            (Extent::Quotient(a1, b1), Extent::Quotient(a2, b2)) => {
                (**a1).same_as(&**a2) && (**b1).same_as(&**b2)
            },
            (Extent::Remainder(a1, b1), Extent::Remainder(a2, b2)) => {
                (**a1).same_as(&**a2) && (**b1).same_as(&**b2)
            },
            _ => false,
        }
    }

    /// Evaluates the extent under the given variables.
    pub fn try_eval(&self, variables: &Variables) -> (r: Option<u64>)
        ensures
            r == eval_extent(self@, variables@),
        decreases self,
    {
        match self {
            Extent::Constant(v) => Some(*v),
            Extent::Variable(name) => variables.get(name),
            Extent::Product(parts) => {
                let ghost pv = extents_view(parts@);
                assert(self@ == ExtentV::Product(pv)) by {
                    assert(self@->Product_0 =~= pv);
                }
                let mut res: u64 = 1;
                let mut i: usize = 0;
                while i < parts.len()
                    invariant
                        i <= parts.len(),
                        pv == extents_view(parts@),
                        eval_product(pv, variables@, i as int) == Some(res),
                        self@ == ExtentV::Product(pv),
                        *self == Extent::Product(*parts),
                    decreases parts.len() - i,
                {
                    proof {
                        assert(decreases_to!(*self => (*self)->Product_0));
                        assert(decreases_to!(*parts => parts[i as int]));
                    }
                    let v = match parts[i].try_eval(variables) {
                        Some(v) => v,
                        None => {
                            proof {
                                lemma_eval_product_none_stays(pv, variables@, i as int + 1);
                            }
                            return None;
                        },
                    };
                    match res.checked_mul(v) {
                        Some(m) => {
                            res = m;
                        },
                        None => {
                            proof {
                                lemma_eval_product_none_stays(pv, variables@, i as int + 1);
                            }
                            return None;
                        },
                    }
                    i += 1;
                }
                Some(res)
            },
            Extent::Quotient(a, b) => {
                let va = match a.try_eval(variables) {
                    Some(v) => v,
                    None => return None,
                };
                let vb = match b.try_eval(variables) {
                    Some(v) => v,
                    None => return None,
                };
                if vb == 0 {
                    None
                } else {
                    Some(va / vb)
                }
            },
            Extent::Remainder(a, b) => {
                let va = match a.try_eval(variables) {
                    Some(v) => v,
                    None => return None,
                };
                let vb = match b.try_eval(variables) {
                    Some(v) => v,
                    None => return None,
                };
                if vb == 0 {
                    None
                } else {
                    Some(va % vb)
                }
            },
        }
    }

    fn simplified(&self) -> (r: Extent)
        requires
            simplify_extent_ok(self@),
        ensures
            r@ == simplify_extent(self@),
        decreases self,
    {
        match self {
            Extent::Product(parts) => {
                if parts.len() == 0 {
                    return Extent::Constant(1);
                }
                let ghost pv = extents_view(parts@);
                assert(self@ == ExtentV::Product(pv)) by {
                    assert(self@->Product_0 =~= pv);
                }
                let ghost sp = simplified_parts(pv);
                let mut const_val: u64 = 1;
                let mut new_parts: Vec<Extent> = Vec::new();
                let mut i: usize = 0;
                while i < parts.len()
                    invariant
                        i <= parts.len(),
                        pv == extents_view(parts@),
                        sp.len() == pv.len(),
                        forall|j: int|
                            0 <= j < pv.len() ==> #[trigger] sp[j] == simplify_extent(pv[j]),
                        forall|j: int| 0 <= j < pv.len() ==> simplify_extent_ok(#[trigger] pv[j]),
                        constants_fit(sp),
                        sp == simplified_parts(pv),
                        self@ == ExtentV::Product(pv),
                        const_val == const_product(sp, i as int),
                        extents_view(new_parts@) == non_constants(sp.take(i as int)),
                        *self == Extent::Product(*parts),
                    decreases parts.len() - i,
                {
                    proof {
                        assert(decreases_to!(*self => (*self)->Product_0));
                        assert(decreases_to!(*parts => parts[i as int]));
                    }
                    let p = parts[i].simplified();
                    proof {
                        assert(sp.take(i as int + 1).drop_last() =~= sp.take(i as int));
                        lemma_filter_push(sp.take(i as int), sp[i as int]);
                        assert(sp.take(i as int + 1) =~= sp.take(i as int).push(sp[i as int]));
                        assert(const_product(sp, i as int + 1) <= u64::MAX);
                    }
                    match p {
                        Extent::Constant(v) => {
                            const_val = const_val * v;
                        },
                        _ => {
                            let ghost old_np = new_parts@;
                            new_parts.push(p);
                            proof {
                                assert(extents_view(new_parts@) =~= extents_view(old_np).push(
                                    sp[i as int],
                                ));
                            }
                        },
                    }
                    i += 1;
                }
                proof {
                    assert(sp.take(sp.len() as int) =~= sp);
                }
                if const_val != 1 || new_parts.len() == 0 {
                    let ghost old_np = new_parts@;
                    new_parts.insert(0, Extent::Constant(const_val));
                    proof {
                        assert(extents_view(new_parts@) =~= seq![ExtentV::Constant(const_val)]
                            + extents_view(old_np));
                    }
                }
                if new_parts.len() == 1 {
                    let r = new_parts.pop().unwrap();
                    r
                } else {
                    let r = Extent::Product(new_parts);
                    proof {
                        assert(r@->Product_0 =~= extents_view(new_parts@));
                    }
                    r
                }
            },
            _ => self.duplicate(),
        }
    }

    /// Folds constant factors of a product (see [`simplify_extent`]).
    pub fn simplify(self) -> (r: Extent)
        requires
            simplify_extent_ok(self@),
        ensures
            r@ == simplify_extent(self@),
    {
        self.simplified()
    }
}

impl Clone for Extent {
    fn clone(&self) -> (r: Extent)
        ensures
            r@ == self@,
    {
        self.duplicate()
    }
}

proof fn lemma_eval_product_none_stays(parts: Seq<ExtentV>, vars: Map<Seq<char>, u64>, k: int)
    requires
        0 < k <= parts.len(),
        eval_product(parts, vars, k) is None,
    ensures
        eval_product(parts, vars, parts.len() as int) is None,
    decreases parts.len() - k,
{
    if k < parts.len() {
        lemma_eval_product_none_stays(parts, vars, k + 1);
    }
}

pub proof fn lemma_filter_push(s: Seq<ExtentV>, x: ExtentV)
    ensures
        non_constants(s.push(x)) == if x is Constant {
            non_constants(s)
        } else {
            non_constants(s).push(x)
        },
{
    reveal(Seq::filter);
    assert(s.push(x).drop_last() =~= s);
}

// ---------------------------------------------------------------------------
// Variables and valuations
// ---------------------------------------------------------------------------

/// A finite assignment of values to variable names.
#[derive(Debug)]
pub struct Variables {
    entries: Vec<(String, u64)>,
}

/// The value bound to `name` by the first entry that names it.
pub open spec fn lookup(entries: Seq<(String, u64)>, name: Seq<char>) -> Option<u64>
    decreases entries.len(),
{
    if entries.len() == 0 {
        None
    } else if entries[0].0@ == name {
        Some(entries[0].1)
    } else {
        lookup(entries.drop_first(), name)
    }
}

impl View for Variables {
    type V = Map<Seq<char>, u64>;

    closed spec fn view(&self) -> Map<Seq<char>, u64> {
        Map::new(
            |k: Seq<char>| lookup(self.entries@, k) is Some,
            |k: Seq<char>| lookup(self.entries@, k)->0,
        )
    }
}

proof fn lemma_lookup_update(entries: Seq<(String, u64)>, i: int, v: u64, name: Seq<char>)
    requires
        0 <= i < entries.len(),
        forall|j: int| 0 <= j < i ==> (#[trigger] entries[j]).0@ != entries[i].0@,
    ensures
        lookup(entries.update(i, (entries[i].0, v)), name) == if name == entries[i].0@ {
            Some(v)
        } else {
            lookup(entries, name)
        },
    decreases i,
{
    if i == 0 {
        assert(entries.update(i, (entries[i].0, v)).drop_first() =~= entries.drop_first());
    } else {
        assert(entries[0].0@ != entries[i].0@);
        lemma_lookup_update(entries.drop_first(), i - 1, v, name);
        assert(entries.update(i, (entries[i].0, v)).drop_first() =~= entries.drop_first().update(
            i - 1,
            (entries[i].0, v),
        ));
    }
}

proof fn lemma_lookup_push(entries: Seq<(String, u64)>, key: String, v: u64, name: Seq<char>)
    requires
        lookup(entries, key@) is None,
    ensures
        lookup(entries.push((key, v)), name) == if name == key@ {
            Some(v)
        } else {
            lookup(entries, name)
        },
    decreases entries.len(),
{
    if entries.len() == 0 {
        assert(entries.push((key, v)).drop_first() =~= entries);
    } else {
        lemma_lookup_push(entries.drop_first(), key, v, name);
        assert(entries.push((key, v)).drop_first() =~= entries.drop_first().push((key, v)));
    }
}

proof fn lemma_lookup_absent(entries: Seq<(String, u64)>, name: Seq<char>)
    requires
        forall|j: int| 0 <= j < entries.len() ==> (#[trigger] entries[j]).0@ != name,
    ensures
        lookup(entries, name) is None,
    decreases entries.len(),
{
    if entries.len() > 0 {
        lemma_lookup_absent(entries.drop_first(), name);
    }
}

proof fn lemma_lookup_first(entries: Seq<(String, u64)>, i: int, name: Seq<char>)
    requires
        0 <= i < entries.len(),
        entries[i].0@ == name,
        forall|j: int| 0 <= j < i ==> (#[trigger] entries[j]).0@ != name,
    ensures
        lookup(entries, name) == Some(entries[i].1),
    decreases i,
{
    if i > 0 {
        lemma_lookup_first(entries.drop_first(), i - 1, name);
    }
}

impl Variables {
    /// No variable bound.
    pub fn new() -> (r: Variables)
        ensures
            r@ == Map::<Seq<char>, u64>::empty(),
    {
        let r = Variables { entries: Vec::new() };
        assert(r@ =~= Map::<Seq<char>, u64>::empty());
        r
    }

    /// Binds `name` to `value`, returning the value it was bound to before.
    pub fn insert(&mut self, name: String, value: u64) -> (r: Option<u64>)
        ensures
            final(self)@ == old(self)@.insert(name@, value),
            r == (if old(self)@.contains_key(name@) {
                Some(old(self)@[name@])
            } else {
                None
            }),
    {
        let ghost old_entries = self.entries@;
        let mut i: usize = 0;
        while i < self.entries.len()
            invariant
                i <= self.entries.len(),
                self.entries@ == old_entries,
                old_entries == old(self).entries@,
                forall|j: int| 0 <= j < i ==> (#[trigger] self.entries@[j]).0@ != name@,
            decreases self.entries.len() - i,
        {
            if self.entries[i].0 == name {
                let old_v = self.entries[i].1;
                let k = self.entries[i].0.clone();
                proof {
                    lemma_lookup_first(old_entries, i as int, name@);
                }
                self.entries.set(i, (k, value));
                proof {
                    assert forall|n: Seq<char>| #[trigger] lookup(self.entries@, n) == (if n
                        == name@ {
                        Some(value)
                    } else {
                        lookup(old_entries, n)
                    }) by {
                        lemma_lookup_update(old_entries, i as int, value, n);
                    }
                    assert(self@ =~= old(self)@.insert(name@, value));
                }
                return Some(old_v);
            }
            i += 1;
        }
        proof {
            lemma_lookup_absent(old_entries, name@);
        }
        let ghost key = name;
        self.entries.push((name, value));
        proof {
            assert forall|n: Seq<char>| #[trigger] lookup(self.entries@, n) == (if n == key@ {
                Some(value)
            } else {
                lookup(old_entries, n)
            }) by {
                lemma_lookup_push(old_entries, key, value, n);
            }
            assert(self@ =~= old(self)@.insert(name@, value));
        }
        None
    }

    /// The value bound to `name`, if any.
    pub fn get(&self, name: &String) -> (r: Option<u64>)
        ensures
            r == (if self@.contains_key(name@) {
                Some(self@[name@])
            } else {
                None
            }),
    {
        let mut i: usize = 0;
        while i < self.entries.len()
            invariant
                i <= self.entries.len(),
                forall|j: int| 0 <= j < i ==> (#[trigger] self.entries@[j]).0@ != name@,
            decreases self.entries.len() - i,
        {
            if self.entries[i].0 == *name {
                proof {
                    lemma_lookup_first(self.entries@, i as int, name@);
                }
                return Some(self.entries[i].1);
            }
            i += 1;
        }
        proof {
            lemma_lookup_absent(self.entries@, name@);
        }
        None
    }
}

/// A valuation `ν |= Γ` assigns concrete natural numbers to symbolic variables.
pub struct Valuation {
    pub variables: Variables,
}

impl View for Valuation {
    type V = Map<Seq<char>, u64>;

    open spec fn view(&self) -> Map<Seq<char>, u64> {
        self.variables@
    }
}

impl Valuation {
    /// The valuation that binds no variable.
    pub fn new() -> (r: Valuation)
        ensures
            r@ == Map::<Seq<char>, u64>::empty(),
    {
        Valuation { variables: Variables::new() }
    }

    /// The value of `extent` under this valuation.
    pub fn get_extent(&self, extent: &Extent) -> (r: Option<u64>)
        ensures
            r == eval_extent(extent@, self@),
    {
        extent.try_eval(&self.variables)
    }
}

// ---------------------------------------------------------------------------
// Tags, factors and spaces
// ---------------------------------------------------------------------------

/// An optional local tag to distinguish factors of the same kind.
#[derive(Debug, PartialEq, Eq, Default)]
pub struct Tag(pub Option<String>);

impl View for Tag {
    type V = Option<Seq<char>>;

    open spec fn view(&self) -> Option<Seq<char>> {
        match self.0 {
            Some(s) => Some(s@),
            None => None,
        }
    }
}

impl Tag {
    pub fn duplicate(&self) -> (r: Tag)
        ensures
            r@ == self@,
    {
        match &self.0 {
            Some(s) => Tag(Some(s.clone())),
            None => Tag(None),
        }
    }

    pub fn same_as(&self, other: &Tag) -> (r: bool)
        ensures
            r == (self@ == other@),
    {
        match (&self.0, &other.0) {
            (Some(a), Some(b)) => *a == *b,
            (None, None) => true,
            _ => false,
        }
    }
}

impl Clone for Tag {
    fn clone(&self) -> (r: Tag)
        ensures
            r@ == self@,
    {
        self.duplicate()
    }
}

/// A factor space `a = (k, n, t)`.
#[derive(Debug, PartialEq, Eq)]
pub struct Factor {
    pub kind: Kind,
    pub extent: Extent,
    pub tag: Tag,
}

/// The value of a [`Factor`].
pub struct FactorV {
    pub kind: KindV,
    pub extent: ExtentV,
    pub tag: Option<Seq<char>>,
}

impl View for Factor {
    type V = FactorV;

    open spec fn view(&self) -> FactorV {
        FactorV { kind: self.kind@, extent: self.extent@, tag: self.tag@ }
    }
}

impl Factor {
    pub fn new(kind: Kind, extent: Extent, tag: Option<String>) -> (r: Factor)
        ensures
            r.kind == kind,
            r.extent == extent,
            r.tag == Tag(tag),
    {
        Factor { kind, extent, tag: Tag(tag) }
    }

    pub fn duplicate(&self) -> (r: Factor)
        ensures
            r@ == self@,
    {
        Factor {
            kind: self.kind.duplicate(),
            extent: self.extent.duplicate(),
            tag: self.tag.duplicate(),
        }
    }

    pub fn same_as(&self, other: &Factor) -> (r: bool)
        ensures
            r == (self@ == other@),
    {
        self.kind.same_as(&other.kind) && self.extent.same_as(&other.extent) && self.tag.same_as(
            &other.tag,
        )
    }
}

impl Clone for Factor {
    fn clone(&self) -> (r: Factor)
        ensures
            r@ == self@,
    {
        self.duplicate()
    }
}

/// The factor `Logical` of constant extent 0 and no tag, which fills the
/// positions of a permuted space that the permutation does not reach.
pub open spec fn blank_factor() -> FactorV {
    FactorV { kind: KindV::Logical, extent: ExtentV::Constant(0), tag: None }
}

pub fn blank() -> (r: Factor)
    ensures
        r@ == blank_factor(),
{
    Factor::new(Kind::Logical, Extent::Constant(0), None)
}

/// A typed product space `A = a_1 x ... x a_m`.
#[derive(Debug, PartialEq, Eq)]
pub struct Space {
    pub factors: Vec<Factor>,
}

/// The value of a space: the sequence of its factors.
pub type SpaceV = Seq<FactorV>;

impl View for Space {
    type V = SpaceV;

    open spec fn view(&self) -> SpaceV {
        Seq::new(self.factors.len() as nat, |i: int| self.factors[i]@)
    }
}

/// `base` with `vals[i]` written at position `p[i]`, for `i` in order from 0 to `k - 1`.
pub open spec fn scatter<A>(base: Seq<A>, vals: Seq<A>, p: Seq<usize>, k: int) -> Seq<A>
    decreases k,
{
    if k <= 0 {
        base
    } else {
        scatter(base, vals, p, k - 1).update(p[k - 1] as int, vals[k - 1])
    }
}

/// Every entry of `p` is a position below `n`.
pub open spec fn positions_below(p: Seq<usize>, n: int) -> bool {
    forall|i: int| 0 <= i < p.len() ==> #[trigger] p[i] < n
}

pub proof fn lemma_scatter_len<A>(base: Seq<A>, vals: Seq<A>, p: Seq<usize>, k: int)
    requires
        0 <= k <= p.len(),
        positions_below(p, base.len() as int),
    ensures
        scatter(base, vals, p, k).len() == base.len(),
    decreases k,
{
    if k > 0 {
        lemma_scatter_len(base, vals, p, k - 1);
    }
}

/// The extents of a space's factors under a valuation.
pub open spec fn opt_extents(s: SpaceV, vars: Map<Seq<char>, u64>) -> Seq<Option<u64>> {
    Seq::new(s.len(), |i: int| eval_extent(s[i].extent, vars))
}

/// Every extent has a value.
pub open spec fn all_some(e: Seq<Option<u64>>) -> bool {
    forall|i: int| 0 <= i < e.len() ==> #[trigger] e[i] is Some
}

/// The extent values, where all of them exist.
pub open spec fn unwrap_all(e: Seq<Option<u64>>) -> Seq<u64> {
    Seq::new(e.len(), |i: int| e[i]->0)
}

/// The extents of a space whose extents all have values.
pub open spec fn extents(s: SpaceV, vars: Map<Seq<char>, u64>) -> Seq<u64> {
    unwrap_all(opt_extents(s, vars))
}

/// `coords` is a point of `s`: one coordinate per factor, each below its extent.
pub open spec fn valid_coords(s: SpaceV, vars: Map<Seq<char>, u64>, coords: Seq<u64>) -> bool {
    &&& s.len() == coords.len()
    &&& forall|i: int|
        0 <= i < s.len() ==> {
            &&& (#[trigger] eval_extent(s[i].extent, vars)) is Some
            &&& coords[i] < eval_extent(s[i].extent, vars)->0
        }
}

/// The product of a sequence of naturals.
pub open spec fn prod(e: Seq<u64>) -> nat
    decreases e.len(),
{
    if e.len() == 0 {
        1
    } else {
        e[0] as nat * prod(e.drop_first())
    }
}

/// The row-major (last coordinate fastest) offset of `coords` in a space of
/// extents `e`: `sum_k coords[k] * prod(e[k+1..])`.
pub open spec fn lin_value(e: Seq<u64>, coords: Seq<u64>) -> nat
    decreases e.len(),
{
    if e.len() == 0 || coords.len() == 0 {
        0
    } else {
        coords[0] as nat * prod(e.drop_first()) + lin_value(e.drop_first(), coords.drop_first())
    }
}

/// What [`Space::linearize`] computes.
pub open spec fn spec_linearize(s: SpaceV, vars: Map<Seq<char>, u64>, coords: Seq<u64>) -> Option<u64> {
    if valid_coords(s, vars, coords) {
        Some(lin_value(extents(s, vars), coords) as u64)
    } else {
        None
    }
}

/// Linearizing valid coordinates does not overflow: the volume fits in 64 bits.
pub open spec fn linearize_fits(s: SpaceV, vars: Map<Seq<char>, u64>, coords: Seq<u64>) -> bool {
    valid_coords(s, vars, coords) ==> prod(extents(s, vars)) <= u64::MAX
}

/// Delinearizing never divides by zero: an extent of value 0 lies left of an
/// extent with no value, which stops the scan from the right first.
pub open spec fn delinearize_ok(e: Seq<Option<u64>>) -> bool {
    forall|i: int|
        0 <= i < e.len() && #[trigger] e[i] == Some(0u64) ==> exists|j: int|
            i < j < e.len() && e[j] is None
}

/// The mixed-radix digits of `offset` in extents `e` (last digit fastest),
/// or `None` when an extent has no value or the offset is not below the volume.
pub open spec fn spec_delinearize(e: Seq<Option<u64>>, offset: u64) -> Option<Seq<u64>> {
    if !all_some(e) {
        None
    } else {
        let ex = unwrap_all(e);
        if offset as nat / prod(ex) > 0 {
            None
        } else {
            Some(Seq::new(ex.len(), |k: int| ((offset as nat / prod(ex.skip(k + 1))) % (ex[k] as nat)) as u64))
        }
    }
}

pub proof fn lemma_prod_skip(e: Seq<u64>, k: int)
    requires
        0 <= k < e.len(),
    ensures
        prod(e.skip(k)) == e[k] as nat * prod(e.skip(k + 1)),
{
    assert(e.skip(k).drop_first() =~= e.skip(k + 1));
}

pub proof fn lemma_prod_positive(e: Seq<u64>)
    requires
        forall|i: int| 0 <= i < e.len() ==> #[trigger] e[i] > 0,
    ensures
        prod(e) >= 1,
    decreases e.len(),
{
    if e.len() > 0 {
        lemma_prod_positive(e.drop_first());
        assert(e[0] as nat * prod(e.drop_first()) >= 1) by (nonlinear_arith)
            requires
                e[0] > 0,
                prod(e.drop_first()) >= 1,
        ;
    }
}

pub proof fn lemma_prod_split(e: Seq<u64>, k: int)
    requires
        0 <= k <= e.len(),
    ensures
        prod(e) == prod(e.take(k)) * prod(e.skip(k)),
    decreases k,
{
    if k == 0 {
        assert(e.skip(0) =~= e);
        assert(prod(e.take(0)) == 1);
    } else {
        lemma_prod_split(e.drop_first(), k - 1);
        assert(e.take(k).drop_first() =~= e.drop_first().take(k - 1));
        assert(e.drop_first().skip(k - 1) =~= e.skip(k));
        let a = e[0] as nat;
        let b = prod(e.drop_first().take(k - 1));
        let c = prod(e.skip(k));
        assert(a * (b * c) == (a * b) * c) by (nonlinear_arith);
    }
}

/// Splitting the offset at position `k`: the prefix's offset counts in units of
/// the suffix's volume.
pub proof fn lemma_lin_split(e: Seq<u64>, c: Seq<u64>, k: int)
    requires
        e.len() == c.len(),
        0 <= k <= e.len(),
    ensures
        lin_value(e, c) == lin_value(e.take(k), c.take(k)) * prod(e.skip(k)) + lin_value(
            e.skip(k),
            c.skip(k),
        ),
    decreases k,
{
    if k == 0 {
        assert(e.skip(0) =~= e);
        assert(c.skip(0) =~= c);
        assert(lin_value(e.take(0), c.take(0)) == 0);
        assert(lin_value(e.take(0), c.take(0)) * prod(e.skip(0)) == 0);
    } else {
        let e1 = e.drop_first();
        let c1 = c.drop_first();
        lemma_lin_split(e1, c1, k - 1);
        assert(e.take(k).drop_first() =~= e1.take(k - 1));
        assert(c.take(k).drop_first() =~= c1.take(k - 1));
        assert(e1.skip(k - 1) =~= e.skip(k));
        assert(c1.skip(k - 1) =~= c.skip(k));
        lemma_prod_split(e1, k - 1);
        let c0 = c[0] as nat;
        let pa = prod(e1.take(k - 1));
        let pb = prod(e.skip(k));
        let la = lin_value(e1.take(k - 1), c1.take(k - 1));
        let lb = lin_value(e.skip(k), c.skip(k));
        assert(lin_value(e, c) == c0 * prod(e1) + lin_value(e1, c1));
        assert(prod(e1) == pa * pb);
        assert(lin_value(e1, c1) == la * pb + lb);
        assert(lin_value(e.take(k), c.take(k)) == c0 * pa + la);
        assert(c0 * (pa * pb) + (la * pb + lb) == (c0 * pa + la) * pb + lb) by (nonlinear_arith);
    }
}

/// Valid coordinates have an offset below the volume.
pub proof fn lemma_lin_bound(e: Seq<u64>, c: Seq<u64>)
    requires
        e.len() == c.len(),
        forall|i: int| 0 <= i < e.len() ==> #[trigger] c[i] < e[i],
    ensures
        lin_value(e, c) < prod(e),
    decreases e.len(),
{
    if e.len() > 0 {
        lemma_lin_bound(e.drop_first(), c.drop_first());
        let c0 = c[0] as nat;
        let e0 = e[0] as nat;
        let p = prod(e.drop_first());
        let l = lin_value(e.drop_first(), c.drop_first());
        assert(c0 * p + l < e0 * p) by (nonlinear_arith)
            requires
                c0 < e0,
                l < p,
        ;
    }
}

impl Space {
    pub fn new(factors: Vec<Factor>) -> (r: Space)
        ensures
            r.factors == factors,
    {
        Space { factors }
    }

    pub fn duplicate(&self) -> (r: Space)
        ensures
            r@ == self@,
    {
        let mut out: Vec<Factor> = Vec::new();
        let mut i: usize = 0;
        while i < self.factors.len()
            invariant
                i <= self.factors.len(),
                out.len() == i,
                forall|j: int| 0 <= j < i ==> (#[trigger] out[j])@ == self.factors[j]@,
            decreases self.factors.len() - i,
        {
            out.push(self.factors[i].duplicate());
            i += 1;
        }
        let r = Space { factors: out };
        assert(r@ =~= self@);
        r
    }

    pub fn same_as(&self, other: &Space) -> (r: bool)
        ensures
            r == (self@ == other@),
    {
        if self.factors.len() != other.factors.len() {
            proof {
                if self@ == other@ {
                    assert(self@.len() == other@.len());
                }
            }
            return false;
        }
        let mut i: usize = 0;
        while i < self.factors.len()
            invariant
                i <= self.factors.len(),
                self.factors.len() == other.factors.len(),
                forall|j: int| 0 <= j < i ==> (#[trigger] self.factors[j])@ == other.factors[j]@,
            decreases self.factors.len() - i,
        {
            if !self.factors[i].same_as(&other.factors[i]) {
                proof {
                    if self@ == other@ {
                        assert(self@[i as int] == other@[i as int]);
                    }
                }
                return false;
            }
            i += 1;
        }
        assert(self@ =~= other@);
        true
    }

    /// The number of factors.
    pub fn rank(&self) -> (r: usize)
        ensures
            r == self@.len(),
    {
        self.factors.len()
    }

    /// The product space: the factors of `self` followed by those of `other`.
    pub fn product(&self, other: &Space) -> (r: Space)
        ensures
            r@ == self@ + other@,
    {
        let mut factors = self.duplicate();
        let mut i: usize = 0;
        while i < other.factors.len()
            invariant
                i <= other.factors.len(),
                factors@ == self@ + other@.take(i as int),
            decreases other.factors.len() - i,
        {
            let f = other.factors[i].duplicate();
            let ghost before = factors@;
            factors.factors.push(f);
            proof {
                assert(factors@ =~= before.push(other@[i as int]));
                assert(other@.take(i as int + 1) =~= other@.take(i as int).push(other@[i as int]));
            }
            i += 1;
        }
        assert(other@.take(other@.len() as int) =~= other@);
        factors
    }

    /// Whether `coords` is a point of this space under `valuation`.
    pub fn is_valid(&self, valuation: &Valuation, coords: &[u64]) -> (r: bool)
        ensures
            r == valid_coords(self@, valuation@, coords@),
    {
        if self.factors.len() != coords.len() {
            return false;
        }
        let mut i: usize = 0;
        while i < self.factors.len()
            invariant
                i <= self.factors.len(),
                self.factors.len() == coords.len(),
                forall|j: int|
                    0 <= j < i ==> {
                        &&& (#[trigger] eval_extent(self@[j].extent, valuation@)) is Some
                        &&& coords@[j] < eval_extent(self@[j].extent, valuation@)->0
                    },
            decreases self.factors.len() - i,
        {
            assert(self@[i as int].extent == self.factors[i as int].extent@);
            match self.factors[i].extent.try_eval(&valuation.variables) {
                Some(extent) => {
                    if coords[i] >= extent {
                        return false;
                    }
                },
                None => {
                    return false;
                },
            }
            i += 1;
        }
        true
    }

    /// The product of all extents, simplified.
    pub fn volume_extent(&self) -> (r: Extent)
        requires
            simplify_extent_ok(volume_of(self@)),
        ensures
            r@ == simplify_extent(volume_of(self@)),
    {
        let mut parts: Vec<Extent> = Vec::new();
        let mut i: usize = 0;
        while i < self.factors.len()
            invariant
                i <= self.factors.len(),
                parts.len() == i,
                forall|j: int| 0 <= j < i ==> (#[trigger] parts[j])@ == self.factors[j].extent@,
            decreases self.factors.len() - i,
        {
            parts.push(self.factors[i].extent.duplicate());
            i += 1;
        }
        let e = Extent::Product(parts);
        assert(e@ == volume_of(self@)) by {
            assert(e@->Product_0 =~= volume_of(self@)->Product_0);
        }
        e.simplify()
    }

    /// Same kinds and extents, factor by factor (tags are not compared).
    pub fn compatible(&self, other: &Space) -> (r: bool)
        ensures
            r == spaces_compatible(self@, other@),
    {
        if self.factors.len() != other.factors.len() {
            return false;
        }
        let mut i: usize = 0;
        while i < self.factors.len()
            invariant
                i <= self.factors.len(),
                self.factors.len() == other.factors.len(),
                forall|j: int|
                    0 <= j < i ==> (#[trigger] self@[j]).kind == other@[j].kind && self@[j].extent
                        == other@[j].extent,
            decreases self.factors.len() - i,
        {
            assert(self@[i as int] == self.factors[i as int]@);
            assert(other@[i as int] == other.factors[i as int]@);
            if !self.factors[i].kind.same_as(&other.factors[i].kind)
                || !self.factors[i].extent.same_as(&other.factors[i].extent) {
                return false;
            }
            i += 1;
        }
        true
    }

    /// The space whose factor at `p[i]` is this space's factor `i`; positions
    /// that `p` does not reach hold [`blank_factor`].
    pub fn permute(&self, p: &[usize]) -> (r: Space)
        requires
            p@.len() <= self@.len(),
            positions_below(p@, self@.len() as int),
        ensures
            r@ == permuted(self@, p@),
    {
        let n = self.factors.len();
        let mut factors: Vec<Factor> = Vec::new();
        let mut k: usize = 0;
        while k < n
            invariant
                k <= n,
                factors.len() == k,
                forall|j: int| 0 <= j < k ==> (#[trigger] factors[j])@ == blank_factor(),
            decreases n - k,
        {
            factors.push(blank());
            k += 1;
        }
        let ghost base = Seq::new(n as nat, |j: int| blank_factor());
        let mut i: usize = 0;
        while i < p.len()
            invariant
                i <= p.len(),
                p@.len() <= n,
                n == self@.len(),
                positions_below(p@, n as int),
                factors.len() == n,
                Seq::new(n as nat, |j: int| factors[j]@) == scatter(base, self@, p@, i as int),
            decreases p.len() - i,
        {
            let pos = p[i];
            let ghost before = Seq::new(n as nat, |j: int| factors[j]@);
            factors.set(pos, self.factors[i].duplicate());
            assert(Seq::new(n as nat, |j: int| factors[j]@) =~= before.update(
                pos as int,
                self@[i as int],
            ));
            i += 1;
        }
        let r = Space { factors };
        assert(r@ =~= Seq::new(n as nat, |j: int| r.factors[j]@));
        proof {
            assert(base =~= Seq::new(self@.len(), |j: int| blank_factor()));
        }
        r
    }

    /// The row-major offset of `coords`, or `None` when they are not a point of the space.
    pub fn linearize(&self, coords: &[u64], valuation: &Valuation) -> (r: Option<u64>)
        requires
            linearize_fits(self@, valuation@, coords@),
        ensures
            r == spec_linearize(self@, valuation@, coords@),
    {
        if !self.is_valid(valuation, coords) {
            return None;
        }
        let ghost ex = extents(self@, valuation@);
        let ghost cs = coords@;
        let n = self.factors.len();
        proof {
            assert forall|j: int| 0 <= j < n implies #[trigger] cs[j] < ex[j] by {
                assert(eval_extent(self@[j].extent, valuation@) is Some);
            }
            assert forall|j: int| 0 <= j < n implies #[trigger] ex[j] > 0 by {
                assert(cs[j] < ex[j]);
            }
            assert(ex.len() == n);
        }
        let mut offset: u64 = 0;
        let mut stride: u64 = 1;
        let mut i: usize = n;
        proof {
            assert(ex.skip(n as int) =~= Seq::<u64>::empty());
            assert(cs.skip(n as int) =~= Seq::<u64>::empty());
            assert(ex.take(n as int) =~= ex);
            assert(cs.take(n as int) =~= cs);
        }
        while i > 0
            invariant
                i <= n,
                n == self.factors.len(),
                n == coords.len(),
                ex.len() == n,
                cs == coords@,
                ex == extents(self@, valuation@),
                forall|j: int| 0 <= j < n ==> #[trigger] cs[j] < ex[j],
                forall|j: int| 0 <= j < n ==> #[trigger] ex[j] > 0,
                prod(ex) <= u64::MAX,
                stride == prod(ex.skip(i as int)),
                offset == lin_value(ex.skip(i as int), cs.skip(i as int)),
                valid_coords(self@, valuation@, coords@),
            decreases i,
        {
            i -= 1;
            let e = self.factors[i].extent.try_eval(&valuation.variables).unwrap();
            let c = coords[i];
            proof {
                assert(eval_extent(self@[i as int].extent, valuation@) is Some);
                assert(e == ex[i as int]);
                lemma_prod_skip(ex, i as int);
                lemma_lin_bound(ex.skip(i as int + 1), cs.skip(i as int + 1));
                assert(ex.skip(i as int).drop_first() =~= ex.skip(i as int + 1));
                assert(cs.skip(i as int).drop_first() =~= cs.skip(i as int + 1));
                lemma_prod_split(ex, i as int);
                assert forall|j: int| 0 <= j < ex.take(i as int).len() implies #[trigger] ex.take(
                    i as int,
                )[j] > 0 by {
                    assert(ex.take(i as int)[j] == ex[j]);
                }
                lemma_prod_positive(ex.take(i as int));
                let t = prod(ex.take(i as int));
                let s = prod(ex.skip(i as int));
                assert(s <= t * s) by (nonlinear_arith)
                    requires
                        t >= 1,
                ;
                assert(c * stride + offset < e * stride) by (nonlinear_arith)
                    requires
                        c < e,
                        offset < stride,
                ;
            }
            offset = offset + c * stride;
            stride = stride * e;
        }
        proof {
            assert(ex.skip(0) =~= ex);
            assert(cs.skip(0) =~= cs);
        }
        Some(offset)
    }

    /// The coordinates whose row-major offset is `offset`, or `None` when an
    /// extent has no value or the offset is not below the volume.
    pub fn delinearize(&self, offset: u64, valuation: &Valuation) -> (r: Option<Vec<u64>>)
        requires
            delinearize_ok(opt_extents(self@, valuation@)),
        ensures
            match r {
                Some(v) => spec_delinearize(opt_extents(self@, valuation@), offset) == Some(v@),
                None => spec_delinearize(opt_extents(self@, valuation@), offset) is None,
            },
    {
        let ghost oe = opt_extents(self@, valuation@);
        let n = self.factors.len();
        let mut output: Vec<u64> = Vec::new();
        let mut k: usize = 0;
        while k < n
            invariant
                k <= n,
                output.len() == k,
            decreases n - k,
        {
            output.push(0);
            k += 1;
        }
        let mut off = offset;
        let mut i: usize = n;
        let ghost ex = unwrap_all(oe);
        proof {
            assert(ex.skip(n as int) =~= Seq::<u64>::empty());
        }
        while i > 0
            invariant
                i <= n,
                n == self.factors.len(),
                output.len() == n,
                oe == opt_extents(self@, valuation@),
                ex == unwrap_all(oe),
                delinearize_ok(oe),
                forall|j: int| i <= j < n ==> #[trigger] oe[j] is Some,
                forall|j: int| i <= j < n ==> #[trigger] ex[j] > 0,
                prod(ex.skip(i as int)) > 0,
                off as nat == offset as nat / prod(ex.skip(i as int)),
                forall|j: int|
                    i <= j < n ==> #[trigger] output[j] == ((offset as nat / prod(ex.skip(j + 1)))
                        % (ex[j] as nat)) as u64,
            decreases i,
        {
            i -= 1;
            let extent = match self.factors[i].extent.try_eval(&valuation.variables) {
                Some(e) => e,
                None => {
                    proof {
                        assert(!all_some(oe)) by {
                            assert(oe[i as int] is None);
                        }
                    }
                    return None;
                },
            };
            proof {
                assert(oe[i as int] == Some(extent));
                if extent == 0 {
                    let j = choose|j: int| i < j < oe.len() && oe[j] is None;
                    assert(oe[j] is Some);
                }
                lemma_prod_skip(ex, i as int);
                lemma_div_denominator(
                    offset as int,
                    prod(ex.skip(i as int + 1)) as int,
                    extent as int,
                );
                assert(prod(ex.skip(i as int + 1)) * extent == extent * prod(ex.skip(i as int + 1)))
                    by (nonlinear_arith);
                assert(prod(ex.skip(i as int)) > 0) by (nonlinear_arith)
                    requires
                        prod(ex.skip(i as int)) == extent as nat * prod(ex.skip(i as int + 1)),
                        extent > 0,
                        prod(ex.skip(i as int + 1)) > 0,
                ;
            }
            output.set(i, off % extent);
            off = off / extent;
        }
        proof {
            assert(ex.skip(0) =~= ex);
            assert(all_some(oe));
        }
        if off > 0 {
            None
        } else {
            proof {
                assert(output@ =~= spec_delinearize(oe, offset)->0);
            }
            Some(output)
        }
    }
}

impl Clone for Space {
    fn clone(&self) -> (r: Space)
        ensures
            r@ == self@,
    {
        self.duplicate()
    }
}

/// The product extent of all factors of a space.
pub open spec fn volume_of(s: SpaceV) -> ExtentV {
    ExtentV::Product(Seq::new(s.len(), |i: int| s[i].extent))
}

/// Same length, and the same kind and extent at every position.
pub open spec fn spaces_compatible(a: SpaceV, b: SpaceV) -> bool {
    &&& a.len() == b.len()
    &&& forall|j: int| 0 <= j < a.len() ==> (#[trigger] a[j]).kind == b[j].kind && a[j].extent == b[j].extent
}

/// The space with factor `i` of `s` at position `p[i]`, blanks elsewhere.
pub open spec fn permuted(s: SpaceV, p: Seq<usize>) -> SpaceV {
    scatter(Seq::new(s.len(), |j: int| blank_factor()), s, p, p.len() as int)
}

/// Round trip: delinearizing the offset of a point gives the point back.
pub proof fn lemma_delinearize_linearize(s: SpaceV, vars: Map<Seq<char>, u64>, coords: Seq<u64>)
    requires
        valid_coords(s, vars, coords),
        prod(extents(s, vars)) <= u64::MAX,
    ensures
        spec_linearize(s, vars, coords) is Some,
        spec_delinearize(opt_extents(s, vars), spec_linearize(s, vars, coords)->0) == Some(coords),
{
    let ex = extents(s, vars);
    let oe = opt_extents(s, vars);
    assert forall|j: int| 0 <= j < ex.len() implies #[trigger] coords[j] < ex[j] by {
        assert(eval_extent(s[j].extent, vars) is Some);
    }
    assert(all_some(oe)) by {
        assert forall|j: int| 0 <= j < oe.len() implies #[trigger] oe[j] is Some by {
            assert(eval_extent(s[j].extent, vars) is Some);
        }
    }
    lemma_lin_bound(ex, coords);
    let off = lin_value(ex, coords);
    assert(off / prod(ex) == 0) by (nonlinear_arith)
        requires
            off < prod(ex),
    ;
    let digits = spec_delinearize(oe, off as u64)->0;
    assert forall|k: int| 0 <= k < ex.len() implies #[trigger] digits[k] == coords[k] by {
        lemma_digit(ex, coords, k);
    }
    assert(digits =~= coords);
}

proof fn lemma_single(e: u64, c: u64)
    ensures
        prod(seq![e]) == e as nat,
        lin_value(seq![e], seq![c]) == c as nat,
{
    assert(seq![e].drop_first() =~= Seq::<u64>::empty());
    assert(seq![c].drop_first() =~= Seq::<u64>::empty());
    let p = prod(seq![e].drop_first());
    assert(p == 1);
    assert(lin_value(seq![e].drop_first(), seq![c].drop_first()) == 0);
    assert(e as nat * p == e as nat) by (nonlinear_arith)
        requires
            p == 1,
    ;
    assert(c as nat * p == c as nat) by (nonlinear_arith)
        requires
            p == 1,
    ;
}

/// Digit `k` of the offset of a point is its coordinate `k`.
proof fn lemma_digit(ex: Seq<u64>, c: Seq<u64>, k: int)
    requires
        ex.len() == c.len(),
        0 <= k < ex.len(),
        forall|j: int| 0 <= j < ex.len() ==> #[trigger] c[j] < ex[j],
    ensures
        (lin_value(ex, c) / prod(ex.skip(k + 1))) % (ex[k] as nat) == c[k],
{
    lemma_lin_split(ex, c, k + 1);
    let head = lin_value(ex.take(k + 1), c.take(k + 1));
    let p = prod(ex.skip(k + 1));
    let tail = lin_value(ex.skip(k + 1), c.skip(k + 1));
    lemma_lin_bound(ex.skip(k + 1), c.skip(k + 1));
    lemma_fundamental_div_mod_converse(lin_value(ex, c) as int, p as int, head as int, tail as int);
    // head = lin(prefix of length k) * ex[k] + c[k]
    lemma_lin_split(ex.take(k + 1), c.take(k + 1), k);
    assert(ex.take(k + 1).take(k) =~= ex.take(k));
    assert(c.take(k + 1).take(k) =~= c.take(k));
    assert(ex.take(k + 1).skip(k) =~= seq![ex[k]]);
    assert(c.take(k + 1).skip(k) =~= seq![c[k]]);
    lemma_single(ex[k], c[k]);
    lemma_fundamental_div_mod_converse(
        head as int,
        ex[k] as int,
        lin_value(ex.take(k), c.take(k)) as int,
        c[k] as int,
    );
}

/// Round trip: the offset of the digits of an offset below the volume is that offset.
pub proof fn lemma_linearize_delinearize(s: SpaceV, vars: Map<Seq<char>, u64>, offset: u64)
    requires
        delinearize_ok(opt_extents(s, vars)),
        spec_delinearize(opt_extents(s, vars), offset) is Some,
    ensures
        spec_linearize(s, vars, spec_delinearize(opt_extents(s, vars), offset)->0) == Some(offset),
{
    let oe = opt_extents(s, vars);
    let ex = unwrap_all(oe);
    let digits = spec_delinearize(oe, offset)->0;
    assert forall|j: int| 0 <= j < ex.len() implies #[trigger] ex[j] > 0 by {
        assert(oe[j] is Some);
        if ex[j] == 0 {
            let k = choose|k: int| j < k < oe.len() && oe[k] is None;
            assert(oe[k] is Some);
        }
    }
    assert forall|j: int| 0 <= j < ex.len() implies #[trigger] digits[j] < ex[j] by {
        lemma_prod_skip(ex, j);
        assert(oe[j] is Some);
        vstd::arithmetic::div_mod::lemma_mod_bound(
            (offset as nat / prod(ex.skip(j + 1))) as int,
            ex[j] as int,
        );
    }
    assert(valid_coords(s, vars, digits)) by {
        assert forall|i: int| 0 <= i < s.len() implies {
            &&& (#[trigger] eval_extent(s[i].extent, vars)) is Some
            &&& digits[i] < eval_extent(s[i].extent, vars)->0
        } by {
            assert(oe[i] is Some);
        }
    }
    lemma_prod_positive(ex);
    assert(offset < prod(ex)) by {
        if offset >= prod(ex) {
            vstd::arithmetic::div_mod::lemma_div_is_ordered(prod(ex) as int, offset as int, prod(ex) as int);
            vstd::arithmetic::div_mod::lemma_div_by_self(prod(ex) as int);
        }
    }
    lemma_lin_of_digits(ex, offset as nat, 0);
    assert(ex.skip(0) =~= ex);
    let d2 = Seq::new(ex.len(), |j: int| ((offset as nat / prod(ex.skip(j + 1))) % (ex[j] as nat)) as u64);
    assert(d2.skip(0) =~= digits);
    vstd::arithmetic::div_mod::lemma_small_mod(offset as nat, prod(ex));
    assert(lin_value(ex, digits) == offset);
}

/// Delinearizing is injective: two offsets with the same digits are equal.
pub proof fn lemma_delinearize_injective(e: Seq<Option<u64>>, o1: u64, o2: u64)
    requires
        delinearize_ok(e),
        spec_delinearize(e, o1) is Some,
        spec_delinearize(e, o1) == spec_delinearize(e, o2),
    ensures
        o1 == o2,
{
    let ex = unwrap_all(e);
    assert forall|j: int| 0 <= j < ex.len() implies #[trigger] ex[j] > 0 by {
        assert(e[j] is Some);
        if ex[j] == 0 {
            let k = choose|k: int| j < k < e.len() && e[k] is None;
            assert(e[k] is Some);
        }
    }
    lemma_prod_positive(ex);
    assert(ex.skip(0) =~= ex);
    assert forall|o: u64| spec_delinearize(e, o) is Some implies lin_value(
        ex,
        spec_delinearize(e, o)->0,
    ) == o by {
        assert(o < prod(ex)) by {
            if o >= prod(ex) {
                vstd::arithmetic::div_mod::lemma_div_is_ordered(prod(ex) as int, o as int, prod(ex) as int);
                vstd::arithmetic::div_mod::lemma_div_by_self(prod(ex) as int);
            }
        }
        lemma_lin_of_digits(ex, o as nat, 0);
        let d = Seq::new(ex.len(), |j: int| ((o as nat / prod(ex.skip(j + 1))) % (ex[j] as nat)) as u64);
        assert(d.skip(0) =~= spec_delinearize(e, o)->0);
        vstd::arithmetic::div_mod::lemma_small_mod(o as nat, prod(ex));
    }
    assert(lin_value(ex, spec_delinearize(e, o1)->0) == o1);
    assert(lin_value(ex, spec_delinearize(e, o2)->0) == o2);
}

/// The offset of the digits `k..` of `offset` is `offset` modulo the volume of
/// the extents `k..`.
proof fn lemma_lin_of_digits(ex: Seq<u64>, offset: nat, k: int)
    requires
        0 <= k <= ex.len(),
        forall|j: int| 0 <= j < ex.len() ==> #[trigger] ex[j] > 0,
    ensures
        lin_value(
            ex.skip(k),
            Seq::new(ex.len(), |j: int| ((offset / prod(ex.skip(j + 1))) % (ex[j] as nat)) as u64).skip(k),
        ) == offset % prod(ex.skip(k)),
    decreases ex.len() - k,
{
    let digits = Seq::new(ex.len(), |j: int| ((offset / prod(ex.skip(j + 1))) % (ex[j] as nat)) as u64);
    assert forall|j: int| 0 <= j < ex.skip(k).len() implies #[trigger] ex.skip(k)[j] > 0 by {
        assert(ex.skip(k)[j] == ex[k + j]);
    }
    lemma_prod_positive(ex.skip(k));
    if k == ex.len() {
        assert(ex.skip(k).len() == 0);
        assert(prod(ex.skip(k)) == 1);
        assert(offset % 1 == 0);
    } else {
        lemma_lin_of_digits(ex, offset, k + 1);
        assert(ex.skip(k).drop_first() =~= ex.skip(k + 1));
        assert(digits.skip(k).drop_first() =~= digits.skip(k + 1));
        lemma_prod_skip(ex, k);
        assert forall|j: int| 0 <= j < ex.skip(k + 1).len() implies #[trigger] ex.skip(k + 1)[j] > 0 by {
            assert(ex.skip(k + 1)[j] == ex[k + 1 + j]);
        }
        lemma_prod_positive(ex.skip(k + 1));
        let p = prod(ex.skip(k + 1)) as int;
        let e = ex[k] as int;
        let o = offset as int;
        // offset % (e * p) == ((offset / p) % e) * p + offset % p
        vstd::arithmetic::div_mod::lemma_breakdown(o, p, e);
        assert(p * e == e * p) by (nonlinear_arith);
        assert(((o / p) % e) < e) by {
            vstd::arithmetic::div_mod::lemma_mod_bound(o / p, e);
        }
        assert(0 <= (o / p) % e) by {
            vstd::arithmetic::div_mod::lemma_mod_bound(o / p, e);
        }
        assert(digits[k] as int == (o / p) % e);
        assert(digits.skip(k)[0] == digits[k]);
    }
}

} // verus!
