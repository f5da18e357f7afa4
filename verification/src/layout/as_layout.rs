//! What every layout offers: its source and target spaces, its map on
//! points, and its lowering to index arithmetic.
use vstd::prelude::*;
use crate::space::{Space, SpaceV, Valuation};
use crate::layout::scalar::{ScalarExpr, ScalarV};
use crate::layout::expr::{Expression, expr_source, expr_source_ok, expr_target, expr_target_ok};
use crate::layout::apply::{expr_apply, expr_apply_ok, opt_seq};
use crate::layout::lower::{expr_lower, expr_lower_ok, scalars_view};

verus! {

/// A layout: a map from the points of a source space to the points of a
/// target space, which can also be lowered to index arithmetic.
pub trait AsLayout {
    /// Computing the source does not panic.
    spec fn source_ok(&self) -> bool;

    /// The source space.
    spec fn source_spec(&self) -> SpaceV;

    /// Computing the target does not panic.
    spec fn target_ok(&self) -> bool;

    /// The target space.
    spec fn target_spec(&self) -> SpaceV;

    /// Mapping `input` does not panic.
    spec fn apply_ok(&self, vars: Map<Seq<char>, u64>, input: Seq<u64>) -> bool;

    /// The image of `input`, if the layout maps it.
    spec fn apply_spec(&self, vars: Map<Seq<char>, u64>, input: Seq<u64>) -> Option<Seq<u64>>;

    /// Lowering `inputs` does not panic.
    spec fn lower_ok(&self, vars: Map<Seq<char>, u64>, inputs: Seq<ScalarV>) -> bool;

    /// The lowered target coordinates and the domain condition.
    spec fn lower_spec(&self, vars: Map<Seq<char>, u64>, inputs: Seq<ScalarV>) -> (Seq<ScalarV>, ScalarV);

    fn source(&self) -> (r: Space)
        requires
            self.source_ok(),
        ensures
            r@ == self.source_spec(),
    ;

    fn target(&self) -> (r: Space)
        requires
            self.target_ok(),
        ensures
            r@ == self.target_spec(),
    ;

    fn apply(&self, valuation: &Valuation, input: &[u64]) -> (r: Option<Vec<u64>>)
        requires
            self.apply_ok(valuation@, input@),
        ensures
            opt_seq(r) == self.apply_spec(valuation@, input@),
    ;

    fn lower(&self, valuation: &Valuation, inputs: Vec<ScalarExpr>) -> (r: (Vec<ScalarExpr>, ScalarExpr))
        requires
            self.lower_ok(valuation@, scalars_view(inputs@)),
        ensures
            (scalars_view(r.0@), r.1@) == self.lower_spec(valuation@, scalars_view(inputs@)),
    ;
}

impl AsLayout for Expression {
    open spec fn source_ok(&self) -> bool {
        expr_source_ok(self@)
    }

    open spec fn source_spec(&self) -> SpaceV {
        expr_source(self@)
    }

    open spec fn target_ok(&self) -> bool {
        expr_target_ok(self@)
    }

    open spec fn target_spec(&self) -> SpaceV {
        expr_target(self@)
    }

    open spec fn apply_ok(&self, vars: Map<Seq<char>, u64>, input: Seq<u64>) -> bool {
        expr_apply_ok(self@, vars, input)
    }

    open spec fn apply_spec(&self, vars: Map<Seq<char>, u64>, input: Seq<u64>) -> Option<Seq<u64>> {
        expr_apply(self@, vars, input)
    }

    open spec fn lower_ok(&self, vars: Map<Seq<char>, u64>, inputs: Seq<ScalarV>) -> bool {
        expr_lower_ok(self@, vars, inputs)
    }

    open spec fn lower_spec(&self, vars: Map<Seq<char>, u64>, inputs: Seq<ScalarV>) -> (Seq<ScalarV>, ScalarV) {
        expr_lower(self@, vars, inputs)
    }

    fn source(&self) -> (r: Space) {
        self.source_space()
    }

    fn target(&self) -> (r: Space) {
        self.target_space()
    }

    fn apply(&self, valuation: &Valuation, input: &[u64]) -> (r: Option<Vec<u64>>) {
        self.map_point(valuation, input)
    }

    fn lower(&self, valuation: &Valuation, inputs: Vec<ScalarExpr>) -> (r: (Vec<ScalarExpr>, ScalarExpr)) {
        self.lower_exprs(valuation, inputs)
    }
}

} // verus!
