//! Layout expressions, their semantics and their lowering to index arithmetic.
pub mod scalar;
pub mod expr;
pub mod apply;
pub mod lower;
pub mod gf2;
pub mod inverse;
pub mod simplify_law;
pub mod lower_law;
pub mod wrap_law;
pub mod domain_law;
pub mod inverse_law;
pub mod as_layout;
pub mod builder;

pub use scalar::ScalarExpr;
pub use expr::Expression;
pub use as_layout::AsLayout;
pub use builder::Layout;
pub use gf2::invert_gf2;
