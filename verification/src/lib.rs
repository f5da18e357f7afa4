//! Formal tensor layouts: spaces of named, sized dimensions; layouts as
//! algebraic expressions over them; their meaning on points, their lowering
//! to index arithmetic, their inverses; and structural analyses of them.
pub mod space;
pub mod extent_law;
pub mod layout;
pub mod analysis;
pub mod fusion;
pub mod judgment_laws;
pub mod surjectivity_law;
pub mod stride_law;
pub mod image_law;
pub mod volume_law;
pub mod undefined_law;
pub mod normal_form_law;
pub mod layer_law;
pub mod judgment_completeness;
pub mod viz;
pub mod cuda_law;

pub use crate::analysis::{Judgment, LayeredNormalForm};
pub use crate::space::{Extent, Factor, Kind, Space, Tag, Valuation, Variables};
pub use crate::layout::{AsLayout, Expression, Layout, ScalarExpr, invert_gf2};
pub use crate::viz::to_cuda;
