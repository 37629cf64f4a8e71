//! Reverse-mode automatic differentiation.
//!
//! An expression is evaluated against a [`Context`] into a tree of
//! [`Node`]s; [`Gradient`] then walks that tree backwards and sums, at a
//! chosen variable, what every path from the result contributes.
use vstd::prelude::*;

pub mod context;
pub mod expr;
pub mod functions;
pub mod gradient;
pub mod iter;
pub mod laws;
pub mod lemmas;
pub mod model;
pub mod node;
pub mod rule;
pub mod shapes;
pub mod testsupport;
pub mod utils;

pub use crate::context::{Context, Variable};
pub use crate::expr::{Container, Expression, LeafVar};
pub use crate::gradient::Gradient;
pub use crate::model::Tree;
pub use crate::node::Node;
pub use crate::rule::VecJacProduct;
pub use crate::shapes::{Dim2, SumAllVJP};

