//! Choice-model estimation over preorders of alternatives.
use vstd::prelude::*;

pub mod alt;
pub mod bits;
pub mod alt_set;
pub mod fast_preorder;
pub mod preorder;
pub mod common;
pub mod model;
pub mod linear_preorders;
pub mod precomputed;
pub mod winners;
pub mod estimation;
pub mod graph;
pub mod set_cover;
pub mod consistency;
pub mod codec;
pub mod matrix;
pub mod integrity;
pub mod digraph;
pub mod instviz;
pub mod approximate_estimation;

