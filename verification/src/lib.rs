use vstd::prelude::*;

pub mod text;
pub mod doc;
pub mod layout;
pub mod color;
pub mod diff;
pub mod syntax;
pub mod embedded;
pub mod options;
pub mod outcome;
pub mod reorder;
pub mod certify;
pub mod stylua;
pub mod ruff;
pub mod cli;
pub mod pipeline;
pub mod support;
pub mod tree;
pub mod lower;
pub mod order;
pub mod style;
pub mod emit;

verus! {

} // verus!
