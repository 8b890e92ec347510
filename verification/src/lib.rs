use vstd::prelude::*;

pub mod text;
pub mod tokeniser;
pub mod ast;
pub mod error;
pub mod parser;
pub mod commands;
pub mod cli_args;
pub mod project_root;
pub mod install;

verus! {

} // verus!
