//! A minimal hardware description language: parser, elaborator, netlist
//! builder and cycle simulator.
pub mod ast;
pub mod netlist;
pub mod netlist_spec;
pub mod simulator;
pub mod token;
pub mod lexer;
pub mod grammar;
pub mod parser;
pub mod elaboration;
pub mod elab_spec;
pub mod comb_graph;
pub mod text;
pub mod laws;

use vstd::prelude::*;

verus! {

} // verus!
