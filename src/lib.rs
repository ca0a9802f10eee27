//! Delay-driven technology mapping of a combinational network.
//!
//! A network of gate instances is built from a flat, topologically ordered
//! list of node definitions ([`dag::DAG`]), split into one rooted tree per
//! sink ([`dag::DAG::partition`]), and every tree is covered bottom-up with
//! either plain gates or two-level cells so that the worst arrival delay is
//! as small as possible ([`laydown_walker::LaydownWalker::find_min_delay`]).
use vstd::prelude::*;

pub mod dag;
pub mod error;
pub mod laydown_walker;

pub use dag::{InputNode, Node, Tree, DAG};
pub use error::MappingError;
pub use laydown_walker::LaydownWalker;

verus! {

/// The basic configuration options required to execute the mapping algorithm.
#[derive(Debug)]
pub struct Config {
    /// The input file
    pub file: String,
}

impl Config {
    /// Reads the program arguments: the program name followed by exactly one
    /// input file name.
    pub fn new(args: &[String]) -> (r: Result<Config, MappingError<'static>>)
        ensures
            r is Ok <==> args@.len() == 2,
            r matches Ok(c) ==> c.file@ == args@[1]@,
            r matches Err(e) ==> e.why@ == "Too few arguments"@,
    {
        if 2 != args.len() {
            return Err(MappingError { why: "Too few arguments" });
        }
        let file = args[1].clone();
        Ok(Config { file })
    }
}

/// A primitive gate type: its number of inputs and its intrinsic delay.
#[derive(Clone, Copy, Debug)]
pub struct Gate {
    /// How many inputs this type declares. The count is informational: it is
    /// not checked against the number of inputs of the nodes that use the type.
    pub inputs: u32,
    pub delay: u32,
}

impl Gate {
    pub fn delay(&self) -> (r: u32)
        ensures
            r == self.delay,
    {
        self.delay
    }
}

/// A composite cell covering a node of type `gate_b` together with one of its
/// direct inputs of type `gate_a`. `delay_a` is the delay along the inputs of
/// the matched `gate_a` node, `delay_b` the delay along every other input of
/// the covered `gate_b` node.
#[derive(Clone, Copy, Debug)]
pub struct Cell {
    pub gate_a: u32,
    pub gate_b: u32,
    pub delay_a: u32,
    pub delay_b: u32,
}

} // verus!
