use vstd::prelude::*;

verus! {

/// A structural failure found while building the network or reading the arguments.
#[derive(Debug)]
pub struct MappingError<'a> {
    pub why: &'a str,
}

} // verus!
