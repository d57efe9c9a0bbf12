use vstd::prelude::*;

verus! {

/// The one failure of the ranking functions: the output's length (first)
/// differs from the input's (second).
#[derive(Clone, Copy, Debug, PartialEq, Eq, Structural)]
pub enum Error {
    LengthMismatch(usize, usize),
}

} // verus!
