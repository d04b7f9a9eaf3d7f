use vstd::prelude::*;

verus! {

/// Why a call was refused.
#[derive(Clone, Copy, Debug, PartialEq, Eq)]
pub enum GraphError {
    /// The columns handed in do not have one length.
    MalformedInput,
    /// A parameter is outside the range in which it has a meaning.
    InvalidParameter,
    /// A count does not fit the integer width chosen for it.
    ConversionFailure,
}

} // verus!
