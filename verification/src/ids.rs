use crate::error::GraphError;
use vstd::prelude::*;
use vstd::std_specs::convert::TryFromSpec;

verus! {

/// An id of some unsigned width, read as an index.
pub trait AsUsize {
    /// The index that the id stands for.
    spec fn index(&self) -> usize;

    /// The id as an index.
    fn as_usize(&self) -> (r: usize)
        ensures
            r == self.index(),
    ;
}

impl AsUsize for u16 {
    open spec fn index(&self) -> usize {
        *self as usize
    }

    fn as_usize(&self) -> (r: usize) {
        *self as usize
    }
}

impl AsUsize for u32 {
    open spec fn index(&self) -> usize {
        *self as usize
    }

    fn as_usize(&self) -> (r: usize) {
        *self as usize
    }
}

impl AsUsize for u64 {
    open spec fn index(&self) -> usize {
        *self as usize
    }

    fn as_usize(&self) -> (r: usize) {
        #[verifier::truncate]
        (*self as usize)
    }
}

/// An index as an id of the width `T`, or `ConversionFailure` where it does
/// not fit.
pub fn usize_to_t<T: TryFrom<usize>>(value: usize) -> (res: Result<T, GraphError>)
    ensures
        T::obeys_try_from_spec() ==> (match T::try_from_spec(value) {
            Ok(t) => res == Ok::<T, GraphError>(t),
            Err(_) => res == Err::<T, GraphError>(GraphError::ConversionFailure),
        }),
{
    match T::try_from(value) {
        Ok(t) => Ok(t),
        Err(_) => Err(GraphError::ConversionFailure),
    }
}

} // verus!
