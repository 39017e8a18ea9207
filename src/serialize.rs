//! The empty representation that parameters are serialized to.

use vstd::prelude::*;
use std::marker::PhantomData;

verus! {

/// A map was given a field where the empty representation has none.
#[derive(Debug, Clone, Copy, PartialEq, Eq, Structural)]
pub struct UnexpectedField;

/// Reads the empty representation of a value of type `T`: a sequence,
/// whatever it holds, or a map without fields, stands for the default value.
pub struct DefaultVisitor<T> {
    marker: PhantomData<T>,
}

impl<T> DefaultVisitor<T> {
    pub fn new() -> (r: Self) {
        DefaultVisitor { marker: PhantomData }
    }

    /// A sequence is accepted, whatever it holds.
    pub fn visit_seq(&self) -> (r: Result<(), UnexpectedField>)
        ensures
            r is Ok,
    {
        Ok(())
    }

    /// A map is accepted when its first key is absent.
    pub fn visit_map(&self, has_key: bool) -> (r: Result<(), UnexpectedField>)
        ensures
            r is Ok <==> !has_key,
    {
        if has_key {
            Err(UnexpectedField)
        } else {
            Ok(())
        }
    }
}

} // verus!
