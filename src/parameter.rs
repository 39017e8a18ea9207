//! Trainable parameters, as handles.

use vstd::prelude::*;

verus! {

/// A value that stands for a resource by a raw handle, and may or may not be
/// the owner of that resource.
pub trait Wrap: Sized {
    spec fn raw(&self) -> u64;

    spec fn owns(&self) -> bool;

    /// The value for `handle`, owning the resource or not.
    fn from_raw(handle: u64, owned: bool) -> (r: Self)
        ensures
            r.raw() == handle,
            r.owns() == owned;

    /// The raw handle.
    fn as_raw(&self) -> (r: u64)
        ensures
            r == self.raw();

    /// Whether this value owns the resource.
    fn is_owned(&self) -> (r: bool)
        ensures
            r == self.owns();
}

/// A handle to one trainable parameter. Handles are given out by a
/// registry; every value with the same handle denotes the same parameter,
/// and at most one of them owns it.
#[derive(Debug, Clone, Copy, PartialEq, Eq, Structural)]
pub struct Parameter {
    handle: u64,
    owned: bool,
}

impl Parameter {
    pub closed spec fn view(&self) -> u64 {
        self.handle
    }

    /// The parameter's handle.
    pub fn handle(&self) -> (r: u64)
        ensures
            r == self@,
    {
        self.handle
    }
}

impl Wrap for Parameter {
    closed spec fn raw(&self) -> u64 {
        self.handle
    }

    closed spec fn owns(&self) -> bool {
        self.owned
    }

    fn from_raw(handle: u64, owned: bool) -> (r: Parameter) {
        Parameter { handle, owned }
    }

    fn as_raw(&self) -> (r: u64) {
        self.handle
    }

    fn is_owned(&self) -> (r: bool) {
        self.owned
    }
}

impl Parameter {
    pub proof fn lemma_raw_is_view(&self)
        ensures
            self.raw() == self@,
    {
    }
}

} // verus!
