//! Shared access to a value behind a reader-writer lock, and the registry
//! shared that way between threads.

use vstd::prelude::*;
use vstd::rwlock::{ReadHandle, RwLock, RwLockPredicate, WriteHandle};
use std::sync::Arc;
use crate::model::{Instance, instance_regs};
use crate::registry::{ModelError, Registry};

verus! {

/// Relies on `Arc::clone`: the clone points to the same allocation.
#[verifier::external_body]
fn share_arc<T>(a: &Arc<T>) -> (r: Arc<T>)
    ensures
        *r == **a,
{
    Arc::clone(a)
}

/// A handle on a shared lock that may read and write.
pub struct WritableLock<T, P: RwLockPredicate<T>> {
    inner: Arc<RwLock<T, P>>,
}

/// A handle on a shared lock that may only read.
pub struct UnwritableLock<T, P: RwLockPredicate<T>> {
    inner: Arc<RwLock<T, P>>,
}

impl<T, P: RwLockPredicate<T>> WritableLock<T, P> {
    /// The lock this handle is on.
    pub closed spec fn lock(&self) -> RwLock<T, P> {
        *self.inner
    }

    /// Waits for shared access. The value read satisfies the lock's
    /// invariant. The handle must be released by its `release_read`.
    pub fn read(&self) -> (r: ReadHandle<'_, T, P>)
        ensures
            r.rwlock() == self.lock(),
            self.lock().inv(r@),
    {
        self.inner.acquire_read()
    }

    /// Waits for exclusive access and takes the value out. The value taken
    /// satisfies the lock's invariant; the handle's `release_write` puts a
    /// value back, which must satisfy it too.
    pub fn write(&self) -> (r: (T, WriteHandle<'_, T, P>))
        ensures
            r.1.rwlock() == self.lock(),
            self.lock().inv(r.0),
    {
        self.inner.acquire_write()
    }

    /// Another handle on the same lock.
    pub fn share(&self) -> (r: WritableLock<T, P>)
        ensures
            r.lock() == self.lock(),
    {
        WritableLock { inner: share_arc(&self.inner) }
    }

    /// A read-only handle on the same lock.
    pub fn read_only(&self) -> (r: UnwritableLock<T, P>)
        ensures
            r.lock() == self.lock(),
    {
        UnwritableLock { inner: share_arc(&self.inner) }
    }
}

impl<T, P: RwLockPredicate<T>> UnwritableLock<T, P> {
    /// The lock this handle is on.
    pub closed spec fn lock(&self) -> RwLock<T, P> {
        *self.inner
    }

    /// Waits for shared access. The value read satisfies the lock's
    /// invariant. The handle must be released by its `release_read`.
    pub fn read(&self) -> (r: ReadHandle<'_, T, P>)
        ensures
            r.rwlock() == self.lock(),
            self.lock().inv(r@),
    {
        self.inner.acquire_read()
    }
}

/// The invariant a shared registry keeps: it is well formed.
pub struct WellFormed;

impl RwLockPredicate<Registry> for WellFormed {
    open spec fn inv(self, r: Registry) -> bool {
        r.wf()
    }
}

/// A registry shared between threads.
pub type SharedRegistry = WritableLock<Registry, WellFormed>;

/// A new, empty shared registry.
pub fn new_shared_registry() -> (r: SharedRegistry)
    ensures
        r.lock().pred() == WellFormed,
{
    let reg = Registry::new();
    WritableLock { inner: Arc::new(RwLock::new(reg, Ghost(WellFormed))) }
}

/// The entity of `identity` in a shared registry, created if there is none.
/// Callers that ask for the same identity at the same time all get the one
/// entity: the lookup and the creation happen under one exclusive access.
pub fn get_or_create_shared(shared: &SharedRegistry, identity: u64) -> (r: Result<u64, ModelError>)
    ensures
        r is Err ==> r == Err::<u64, ModelError>(ModelError::Exhausted),
{
    let (mut reg, handle) = shared.write();
    let r = reg.entity_for(identity);
    handle.release_write(reg);
    r
}

/// Registers structure `i` of `host` in a shared registry, under one
/// exclusive access.
pub fn register_shared(shared: &SharedRegistry, host: &Vec<Instance>, i: usize) -> (r: Result<u64, ModelError>)
    ensures
        i >= host@.len() ==> r == Err::<u64, ModelError>(ModelError::NoSuchStructure),
        i < host@.len() ==> r != Err::<u64, ModelError>(ModelError::NoSuchStructure),
        i < host@.len() && instance_regs(host@[i as int]) is None ==> r == Err::<u64, ModelError>(
            ModelError::ShapeMismatch,
        ),
{
    if i >= host.len() {
        return Err(ModelError::NoSuchStructure);
    }
    let (mut reg, handle) = shared.write();
    let r = reg.register(host, i);
    handle.release_write(reg);
    r
}

} // verus!
