use vstd::prelude::*;

verus! {

/// A weak reference to a cached resource: the index of the slot holding it.
///
/// A handle owns nothing. It stays valid until its resource is unloaded, and
/// every use of it checks that the slot is still occupied.
#[derive(Clone, Copy, Debug, PartialEq, Eq, Structural)]
pub struct Handle {
    pub id: usize,
}

/// Why a resource could not be loaded.
#[derive(Debug)]
pub enum LoadError<E> {
    /// The creation primitive failed; its error is passed on unchanged.
    CreationFailed(E),
}

/// Why a resource could not be drawn.
#[derive(Debug)]
pub enum DrawError<E> {
    /// The handle names an empty slot: the resource was unloaded, or never loaded.
    MissingResource,
    /// The draw primitive failed; its error is passed on unchanged.
    BackendFailure(E),
}

} // verus!
