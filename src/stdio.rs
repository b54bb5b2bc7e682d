use vstd::prelude::*;

verus! {

/// Holds a medium of the standard library (a file, a stream, an in-memory cursor).
/// Reading, writing and seeking through it go through std's I/O traits, which the
/// verified library cannot call through; they are bound around it.
pub struct StdIo<T> {
    inner: T,
}

impl<T> StdIo<T> {
    /// The medium held.
    pub closed spec fn held(&self) -> T {
        self.inner
    }

    /// Wraps `inner`.
    pub fn new(inner: T) -> (r: Self)
        ensures
            r.held() == inner,
    {
        Self { inner }
    }

    /// The medium, shared.
    pub fn inner(&self) -> (r: &T)
        ensures
            *r == self.held(),
    {
        &self.inner
    }

    /// The medium, to be changed in place.
    pub fn inner_mut(&mut self) -> (r: &mut T)
        ensures
            *r == old(self).held(),
            final(self).held() == *final(r),
    {
        &mut self.inner
    }

    /// Gives the medium back.
    pub fn to_inner(self) -> (r: T)
        ensures
            r == self.held(),
    {
        self.inner
    }
}

} // verus!
