//! A request-logging layer around an inner service.

use vstd::prelude::*;

verus! {

/// Wraps a service so that each request is logged before it is handed on.
pub struct Logger<T> {
    inner: T,
}

impl<T> Logger<T> {
    pub closed spec fn inner(&self) -> T {
        self.inner
    }

    pub fn new(inner: T) -> (r: Logger<T>)
        ensures
            r.inner() == inner,
    {
        Logger { inner }
    }

    /// The wrapped service.
    pub fn get_mut(&mut self) -> (r: &mut T)
        ensures
            *r == old(self).inner(),
            final(self).inner() == *final(r),
    {
        &mut self.inner
    }
}

} // verus!
