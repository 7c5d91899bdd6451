//! A small holder for an optional value.

use vstd::prelude::*;

verus! {

/// Access to the inner value of a holder that may be empty.
pub trait WithInnerValue<T>: Sized {
    /// The held value, if any.
    spec fn spec_inner(&self) -> Option<T>;

    /// Takes the inner value out, leaving the holder empty; `None` where
    /// it already was.
    fn with_inner_value(&mut self) -> (r: Option<T>)
        ensures
            r == old(self).spec_inner(),
            final(self).spec_inner() is None,
    ;
}

/// A holder for one optional value, empty until something is stored.
pub struct Slot<T> {
    pub value: Option<T>,
}

impl<T> Slot<T> {
    /// An empty holder.
    pub fn empty() -> (r: Slot<T>)
        ensures
            r.value is None,
    {
        Slot { value: None }
    }

    /// Fills the holder, handing back whatever it held before.
    pub fn store(&mut self, value: T) -> (r: Option<T>)
        ensures
            final(self).value == Some(value),
            r == old(self).value,
    {
        let prev = self.value.take();
        self.value = Some(value);
        prev
    }
}

impl<T> WithInnerValue<T> for Slot<T> {
    open spec fn spec_inner(&self) -> Option<T> {
        self.value
    }

    fn with_inner_value(&mut self) -> (r: Option<T>) {
        self.value.take()
    }
}

} // verus!
