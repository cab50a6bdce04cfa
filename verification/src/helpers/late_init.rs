//! One-shot late initialisation: a slot that is filled once and read afterwards.

use vstd::prelude::*;

verus! {

/// A value that is set once, after construction, and read from then on.
pub struct LateInit<T> {
    data: Option<T>,
}

impl<T> View for LateInit<T> {
    type V = Option<T>;

    closed spec fn view(&self) -> Option<T> {
        self.data
    }
}

impl<T> LateInit<T> {
    /// An empty slot.
    pub fn new() -> (r: Self)
        ensures
            r@ is None,
    {
        Self { data: None }
    }

    /// Fills the slot with `val` and returns it; the slot must still be empty.
    pub fn init(&mut self, val: T) -> (r: &T)
        requires
            old(self)@ is None,
        ensures
            final(self)@ == Some(val),
            *r == val,
    {
        self.data = Some(val);
        self.data.as_ref().unwrap()
    }

    /// The value; the slot must be filled.
    pub fn get(&self) -> (r: &T)
        requires
            self@ is Some,
        ensures
            Some(*r) == self@,
    {
        self.data.as_ref().unwrap()
    }

    /// The value, or `None` while the slot is empty.
    pub fn try_get(&self) -> (r: Option<&T>)
        ensures
            match self@ {
                Some(v) => r matches Some(x) && *x == v,
                None => r is None,
            },
    {
        match &self.data {
            Some(v) => Some(v),
            None => None,
        }
    }
}

} // verus!
