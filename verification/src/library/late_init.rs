//! One-shot late initialisation, with mutable access once filled.

use vstd::prelude::*;

verus! {

/// A value that is set once, after construction, and read from then on.
pub struct LateInit<T> {
    data: Option<T>,
}

impl<T> View for LateInit<T> {
    type V = Option<T>;

    closed spec fn view(&self) -> Option<T> {
        self.data
    }
}

impl<T> LateInit<T> {
    /// An empty slot.
    pub fn new() -> (r: Self)
        ensures
            r@ is None,
    {
        Self { data: None }
    }

    /// Fills the slot with `val` and returns it for changing in place; the slot must still
    /// be empty.
    pub fn init(&mut self, val: T) -> (r: &mut T)
        requires
            old(self)@ is None,
        ensures
            *r == val,
            final(self)@ == Some(*final(r)),
    {
        self.data = Some(val);
        self.data.as_mut().unwrap()
    }

    /// The value; the slot must be filled.
    pub fn get(&self) -> (r: &T)
        requires
            self@ is Some,
        ensures
            Some(*r) == self@,
    {
        self.data.as_ref().unwrap()
    }

    /// The value, for changing it in place; the slot must be filled.
    pub fn get_mut(&mut self) -> (r: &mut T)
        requires
            old(self)@ is Some,
        ensures
            Some(*r) == old(self)@,
            final(self)@ == Some(*final(r)),
    {
        self.data.as_mut().unwrap()
    }

    /// The value, or `None` while the slot is empty.
    pub fn try_get(&self) -> (r: Option<&T>)
        ensures
            match self@ {
                Some(v) => r matches Some(x) && *x == v,
                None => r is None,
            },
    {
        match &self.data {
            Some(v) => Some(v),
            None => None,
        }
    }
}

} // verus!
