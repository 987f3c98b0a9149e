//! A vector that starts empty and can be filled exactly once.
use vstd::prelude::*;

verus! {

/// Holds no vector until the first `init`, and that one for good: a later
/// `init` leaves it as it is and reports that it did.
pub struct AtomicInitVec<T> {
    items: Option<Vec<T>>,
}

impl<T> AtomicInitVec<T> {
    /// The published items, if any.
    pub closed spec fn view(&self) -> Option<Seq<T>> {
        match self.items {
            Some(v) => Some(v@),
            None => None,
        }
    }

    pub fn new() -> (r: AtomicInitVec<T>)
        ensures
            r@ is None,
    {
        AtomicInitVec { items: None }
    }

    /// Publishes `items` unless a vector was published before; returns
    /// whether these items were published.
    pub fn init(&mut self, items: Vec<T>) -> (r: bool)
        ensures
            r == (old(self)@ is None),
            final(self)@ == if r {
                Some(items@)
            } else {
                old(self)@
            },
    {
        if self.items.is_some() {
            false
        } else {
            self.items = Some(items);
            true
        }
    }

    /// Whether a vector was published.
    pub fn is_initialized(&self) -> (r: bool)
        ensures
            r == (self@ is Some),
    {
        self.items.is_some()
    }

    /// The published items; empty before the first `init`.
    pub fn slice(&self) -> (r: &[T])
        ensures
            r@ == match self@ {
                Some(s) => s,
                None => Seq::empty(),
            },
    {
        match &self.items {
            Some(v) => v.as_slice(),
            None => &[],
        }
    }
}

} // verus!
