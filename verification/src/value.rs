//! A value that owns the rest of its chain.

use vstd::prelude::*;

verus! {

/// A number together with the chain of values that follows it.
#[derive(PartialEq, Debug)]
pub struct Value {
    pub number: isize,
    pub next: Option<Box<Value>>,
}

impl Value {
    /// The sum of the numbers of the whole chain, as a mathematical integer.
    pub open spec fn total(&self) -> int
        decreases self,
    {
        match self.next {
            Some(rest) => rest.total() + self.number,
            None => self.number as int,
        }
    }

    /// Every partial sum, taken from the end of the chain, is an `isize`.
    pub open spec fn fits(&self) -> bool
        decreases self,
    {
        &&& isize::MIN <= self.total() <= isize::MAX
        &&& match self.next {
            Some(rest) => rest.fits(),
            None => true,
        }
    }

    /// Sums the chain. The sum is built from the end of the chain towards
    /// its head, so every partial sum has to be representable.
    pub fn get_total(&self) -> (total: isize)
        requires
            self.fits(),
        ensures
            total == self.total(),
        decreases self,
    {
        match self.next.as_ref() {
            Some(value) => value.get_total() + self.number,
            None => self.number,
        }
    }

    /// Sums the chain, or returns `None` where a partial sum leaves `isize`.
    pub fn checked_total(&self) -> (total: Option<isize>)
        ensures
            total == (if self.fits() {
                Some(self.total() as isize)
            } else {
                None
            }),
            total matches Some(t) ==> t == self.total(),
        decreases self,
    {
        match self.next.as_ref() {
            Some(value) => match value.checked_total() {
                Some(rest) => rest.checked_add(self.number),
                None => None,
            },
            None => Some(self.number),
        }
    }
}

impl Clone for Value {
    /// A copy of the whole chain. The copy shares nothing with the chain
    /// it was made from: a later change of one does not show in the other.
    fn clone(&self) -> (copy: Self)
        ensures
            copy == *self,
        decreases self,
    {
        let next = match self.next.as_ref() {
            Some(rest) => {
                let rest_copy: Value = (**rest).clone();
                Some(Box::new(rest_copy))
            },
            None => None,
        };
        Value { number: self.number, next }
    }
}

} // verus!
