use vstd::prelude::*;
use crate::length::Length;
use vstd::string::StringExecFns;

verus! {

/// Concatenation onto an owned container.
///
/// Implementations are provided for `Vec<T>` and `String`. A fragment of the
/// same container type is joined onto the back of the owned value, so the
/// result's contents are the owned value's contents followed by the
/// fragment's contents.
pub trait Concat: Length + Sized {
    /// Join `other` onto the back of `self`, in place.
    fn append_frag(&mut self, other: Self)
        ensures
            final(self).items() == old(self).items() + other.items(),
    ;

    /// Consume `self` and a fragment and return their concatenation.
    fn concat(self, other: Self) -> (r: Self)
        ensures
            r.items() == self.items() + other.items(),
    {
        let mut joined = self;
        joined.append_frag(other);
        joined
    }
}

impl Concat for String {
    fn append_frag(&mut self, other: Self) {
        self.append(other.as_str());
    }
}

impl<T> Concat for Vec<T> {
    fn append_frag(&mut self, other: Self) {
        let mut tail = other;
        self.append(&mut tail);
    }
}

} // verus!
