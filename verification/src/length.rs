use vstd::prelude::*;
use vstd::string::StrSliceExecFns;

verus! {

/// Capability contract for containers whose contents form a finite sequence
/// of elements. `len` reports the number of elements of that sequence.
pub trait Length {
    /// The element type of the container.
    type Item;

    /// The contents of the container, as a mathematical sequence.
    spec fn items(&self) -> Seq<Self::Item>;

    /// The number of elements held.
    fn len(&self) -> (n: usize)
        ensures
            n == self.items().len(),
    ;

    /// Whether the container holds no elements.
    fn is_empty(&self) -> (b: bool)
        ensures
            b == (self.items().len() == 0),
    {
        self.len() == 0
    }
}

/// Text is modeled character by character: the element of a `String` is the
/// `char`, so lengths and slice positions count characters, not bytes.
impl Length for String {
    type Item = char;

    open spec fn items(&self) -> Seq<char> {
        self@
    }

    fn len(&self) -> (n: usize) {
        self.as_str().unicode_len()
    }
}

impl<T> Length for Vec<T> {
    type Item = T;

    open spec fn items(&self) -> Seq<T> {
        self@
    }

    fn len(&self) -> (n: usize) {
        Vec::len(self)
    }
}

impl Length for str {
    type Item = char;

    open spec fn items(&self) -> Seq<char> {
        self@
    }

    fn len(&self) -> (n: usize) {
        self.unicode_len()
    }
}

impl<T> Length for [T] {
    type Item = T;

    open spec fn items(&self) -> Seq<T> {
        self@
    }

    fn len(&self) -> (n: usize) {
        <[T]>::len(self)
    }
}

} // verus!
