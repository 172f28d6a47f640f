use vstd::prelude::*;
use crate::length::Length;
use vstd::string::StrSliceExecFns;

verus! {

/// The upper bound of a [`SliceRange`].
#[derive(Clone, Copy)]
pub enum SliceEnd {
    /// Slice up to, but not including, this index.
    Excluded(usize),
    /// Slice up to and including this index.
    Included(usize),
    /// Slice to the end of the container.
    Unbounded,
}

/// An element range over a container: a starting index and an upper bound.
#[derive(Clone, Copy)]
pub struct SliceRange {
    /// The first element index of the range.
    pub start: usize,
    /// The upper bound of the range.
    pub end: SliceEnd,
}

impl SliceRange {
    /// The resolved exclusive end index of the range, for a container of
    /// `len` elements.
    pub open spec fn end_index(&self, len: nat) -> int {
        match self.end {
            SliceEnd::Excluded(n) => n as int,
            SliceEnd::Included(n) => n + 1,
            SliceEnd::Unbounded => len as int,
        }
    }

    /// Whether the range lies within a container of `len` elements.
    pub open spec fn valid(&self, len: nat) -> bool {
        self.start <= self.end_index(len) <= len
    }

    /// The range `start .. end`.
    pub fn bounded(start: usize, end: usize) -> (r: Self)
        ensures
            r.start == start,
            r.end == SliceEnd::Excluded(end),
    {
        SliceRange { start, end: SliceEnd::Excluded(end) }
    }

    /// The range `start ..= end`.
    pub fn inclusive(start: usize, end: usize) -> (r: Self)
        ensures
            r.start == start,
            r.end == SliceEnd::Included(end),
    {
        SliceRange { start, end: SliceEnd::Included(end) }
    }

    /// The range `start ..`.
    pub fn from_start(start: usize) -> (r: Self)
        ensures
            r.start == start,
            r.end == SliceEnd::Unbounded,
    {
        SliceRange { start, end: SliceEnd::Unbounded }
    }

    /// The full range `..`.
    pub fn full() -> (r: Self)
        ensures
            r.start == 0,
            r.end == SliceEnd::Unbounded,
    {
        SliceRange { start: 0, end: SliceEnd::Unbounded }
    }
}

/// Resolve a range against a container of `len` elements into a concrete
/// pair of start and (exclusive) end indices.
fn bounds(range: SliceRange, len: usize) -> (r: (usize, usize))
    requires
        range.valid(len as nat),
    ensures
        r.0 == range.start,
        r.1 == range.end_index(len as nat),
        r.0 <= r.1 <= len,
{
    let start = range.start;
    let end = match range.end {
        SliceEnd::Excluded(n) => n,
        SliceEnd::Included(n) => n + 1,
        SliceEnd::Unbounded => len,
    };
    (start, end)
}

/// A container from which a sub-container can be copied out by element
/// range. The range must lie within the container; `valid` says exactly
/// when it does.
pub trait Sliceable: Length + Sized {
    /// Copy out the elements of `range`, in order.
    fn get_slice(&self, range: SliceRange) -> (r: Self)
        requires
            range.valid(self.items().len()),
        ensures
            r.items() == self.items().subrange(
                range.start as int,
                range.end_index(self.items().len()),
            ),
    ;
}

/// Slicing text works in character positions; finding them in the
/// underlying bytes walks the string once.
impl Sliceable for String {
    fn get_slice(&self, range: SliceRange) -> (r: Self) {
        let len = self.as_str().unicode_len();
        let (start, end) = bounds(range, len);
        self.as_str().substring_char(start, end).to_owned()
    }
}

impl<T: Copy> Sliceable for Vec<T> {
    fn get_slice(&self, range: SliceRange) -> (r: Self) {
        let len = Vec::len(self);
        let (start, end) = bounds(range, len);
        let mut out: Vec<T> = Vec::new();
        let mut i = start;
        while i < end
            invariant
                start <= i <= end,
                end <= self@.len(),
                out@ == self@.subrange(start as int, i as int),
            decreases end - i,
        {
            out.push(self[i]);
            proof {
                assert(self@.subrange(start as int, i as int + 1) =~= self@.subrange(
                    start as int,
                    i as int,
                ).push(self@[i as int]));
            }
            i = i + 1;
        }
        out
    }
}

} // verus!
