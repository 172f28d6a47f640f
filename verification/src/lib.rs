//! Lazy concatenation of `String`s, `Vec`s and other concatenable containers.
//!
//! A [`LazyConcat`] owns a base container (the root) and keeps an ordered list
//! of pending fragments. Fragments are never joined onto the root until the
//! buffer is fully normalized with [`LazyConcat::normalize`] or partially
//! normalized with [`LazyConcat::normalize_to_len`], so a long chain of
//! appends costs one push each rather than one full copy each.

use vstd::prelude::*;
use vstd::string::{StrSliceExecFns, StringExecFns};
use vstd::utf8::{encode_scalar, encode_utf8};

mod concat;
pub mod consuming;
mod dump;
mod length;
mod parts;
mod sliceable;

pub use concat::Concat;
pub use dump::DebugDump;
pub use length::Length;
pub use sliceable::{SliceEnd, SliceRange, Sliceable};
pub use parts::{concat_all, eager_fold, fold_count, prefix_len};
use parts::{
    lemma_concat_all_len, lemma_concat_all_snoc, lemma_concat_all_split,
    lemma_concat_all_take_succ, lemma_fold_count_unique, lemma_parts_of_push,
    lemma_parts_of_skip, lemma_prefix_len_is_take_len, lemma_prefix_len_monotonic, parts_of,
};

verus! {

/// A deferred-concatenation buffer: an owned root plus pending fragments.
///
/// The logical value of the buffer is the root's contents followed by every
/// pending fragment's contents, in append order.
pub struct LazyConcat<T> {
    root: T,
    fragments: Vec<T>,
}

impl<T: Concat> LazyConcat<T> {
    /// The contents of the already-joined root.
    pub closed spec fn root_items(&self) -> Seq<T::Item> {
        self.root.items()
    }

    /// The contents of each pending fragment, in append order.
    pub closed spec fn pending(&self) -> Seq<Seq<T::Item>> {
        parts_of(self.fragments@)
    }

    /// The logical value of the whole buffer: root, then every pending
    /// fragment, joined in order.
    pub open spec fn logical(&self) -> Seq<T::Item> {
        self.root_items() + concat_all(self.pending())
    }

    /// Construct a new [`LazyConcat`]. The initial value should be an owned
    /// container, such as a `Vec` or a `String`. It can be empty but does not
    /// have to be.
    pub fn new(initial: T) -> (r: Self)
        ensures
            r.root_items() == initial.items(),
            r.pending().len() == 0,
            r.logical() == initial.items(),
    {
        let r = LazyConcat { root: initial, fragments: Vec::new() };
        proof {
            assert(r.pending() =~= Seq::<Seq<T::Item>>::empty());
            assert(r.logical() =~= r.root_items());
        }
        r
    }

    /// Construct a new [`LazyConcat`], preallocating room for the expected
    /// number of fragments so that appending them does not reallocate.
    pub fn expecting_num_fragments(initial: T, n: usize) -> (r: Self)
        ensures
            r.root_items() == initial.items(),
            r.pending().len() == 0,
            r.logical() == initial.items(),
    {
        let r = LazyConcat { root: initial, fragments: Vec::with_capacity(n) };
        proof {
            assert(r.pending() =~= Seq::<Seq<T::Item>>::empty());
            assert(r.logical() =~= r.root_items());
        }
        r
    }

    /// What a full normalization does: the logical value is kept, nothing is
    /// left pending, and the root now materializes the whole value.
    pub open spec fn normalize_post(pre: Self, post: Self) -> bool {
        &&& post.logical() == pre.logical()
        &&& post.pending().len() == 0
        &&& post.root_items() == pre.logical()
    }

    /// Fold the first `count` pending fragments onto the root, in order.
    fn normalize_range(&mut self, count: usize)
        requires
            count <= old(self).pending().len(),
        ensures
            final(self).root_items() == old(self).root_items() + concat_all(
                old(self).pending().take(count as int),
            ),
            final(self).pending() == old(self).pending().skip(count as int),
            final(self).logical() == old(self).logical(),
    {
        let ghost pre = *self;
        let mut k: usize = 0;
        while k < count
            invariant
                k <= count,
                count <= pre.fragments@.len(),
                self.fragments@ == pre.fragments@.skip(k as int),
                self.root_items() == pre.root_items() + concat_all(pre.pending().take(k as int)),
            decreases count - k,
        {
            proof {
                assert(self.fragments@[0] == pre.fragments@[k as int]);
            }
            let frag = self.fragments.remove(0);
            let ghost frag_items = frag.items();
            self.root.append_frag(frag);
            proof {
                assert(self.fragments@ =~= pre.fragments@.skip(k as int + 1));
                assert(frag_items == pre.pending()[k as int]);
                lemma_concat_all_take_succ(pre.pending(), k as int);
            }
            k = k + 1;
        }
        proof {
            lemma_parts_of_skip(pre.fragments@, count as int);
            lemma_concat_all_split(pre.pending(), count as int);
            assert((pre.root_items() + concat_all(pre.pending().take(count as int))) + concat_all(
                pre.pending().skip(count as int),
            ) =~= pre.root_items() + (concat_all(pre.pending().take(count as int)) + concat_all(
                pre.pending().skip(count as int),
            )));
        }
    }

    /// Fully normalize the buffer by concatenating every pending fragment
    /// onto the root, in order.
    pub fn normalize(&mut self)
        ensures
            Self::normalize_post(*old(self), *final(self)),
    {
        let n = self.fragments.len();
        self.normalize_range(n);
        proof {
            assert(old(self).pending().take(n as int) =~= old(self).pending());
            assert(old(self).pending().skip(n as int) =~= Seq::<Seq<T::Item>>::empty());
            assert(concat_all(Seq::<Seq<T::Item>>::empty()) =~= Seq::<T::Item>::empty());
        }
    }

    /// What a partial normalization to `target` elements does. When the
    /// logical value holds at least `target` elements, exactly the smallest
    /// prefix of pending fragments that brings the root's length to `target`
    /// or beyond is folded (none when the root already suffices) and the new
    /// root length is returned; otherwise nothing changes and the call
    /// reports the shortfall with `None`. The logical value is never changed.
    pub open spec fn normalize_to_len_post(
        pre: Self,
        post: Self,
        target: nat,
        r: Option<usize>,
    ) -> bool {
        let c = fold_count(pre.pending(), pre.root_items().len(), target) as int;
        &&& post.logical() == pre.logical()
        &&& (r is Some <==> pre.logical().len() >= target)
        &&& (pre.logical().len() >= target ==> {
            &&& post.root_items() == pre.root_items() + concat_all(pre.pending().take(c))
            &&& post.pending() == pre.pending().skip(c)
            &&& r->0 == post.root_items().len()
        })
        &&& (pre.root_items().len() >= target ==> post == pre)
        &&& (pre.logical().len() < target ==> post == pre)
    }

    /// Normalize just enough fragments that at least `len` elements are
    /// materialized in the root, and return the root's resulting length.
    /// When the whole buffer holds fewer than `len` elements, no work is done
    /// and `None` is returned.
    pub fn normalize_to_len(&mut self, len: usize) -> (r: Option<usize>)
        ensures
            Self::normalize_to_len_post(*old(self), *final(self), len as nat, r),
    {
        let root_len = self.root.len();
        if root_len >= len {
            proof {
                assert(old(self).pending().take(0) =~= Seq::<Seq<T::Item>>::empty());
                assert(concat_all(Seq::<Seq<T::Item>>::empty()) =~= Seq::<T::Item>::empty());
                assert(self.root_items() + concat_all(self.pending().take(0)) =~= self
                    .root_items());
                assert(self.pending().skip(0) =~= self.pending());
            }
            return Some(root_len);
        }
        let needed = len - root_len;
        let ghost pre = *self;
        let mut acc: usize = 0;
        let mut idx: usize = 0;
        while idx < self.fragments.len()
            invariant
                pre == *old(self),
                *self == pre,
                root_len == pre.root_items().len(),
                root_len < len,
                needed == len - root_len,
                idx <= pre.fragments@.len(),
                acc == prefix_len(pre.pending(), idx as int),
                acc < needed,
            decreases pre.fragments@.len() - idx,
        {
            let fl = self.fragments[idx].len();
            proof {
                assert(fl == pre.pending()[idx as int].len());
            }
            if fl >= needed - acc {
                proof {
                    assert(prefix_len(pre.pending(), idx as int + 1) == acc + fl);
                    assert forall|j: int|
                        0 <= j < idx as int + 1 implies root_len + prefix_len(
                        pre.pending(),
                        j,
                    ) < len by {
                        lemma_prefix_len_monotonic(pre.pending(), j, idx as int);
                    }
                    lemma_fold_count_unique(
                        pre.pending(),
                        pre.root_items().len(),
                        len as nat,
                        idx as int + 1,
                    );
                }
                self.normalize_range(idx + 1);
                let new_len = self.root.len();
                proof {
                    lemma_prefix_len_is_take_len(pre.pending(), idx as int + 1);
                    lemma_concat_all_split(pre.pending(), idx as int + 1);
                }
                return Some(new_len);
            }
            acc = acc + fl;
            idx = idx + 1;
        }
        proof {
            lemma_concat_all_len(pre.pending());
        }
        None
    }

    /// The number of elements already materialized in the root: the maximum
    /// length of a slice that can be taken without normalizing further.
    pub fn get_normalized_len(&self) -> (n: usize)
        ensures
            n == self.root_items().len(),
    {
        self.root.len()
    }

    /// Whether taking `range` as a slice first needs more normalization.
    ///
    /// A bounded range needs normalization while the root does not yet cover
    /// its upper bound; an unbounded range needs normalization while any
    /// fragment is still pending.
    pub fn slice_needs_normalization(&mut self, range: SliceRange) -> (b: bool)
        ensures
            *final(self) == *old(self),
            b == match range.end {
                SliceEnd::Excluded(n) => old(self).root_items().len() < n,
                SliceEnd::Included(n) => old(self).root_items().len() <= n,
                SliceEnd::Unbounded => old(self).pending().len() != 0,
            },
    {
        match range.end {
            SliceEnd::Excluded(n) => self.root.len() < n,
            SliceEnd::Included(n) => self.root.len() <= n,
            SliceEnd::Unbounded => self.fragments.len() != 0,
        }
    }

    /// Law: once [`LazyConcat::slice_needs_normalization`] answers `false`
    /// for a range whose start does not pass its upper bound, the range
    /// lies within the root, so [`LazyConcat::get_slice`] accepts it.
    pub proof fn lemma_covered_range_is_sliceable(self, range: SliceRange)
        requires
            !(match range.end {
                SliceEnd::Excluded(n) => self.root_items().len() < n,
                SliceEnd::Included(n) => self.root_items().len() <= n,
                SliceEnd::Unbounded => self.pending().len() != 0,
            }),
            range.start <= range.end_index(self.root_items().len()),
        ensures
            range.valid(self.root_items().len()),
    {
    }

    /// Split the buffer into its already-normalized root and a write-only
    /// handle that still accepts new fragments. The caller may freely read
    /// or slice the returned root while appending through the handle, and
    /// can rebuild the buffer afterwards with [`LazyConcat::reunite`].
    pub fn split_normalized(self) -> (r: (T, ConcatOnly<T>))
        ensures
            r.0.items() == self.root_items(),
            r.1.pending() == self.pending(),
    {
        (self.root, ConcatOnly { fragments: self.fragments })
    }

    /// Reassemble a buffer from a root and the write-only fragment handle
    /// produced by [`LazyConcat::split_normalized`].
    pub fn reunite(root: T, handle: ConcatOnly<T>) -> (r: Self)
        ensures
            r.root_items() == root.items(),
            r.pending() == handle.pending(),
    {
        LazyConcat { root, fragments: handle.fragments }
    }

    /// Lazily concatenate a fragment. No container data is joined until the
    /// next call of [`LazyConcat::normalize`] or
    /// [`LazyConcat::normalize_to_len`].
    pub fn concat(&mut self, fragment: T)
        ensures
            final(self).root_items() == old(self).root_items(),
            final(self).pending() == old(self).pending().push(fragment.items()),
            final(self).logical() == old(self).logical() + fragment.items(),
    {
        let ghost frag_snap = fragment;
        let ghost frag_items = fragment.items();
        let ghost pre = *self;
        self.fragments.push(fragment);
        proof {
            lemma_parts_of_push(pre.fragments@, frag_snap);
            lemma_concat_all_snoc(pre.pending(), frag_items);
            assert(pre.root_items() + (concat_all(pre.pending()) + frag_items) =~= (
            pre.root_items() + concat_all(pre.pending())) + frag_items);
        }
    }

    /// Lazily concatenate a fragment, consuming and returning the buffer so
    /// that calls can be chained.
    pub fn and_concat(self, fragment: T) -> (r: Self)
        ensures
            r.root_items() == self.root_items(),
            r.pending() == self.pending().push(fragment.items()),
            r.logical() == self.logical() + fragment.items(),
    {
        let mut buf = self;
        buf.concat(fragment);
        buf
    }

    /// Consume the buffer, concatenate every pending fragment and return the
    /// owned, fully normalized value.
    pub fn done(self) -> (r: T)
        ensures
            r.items() == self.logical(),
    {
        let mut buf = self;
        buf.normalize();
        buf.root
    }

    /// Law: normalizing and then reading the root yields exactly the value
    /// an eager caller would have built by applying the concatenation
    /// capability directly to the initial root and then to every appended
    /// fragment, front to back.
    pub proof fn lemma_normalize_is_eager_concat(pre: Self, post: Self)
        requires
            Self::normalize_post(pre, post),
        ensures
            post.root_items() == eager_fold(pre.root_items(), pre.pending()),
    {
        parts::lemma_eager_fold_is_concat_all(pre.root_items(), pre.pending());
    }

    /// Law: normalizing an already-normalized buffer is a no-op. Two
    /// normalizations in a row leave the same observable value as one, and
    /// nothing is pending after either.
    pub proof fn lemma_normalize_idempotent(pre: Self, mid: Self, post: Self)
        requires
            Self::normalize_post(pre, mid),
            Self::normalize_post(mid, post),
        ensures
            mid.pending().len() == 0,
            post.pending().len() == 0,
            post.root_items() == mid.root_items(),
            post.logical() == mid.logical(),
    {
        assert(mid.pending() =~= Seq::<Seq<T::Item>>::empty());
        assert(concat_all(Seq::<Seq<T::Item>>::empty()) =~= Seq::<T::Item>::empty());
        assert(mid.logical() =~= mid.root_items());
    }

    /// Law: a partial normalization that succeeds folds the smallest prefix
    /// of pending fragments that brings the root's length to the target or
    /// beyond — folding any fewer would leave the root short — and reports
    /// exactly the resulting root length.
    pub proof fn lemma_normalize_to_len_minimal(
        pre: Self,
        post: Self,
        target: nat,
        r: Option<usize>,
    )
        requires
            Self::normalize_to_len_post(pre, post, target, r),
            pre.logical().len() >= target,
        ensures
            post.root_items().len() >= target,
            r is Some,
            r->0 == post.root_items().len(),
            forall|j: int|
                0 <= j < fold_count(pre.pending(), pre.root_items().len(), target)
                    ==> pre.root_items().len() + prefix_len(pre.pending(), j) < target,
    {
        let c = fold_count(pre.pending(), pre.root_items().len(), target);
        parts::lemma_fold_count_minimal(pre.pending(), pre.root_items().len(), target);
        lemma_prefix_len_is_take_len(pre.pending(), c as int);
    }

    /// Law: after a successful partial normalization, asking again for the
    /// same or any smaller target folds nothing, changes nothing, and
    /// reports the same root length.
    pub proof fn lemma_normalize_to_len_noop(
        pre: Self,
        mid: Self,
        post: Self,
        first_target: nat,
        second_target: nat,
        r1: Option<usize>,
        r2: Option<usize>,
    )
        requires
            Self::normalize_to_len_post(pre, mid, first_target, r1),
            Self::normalize_to_len_post(mid, post, second_target, r2),
            pre.logical().len() >= first_target,
            second_target <= first_target,
        ensures
            post == mid,
            r2 is Some,
            r2->0 == mid.root_items().len(),
    {
        Self::lemma_normalize_to_len_minimal(pre, mid, first_target, r1);
    }
}

impl<T: Concat + Sliceable> LazyConcat<T> {
    /// Copy a slice out of the already-normalized root. The caller must
    /// first have ensured, with [`LazyConcat::normalize_to_len`] if needed,
    /// that the root covers the range's upper bound.
    pub fn get_slice(&self, range: SliceRange) -> (r: T)
        requires
            range.valid(self.root_items().len()),
        ensures
            r.items() == self.root_items().subrange(
                range.start as int,
                range.end_index(self.root_items().len()),
            ),
    {
        self.root.get_slice(range)
    }
}

/// Append every character of `s` to `out`.
fn push_chars(out: &mut Vec<char>, s: &str)
    ensures
        final(out)@ == old(out)@ + s@,
{
    let n = s.unicode_len();
    proof {
        assert(old(out)@ + s@.take(0) =~= old(out)@);
    }
    let mut i: usize = 0;
    while i < n
        invariant
            n == s@.len(),
            i <= n,
            out@ == old(out)@ + s@.take(i as int),
        decreases n - i,
    {
        let c = s.get_char(i);
        out.push(c);
        proof {
            assert(s@.take(i as int + 1) =~= s@.take(i as int).push(s@[i as int]));
            assert(old(out)@ + s@.take(i as int).push(s@[i as int]) =~= (old(out)@ + s@.take(
                i as int,
            )).push(s@[i as int]));
        }
        i = i + 1;
    }
    proof {
        assert(s@.take(n as int) =~= s@);
    }
}

/// Copy every element of `src` onto the back of `out`.
fn push_items<I: Copy>(out: &mut Vec<I>, src: &Vec<I>)
    ensures
        final(out)@ == old(out)@ + src@,
{
    proof {
        assert(old(out)@ + src@.take(0) =~= old(out)@);
    }
    let n = src.len();
    let mut i: usize = 0;
    while i < n
        invariant
            n == src@.len(),
            i <= n,
            out@ == old(out)@ + src@.take(i as int),
        decreases n - i,
    {
        out.push(src[i]);
        proof {
            assert(src@.take(i as int + 1) =~= src@.take(i as int).push(src@[i as int]));
            assert(old(out)@ + src@.take(i as int).push(src@[i as int]) =~= (old(out)@ + src@.take(
                i as int,
            )).push(src@[i as int]));
        }
        i = i + 1;
    }
    proof {
        assert(src@.take(n as int) =~= src@);
    }
}

/// Encoding characters to UTF-8 proceeds character by character, so the
/// encoding of a concatenation is the concatenation of the encodings.
proof fn lemma_encode_utf8_concat(a: Seq<char>, b: Seq<char>)
    ensures
        encode_utf8(a + b) == encode_utf8(a) + encode_utf8(b),
    decreases a.len(),
{
    if a.len() == 0 {
        assert(a + b =~= b);
        assert(encode_utf8(a) =~= Seq::<u8>::empty());
        assert(encode_utf8(a) + encode_utf8(b) =~= encode_utf8(b));
    } else {
        lemma_encode_utf8_concat(a.drop_first(), b);
        assert((a + b).drop_first() =~= a.drop_first() + b);
        assert((a + b)[0] == a[0]);
        assert(encode_scalar(a[0] as u32) + (encode_utf8(a.drop_first()) + encode_utf8(b)) =~= (
        encode_scalar(a[0] as u32) + encode_utf8(a.drop_first())) + encode_utf8(b));
    }
}

impl LazyConcat<String> {
    /// The characters of the buffer's logical value, in order: first the
    /// root's, then each pending fragment's. The buffer is read as it
    /// stands; nothing is normalized.
    pub fn chars(&self) -> (r: Vec<char>)
        ensures
            r@ == self.logical(),
    {
        let mut out: Vec<char> = Vec::new();
        push_chars(&mut out, self.root.as_str());
        proof {
            assert(out@ =~= self.root_items() + concat_all(self.pending().take(0)));
        }
        let mut idx: usize = 0;
        while idx < self.fragments.len()
            invariant
                idx <= self.fragments@.len(),
                out@ == self.root_items() + concat_all(self.pending().take(idx as int)),
            decreases self.fragments@.len() - idx,
        {
            push_chars(&mut out, self.fragments[idx].as_str());
            proof {
                assert(self.fragments@[idx as int]@ == self.pending()[idx as int]);
                lemma_concat_all_take_succ(self.pending(), idx as int);
                assert((self.root_items() + concat_all(self.pending().take(idx as int)))
                    + self.pending()[idx as int] =~= self.root_items() + (concat_all(
                    self.pending().take(idx as int),
                ) + self.pending()[idx as int]));
            }
            idx = idx + 1;
        }
        proof {
            assert(self.pending().take(self.fragments@.len() as int) =~= self.pending());
        }
        out
    }

    /// The UTF-8 bytes of the buffer's logical value, in order: first the
    /// root's, then each pending fragment's. The buffer is read as it
    /// stands; nothing is normalized.
    pub fn bytes(&self) -> (r: Vec<u8>)
        ensures
            r@ == encode_utf8(self.logical()),
    {
        let mut out: Vec<u8> = self.root.as_str().as_bytes_vec();
        proof {
            assert(self.root_items() + concat_all(self.pending().take(0)) =~= self.root_items());
        }
        let mut idx: usize = 0;
        while idx < self.fragments.len()
            invariant
                idx <= self.fragments@.len(),
                out@ == encode_utf8(self.root_items() + concat_all(self.pending().take(idx as int))),
            decreases self.fragments@.len() - idx,
        {
            let mut part = self.fragments[idx].as_str().as_bytes_vec();
            proof {
                assert(self.fragments@[idx as int]@ == self.pending()[idx as int]);
            }
            out.append(&mut part);
            proof {
                let joined = self.root_items() + concat_all(self.pending().take(idx as int));
                lemma_encode_utf8_concat(joined, self.pending()[idx as int]);
                lemma_concat_all_take_succ(self.pending(), idx as int);
                assert(joined + self.pending()[idx as int] =~= self.root_items() + concat_all(
                    self.pending().take(idx as int + 1),
                ));
            }
            idx = idx + 1;
        }
        proof {
            assert(self.pending().take(self.fragments@.len() as int) =~= self.pending());
        }
        out
    }
}

impl<I: Copy> LazyConcat<Vec<I>> {
    /// The elements of the buffer's logical value, copied out in order:
    /// first the root's, then each pending fragment's. The buffer is read
    /// as it stands; nothing is normalized.
    pub fn iter(&self) -> (r: Vec<I>)
        ensures
            r@ == self.logical(),
    {
        let mut out: Vec<I> = Vec::new();
        push_items(&mut out, &self.root);
        proof {
            assert(out@ =~= self.root_items() + concat_all(self.pending().take(0)));
        }
        let mut idx: usize = 0;
        while idx < self.fragments.len()
            invariant
                idx <= self.fragments@.len(),
                out@ == self.root_items() + concat_all(self.pending().take(idx as int)),
            decreases self.fragments@.len() - idx,
        {
            push_items(&mut out, &self.fragments[idx]);
            proof {
                assert(self.fragments@[idx as int]@ == self.pending()[idx as int]);
                lemma_concat_all_take_succ(self.pending(), idx as int);
                assert((self.root_items() + concat_all(self.pending().take(idx as int)))
                    + self.pending()[idx as int] =~= self.root_items() + (concat_all(
                    self.pending().take(idx as int),
                ) + self.pending()[idx as int]));
            }
            idx = idx + 1;
        }
        proof {
            assert(self.pending().take(self.fragments@.len() as int) =~= self.pending());
        }
        out
    }

    /// The elements of the buffer's logical value, as owned copies. With an
    /// owned result this coincides with [`LazyConcat::iter`]; both read the
    /// buffer without normalizing it.
    pub fn into_iter(&self) -> (r: Vec<I>)
        ensures
            r@ == self.logical(),
    {
        self.iter()
    }
}

impl<T: Concat + DebugDump> LazyConcat<T> {
    /// What the structural dump of the buffer shows: the root, then each
    /// pending fragment, in append order.
    pub closed spec fn dump_of(&self) -> Seq<char> {
        "LazyConcat { "@ + self.root.dump() + dump::frags_dump(self.fragments@) + " }"@
    }

    /// Render the buffer structurally: the root first, then every pending
    /// fragment, in append order. Bookkeeping output only; the buffer is
    /// not normalized or otherwise changed.
    pub fn debug_string(&self) -> (r: String)
        ensures
            r@ == self.dump_of(),
    {
        let mut out = "LazyConcat { ".to_owned();
        let root_part = self.root.debug_dump();
        out.append(root_part.as_str());
        proof {
            assert(dump::frags_dump(self.fragments@.take(0)) =~= Seq::<char>::empty());
            assert(out@ =~= "LazyConcat { "@ + self.root.dump() + dump::frags_dump(
                self.fragments@.take(0),
            ));
        }
        let n = self.fragments.len();
        let mut i: usize = 0;
        while i < n
            invariant
                n == self.fragments@.len(),
                i <= n,
                out@ == "LazyConcat { "@ + self.root.dump() + dump::frags_dump(
                    self.fragments@.take(i as int),
                ),
            decreases n - i,
        {
            out.append(", ");
            let piece = self.fragments[i].debug_dump();
            out.append(piece.as_str());
            proof {
                reveal_strlit(", ");
                assert(", "@ =~= seq![',', ' ']);
                dump::lemma_frags_dump_snoc(self.fragments@, i as int);
                assert((("LazyConcat { "@ + self.root.dump() + dump::frags_dump(
                    self.fragments@.take(i as int),
                )) + seq![',', ' ']) + self.fragments@[i as int].dump() =~= "LazyConcat { "@
                    + self.root.dump() + (dump::frags_dump(self.fragments@.take(i as int)) + seq![
                    ',',
                    ' ',
                ] + self.fragments@[i as int].dump()));
            }
            i = i + 1;
        }
        out.append(" }");
        proof {
            assert(self.fragments@.take(n as int) =~= self.fragments@);
        }
        out
    }
}

/// A write-only view onto the pending fragments of a split buffer: new
/// fragments can still be appended lazily, but nothing can be normalized or
/// read, so a slice of the root handed out by
/// [`LazyConcat::split_normalized`] stays meaningful.
pub struct ConcatOnly<T> {
    fragments: Vec<T>,
}

impl<T: Concat> ConcatOnly<T> {
    /// The contents of each pending fragment held by the handle, in order.
    pub closed spec fn pending(&self) -> Seq<Seq<T::Item>> {
        parts_of(self.fragments@)
    }

    /// Lazily concatenate a fragment through the write-only handle.
    pub fn concat(&mut self, fragment: T)
        ensures
            final(self).pending() == old(self).pending().push(fragment.items()),
    {
        let ghost frag_snap = fragment;
        let ghost pre = *self;
        self.fragments.push(fragment);
        proof {
            lemma_parts_of_push(pre.fragments@, frag_snap);
        }
    }
}

} // verus!
