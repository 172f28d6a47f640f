//! A consuming variant of the lazy-concatenation buffer.
//!
//! Every operation takes the buffer by value, and a phantom type-state
//! records whether fragments may still be pending: the root can only be
//! read out of a buffer in the [`Normalized`] state, so a caller cannot
//! observe a partially-joined value by mistake.

use vstd::prelude::*;
use core::marker::PhantomData;
use crate::concat::Concat;
use crate::length::Length;
use crate::dump::{frags_dump, lemma_frags_dump_snoc, DebugDump};
use crate::parts::{concat_all, lemma_concat_all_snoc, lemma_concat_all_take_succ};
use vstd::string::StringExecFns;

verus! {

/// Type-state marker: no fragment is pending.
pub struct Normalized;

/// Type-state marker: fragments may be pending.
pub struct Fragmented;

/// One pending unit of data: an owned container, directly or boxed.
pub enum Fragment<T> {
    /// An owned fragment.
    Value(T),
    /// A boxed owned fragment.
    Boxed(Box<T>),
}

impl<T: Length> Fragment<T> {
    /// The contents of the fragment.
    pub open spec fn frag_items(&self) -> Seq<T::Item> {
        match self {
            Fragment::Value(x) => x.items(),
            Fragment::Boxed(b) => b.items(),
        }
    }

    /// Move the fragment's container out.
    fn get(self) -> (r: T)
        ensures
            r.items() == self.frag_items(),
    {
        match self {
            Fragment::Value(x) => x,
            Fragment::Boxed(b) => *b,
        }
    }
}

/// A deferred-concatenation buffer whose operations consume it, carrying a
/// type-state `F` that is [`Normalized`] exactly when the constructor or
/// [`LazyConcat::normalize`] guarantees nothing is pending.
pub struct LazyConcat<T, F = Fragmented> {
    root: T,
    fragments: Vec<Fragment<T>>,
    phantom: PhantomData<F>,
}

/// A buffer known to be fully normalized.
pub type NormalizedConcat<T> = LazyConcat<T, Normalized>;

impl<T: Concat, F> LazyConcat<T, F> {
    /// The contents of the already-joined root.
    pub closed spec fn root_items(&self) -> Seq<T::Item> {
        self.root.items()
    }

    /// The contents of each pending fragment, in append order.
    pub closed spec fn pending(&self) -> Seq<Seq<T::Item>> {
        self.fragments@.map_values(|f: Fragment<T>| f.frag_items())
    }

    /// The logical value of the whole buffer: root, then every pending
    /// fragment, joined in order.
    pub open spec fn logical(&self) -> Seq<T::Item> {
        self.root_items() + concat_all(self.pending())
    }
}

impl<T: Concat> LazyConcat<T, Fragmented> {
    /// Construct a new buffer from an initial owned container. Nothing is
    /// pending yet, so the buffer starts in the [`Normalized`] state.
    pub fn new(initial: T) -> (r: LazyConcat<T, Normalized>)
        ensures
            r.root_items() == initial.items(),
            r.pending().len() == 0,
            r.logical() == initial.items(),
    {
        let r = LazyConcat { root: initial, fragments: Vec::new(), phantom: PhantomData };
        proof {
            assert(r.pending() =~= Seq::<Seq<T::Item>>::empty());
            assert(r.logical() =~= r.root_items());
        }
        r
    }

    /// Construct a new buffer, preallocating room for the expected number of
    /// fragments so that appending them does not reallocate.
    pub fn expecting_num_fragments(initial: T, n: usize) -> (r: LazyConcat<T, Normalized>)
        ensures
            r.root_items() == initial.items(),
            r.pending().len() == 0,
            r.logical() == initial.items(),
    {
        let r = LazyConcat { root: initial, fragments: Vec::with_capacity(n), phantom: PhantomData };
        proof {
            assert(r.pending() =~= Seq::<Seq<T::Item>>::empty());
            assert(r.logical() =~= r.root_items());
        }
        r
    }

    /// Concatenate every pending fragment onto the root, in order, and
    /// return the buffer in the [`Normalized`] state.
    pub fn normalize(self) -> (r: LazyConcat<T, Normalized>)
        ensures
            r.root_items() == self.logical(),
            r.pending().len() == 0,
            r.logical() == self.logical(),
    {
        let ghost pre = self;
        let LazyConcat { mut root, mut fragments, phantom: _ } = self;
        let n = fragments.len();
        let mut k: usize = 0;
        while k < n
            invariant
                k <= n,
                n == pre.fragments@.len(),
                fragments@ == pre.fragments@.skip(k as int),
                root.items() == pre.root_items() + concat_all(pre.pending().take(k as int)),
            decreases n - k,
        {
            proof {
                assert(fragments@[0] == pre.fragments@[k as int]);
            }
            let frag = fragments.remove(0);
            let ghost frag_items = frag.frag_items();
            root.append_frag(frag.get());
            proof {
                assert(fragments@ =~= pre.fragments@.skip(k as int + 1));
                assert(frag_items == pre.pending()[k as int]);
                lemma_concat_all_take_succ(pre.pending(), k as int);
            }
            k = k + 1;
        }
        let r = LazyConcat { root, fragments, phantom: PhantomData };
        proof {
            assert(pre.pending().take(n as int) =~= pre.pending());
            assert(r.fragments@ =~= Seq::<Fragment<T>>::empty());
            assert(r.pending() =~= Seq::<Seq<T::Item>>::empty());
            assert(concat_all(Seq::<Seq<T::Item>>::empty()) =~= Seq::<T::Item>::empty());
            assert(r.logical() =~= r.root_items());
        }
        r
    }
}

impl<T: Concat> LazyConcat<T, Normalized> {
    /// Consume the normalized buffer and return the owned root.
    pub fn done(self) -> (r: T)
        ensures
            r.items() == self.root_items(),
    {
        self.root
    }

    /// Read the normalized root.
    pub fn get(&self) -> (r: &T)
        ensures
            r.items() == self.root_items(),
    {
        &self.root
    }
}

impl<T: Concat, F> LazyConcat<T, F> {
    /// Re-tag the buffer with another type-state without touching its data.
    fn change_type<X>(self) -> (r: LazyConcat<T, X>)
        ensures
            r.root_items() == self.root_items(),
            r.pending() == self.pending(),
    {
        let r = LazyConcat { root: self.root, fragments: self.fragments, phantom: PhantomData };
        proof {
            assert(r.pending() =~= self.pending());
        }
        r
    }

    /// Lazily concatenate an owned fragment. Nothing is joined until
    /// [`LazyConcat::normalize`]; the result is in the [`Fragmented`] state.
    pub fn concat(self, fragment: T) -> (r: LazyConcat<T, Fragmented>)
        ensures
            r.root_items() == self.root_items(),
            r.pending() == self.pending().push(fragment.items()),
            r.logical() == self.logical() + fragment.items(),
    {
        let ghost pre = self;
        let ghost frag_items = fragment.items();
        let mut buf = self.change_type::<Fragmented>();
        buf.fragments.push(Fragment::Value(fragment));
        proof {
            assert(buf.pending() =~= pre.pending().push(frag_items));
            lemma_concat_all_snoc(pre.pending(), frag_items);
            assert(pre.root_items() + (concat_all(pre.pending()) + frag_items) =~= (
            pre.root_items() + concat_all(pre.pending())) + frag_items);
        }
        buf
    }

    /// Lazily concatenate a boxed fragment. Nothing is joined until
    /// [`LazyConcat::normalize`]; the result is in the [`Fragmented`] state.
    pub fn concat_boxed(self, fragment: Box<T>) -> (r: LazyConcat<T, Fragmented>)
        ensures
            r.root_items() == self.root_items(),
            r.pending() == self.pending().push(fragment.items()),
            r.logical() == self.logical() + fragment.items(),
    {
        let ghost pre = self;
        let ghost frag_items = fragment.items();
        let mut buf = self.change_type::<Fragmented>();
        buf.fragments.push(Fragment::Boxed(fragment));
        proof {
            assert(buf.pending() =~= pre.pending().push(frag_items));
            lemma_concat_all_snoc(pre.pending(), frag_items);
            assert(pre.root_items() + (concat_all(pre.pending()) + frag_items) =~= (
            pre.root_items() + concat_all(pre.pending())) + frag_items);
        }
        buf
    }
}

impl<T: DebugDump + Length> DebugDump for Fragment<T> {
    open spec fn dump(&self) -> Seq<char> {
        match self {
            Fragment::Value(x) => x.dump(),
            Fragment::Boxed(b) => b.dump(),
        }
    }

    fn debug_dump(&self) -> (r: String) {
        match self {
            Fragment::Value(x) => x.debug_dump(),
            Fragment::Boxed(b) => b.debug_dump(),
        }
    }
}

impl<T: Concat + DebugDump, F> LazyConcat<T, F> {
    /// What the structural dump of the buffer shows: a separator, the root,
    /// then each pending fragment behind its own separator, in order.
    pub closed spec fn dump_of(&self) -> Seq<char> {
        "LazyConcat { "@ + seq![',', ' '] + self.root.dump() + frags_dump(self.fragments@)
            + " }"@
    }

    /// Render the buffer structurally: the root first, then every pending
    /// fragment, in append order. Bookkeeping output only; the buffer is
    /// not changed.
    pub fn debug_string(&self) -> (r: String)
        ensures
            r@ == self.dump_of(),
    {
        let mut out = "LazyConcat { ".to_owned();
        out.append(", ");
        let root_part = self.root.debug_dump();
        out.append(root_part.as_str());
        proof {
            reveal_strlit(", ");
            assert(", "@ =~= seq![',', ' ']);
            assert(frags_dump(self.fragments@.take(0)) =~= Seq::<char>::empty());
            assert(out@ =~= "LazyConcat { "@ + seq![',', ' '] + self.root.dump() + frags_dump(
                self.fragments@.take(0),
            ));
        }
        let n = self.fragments.len();
        let mut i: usize = 0;
        while i < n
            invariant
                n == self.fragments@.len(),
                i <= n,
                out@ == "LazyConcat { "@ + seq![',', ' '] + self.root.dump() + frags_dump(
                    self.fragments@.take(i as int),
                ),
            decreases n - i,
        {
            out.append(", ");
            let piece = self.fragments[i].debug_dump();
            out.append(piece.as_str());
            proof {
                reveal_strlit(", ");
                assert(", "@ =~= seq![',', ' ']);
                lemma_frags_dump_snoc(self.fragments@, i as int);
                assert((("LazyConcat { "@ + seq![',', ' '] + self.root.dump() + frags_dump(
                    self.fragments@.take(i as int),
                )) + seq![',', ' ']) + self.fragments@[i as int].dump() =~= "LazyConcat { "@
                    + seq![',', ' '] + self.root.dump() + (frags_dump(
                    self.fragments@.take(i as int),
                ) + seq![',', ' '] + self.fragments@[i as int].dump()));
            }
            i = i + 1;
        }
        out.append(" }");
        proof {
            assert(self.fragments@.take(n as int) =~= self.fragments@);
        }
        out
    }
}

impl LazyConcat<String, Normalized> {
    /// The normalized value as plain text.
    pub fn display_string(&self) -> (r: String)
        ensures
            r@ == self.root_items(),
    {
        self.root.clone()
    }
}

} // verus!
