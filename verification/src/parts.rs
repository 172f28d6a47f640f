//! Sequence-of-parts model: the mathematical account of joining an ordered
//! list of fragments onto a root, used by the contracts of [`crate::LazyConcat`].

use vstd::prelude::*;
use crate::length::Length;

verus! {

/// The contents of each container in `frags`, in order.
pub open spec fn parts_of<T: Length>(frags: Seq<T>) -> Seq<Seq<T::Item>> {
    frags.map_values(|f: T| f.items())
}

/// All the sequences of `parts` joined into one, in order.
pub open spec fn concat_all<A>(parts: Seq<Seq<A>>) -> Seq<A>
    decreases parts.len(),
{
    if parts.len() == 0 {
        Seq::empty()
    } else {
        parts[0] + concat_all(parts.drop_first())
    }
}

/// The total element count of the first `k` sequences of `parts`.
pub open spec fn prefix_len<A>(parts: Seq<Seq<A>>, k: int) -> nat
    decreases k,
{
    if k <= 0 {
        0
    } else {
        prefix_len(parts, k - 1) + parts[k - 1].len()
    }
}

/// How many leading parts must be joined onto a root that already holds
/// `have` elements before at least `target` elements are materialized.
/// When even all of `parts` does not reach `target`, this counts them all.
pub open spec fn fold_count<A>(parts: Seq<Seq<A>>, have: nat, target: nat) -> nat
    decreases parts.len(),
{
    if have >= target || parts.len() == 0 {
        0
    } else {
        1 + fold_count(parts.drop_first(), (have + parts[0].len()) as nat, target)
    }
}

/// Joining `parts` onto `acc` one part at a time, front to back: the order in
/// which an eager caller would apply the concatenation capability directly.
pub open spec fn eager_fold<A>(acc: Seq<A>, parts: Seq<Seq<A>>) -> Seq<A>
    decreases parts.len(),
{
    if parts.len() == 0 {
        acc
    } else {
        eager_fold(acc + parts[0], parts.drop_first())
    }
}

/// Taking the contents of a suffix of fragments is taking a suffix of the
/// contents.
pub proof fn lemma_parts_of_skip<T: Length>(frags: Seq<T>, k: int)
    requires
        0 <= k <= frags.len(),
    ensures
        parts_of(frags.skip(k)) == parts_of(frags).skip(k),
{
    assert(parts_of(frags.skip(k)) =~= parts_of(frags).skip(k));
}

/// Appending a fragment appends its contents.
pub proof fn lemma_parts_of_push<T: Length>(frags: Seq<T>, frag: T)
    ensures
        parts_of(frags.push(frag)) == parts_of(frags).push(frag.items()),
{
    assert(parts_of(frags.push(frag)) =~= parts_of(frags).push(frag.items()));
}

/// Joining one more part extends the join of a prefix by that part.
pub proof fn lemma_concat_all_take_succ<A>(parts: Seq<Seq<A>>, k: int)
    requires
        0 <= k < parts.len(),
    ensures
        concat_all(parts.take(k + 1)) == concat_all(parts.take(k)) + parts[k],
    decreases k,
{
    if k == 0 {
        let t1 = parts.take(1);
        assert(t1.drop_first() =~= Seq::<Seq<A>>::empty());
        assert(concat_all(Seq::<Seq<A>>::empty()) =~= Seq::<A>::empty());
        assert(parts.take(0) =~= Seq::<Seq<A>>::empty());
        assert(concat_all(t1) == t1[0] + concat_all(t1.drop_first()));
        assert(concat_all(parts.take(1)) =~= concat_all(parts.take(0)) + parts[0]);
    } else {
        lemma_concat_all_take_succ(parts.drop_first(), k - 1);
        assert(parts.take(k + 1).drop_first() =~= parts.drop_first().take(k));
        assert(parts.take(k).drop_first() =~= parts.drop_first().take(k - 1));
        assert(concat_all(parts.take(k + 1)) =~= concat_all(parts.take(k)) + parts[k]);
    }
}

/// Appending one more part to the list appends its contents to the join.
pub proof fn lemma_concat_all_snoc<A>(parts: Seq<Seq<A>>, last: Seq<A>)
    ensures
        concat_all(parts.push(last)) == concat_all(parts) + last,
    decreases parts.len(),
{
    if parts.len() == 0 {
        assert(parts.push(last).drop_first() =~= Seq::<Seq<A>>::empty());
        assert(concat_all(Seq::<Seq<A>>::empty()) =~= Seq::<A>::empty());
        assert(concat_all(parts) =~= Seq::<A>::empty());
        assert(concat_all(parts.push(last)) =~= concat_all(parts) + last);
    } else {
        lemma_concat_all_snoc(parts.drop_first(), last);
        assert(parts.push(last).drop_first() =~= parts.drop_first().push(last));
        assert(concat_all(parts.push(last)) =~= concat_all(parts) + last);
    }
}

/// The join of all parts splits at any point `k` into the join of the first
/// `k` parts followed by the join of the rest.
pub proof fn lemma_concat_all_split<A>(parts: Seq<Seq<A>>, k: int)
    requires
        0 <= k <= parts.len(),
    ensures
        concat_all(parts) == concat_all(parts.take(k)) + concat_all(parts.skip(k)),
    decreases k,
{
    if k == 0 {
        assert(parts.take(0) =~= Seq::<Seq<A>>::empty());
        assert(parts.skip(0) =~= parts);
        assert(concat_all(parts) =~= concat_all(parts.take(0)) + concat_all(parts.skip(0)));
    } else {
        lemma_concat_all_split(parts, k - 1);
        lemma_concat_all_take_succ(parts, k - 1);
        assert(parts.skip(k - 1).drop_first() =~= parts.skip(k));
        assert(concat_all(parts.skip(k - 1)) == parts[k - 1] + concat_all(parts.skip(k)));
        assert(concat_all(parts.take(k - 1)) + (parts[k - 1] + concat_all(parts.skip(k)))
            =~= (concat_all(parts.take(k - 1)) + parts[k - 1]) + concat_all(parts.skip(k)));
    }
}

/// The length of the join of the first `k` parts is the prefix length.
pub proof fn lemma_prefix_len_is_take_len<A>(parts: Seq<Seq<A>>, k: int)
    requires
        0 <= k <= parts.len(),
    ensures
        concat_all(parts.take(k)).len() == prefix_len(parts, k),
    decreases k,
{
    if k == 0 {
        assert(parts.take(0) =~= Seq::<Seq<A>>::empty());
    } else {
        lemma_prefix_len_is_take_len(parts, k - 1);
        lemma_concat_all_take_succ(parts, k - 1);
    }
}

/// The length of the join of all parts is the full prefix length.
pub proof fn lemma_concat_all_len<A>(parts: Seq<Seq<A>>)
    ensures
        concat_all(parts).len() == prefix_len(parts, parts.len() as int),
{
    lemma_prefix_len_is_take_len(parts, parts.len() as int);
    assert(parts.take(parts.len() as int) =~= parts);
}

/// A prefix length decomposes at the front.
pub proof fn lemma_prefix_len_drop_first<A>(parts: Seq<Seq<A>>, k: int)
    requires
        1 <= k <= parts.len(),
    ensures
        prefix_len(parts, k) == parts[0].len() + prefix_len(parts.drop_first(), k - 1),
    decreases k,
{
    if k == 1 {
        assert(prefix_len(parts, 0) == 0);
        assert(prefix_len(parts.drop_first(), 0) == 0);
    } else {
        lemma_prefix_len_drop_first(parts, k - 1);
        assert(parts.drop_first()[k - 2] == parts[k - 1]);
        assert(prefix_len(parts.drop_first(), k - 1) == prefix_len(parts.drop_first(), k - 2)
            + parts.drop_first()[k - 2].len());
    }
}

/// Prefix lengths never decrease as more parts are counted.
pub proof fn lemma_prefix_len_monotonic<A>(parts: Seq<Seq<A>>, j: int, k: int)
    requires
        0 <= j <= k,
    ensures
        prefix_len(parts, j) <= prefix_len(parts, k),
    decreases k - j,
{
    if j < k {
        lemma_prefix_len_monotonic(parts, j, k - 1);
    }
}

/// When `target` is reachable at all, `fold_count` names the smallest number
/// of leading parts whose join, together with `have` elements already in
/// hand, reaches `target`.
pub proof fn lemma_fold_count_minimal<A>(parts: Seq<Seq<A>>, have: nat, target: nat)
    requires
        have + concat_all(parts).len() >= target,
    ensures
        fold_count(parts, have, target) <= parts.len(),
        have + prefix_len(parts, fold_count(parts, have, target) as int) >= target,
        forall|j: int|
            0 <= j < fold_count(parts, have, target) ==> have + prefix_len(parts, j) < target,
    decreases parts.len(),
{
    let c = fold_count(parts, have, target);
    if have >= target {
        assert(c == 0);
    } else if parts.len() == 0 {
        assert(concat_all(parts).len() == 0);
    } else {
        let rest = parts.drop_first();
        let have2 = (have + parts[0].len()) as nat;
        assert(concat_all(parts) == parts[0] + concat_all(rest));
        lemma_fold_count_minimal(rest, have2, target);
        let c2 = fold_count(rest, have2, target);
        assert(c == 1 + c2);
        lemma_prefix_len_drop_first(parts, c as int);
        assert(have + prefix_len(parts, c as int) >= target);
        assert forall|j: int| 0 <= j < c implies have + prefix_len(parts, j) < target by {
            if j >= 1 {
                lemma_prefix_len_drop_first(parts, j);
                assert(have2 + prefix_len(rest, j - 1) < target);
            }
        }
    }
}

/// Any count that reaches `target` while every smaller count falls short is
/// exactly `fold_count`.
pub proof fn lemma_fold_count_unique<A>(parts: Seq<Seq<A>>, have: nat, target: nat, k: int)
    requires
        0 <= k <= parts.len(),
        have + prefix_len(parts, k) >= target,
        forall|j: int| 0 <= j < k ==> have + prefix_len(parts, j) < target,
    ensures
        k == fold_count(parts, have, target),
{
    let c = fold_count(parts, have, target) as int;
    lemma_prefix_len_is_take_len(parts, k);
    assert(concat_all(parts.take(k)).len() == prefix_len(parts, k));
    lemma_concat_all_split(parts, k);
    assert(concat_all(parts).len() >= prefix_len(parts, k));
    lemma_fold_count_minimal(parts, have, target);
    if c < k {
        assert(have + prefix_len(parts, c) < target);
    } else if k < c {
        assert(have + prefix_len(parts, k) < target);
    }
}

/// Joining parts one at a time, front to back, gives the same value as
/// joining them all at once: the equivalence between eager and deferred
/// concatenation.
pub proof fn lemma_eager_fold_is_concat_all<A>(acc: Seq<A>, parts: Seq<Seq<A>>)
    ensures
        eager_fold(acc, parts) == acc + concat_all(parts),
    decreases parts.len(),
{
    if parts.len() == 0 {
        assert(eager_fold(acc, parts) =~= acc + concat_all(parts));
    } else {
        lemma_eager_fold_is_concat_all(acc + parts[0], parts.drop_first());
        assert((acc + parts[0]) + concat_all(parts.drop_first())
            =~= acc + (parts[0] + concat_all(parts.drop_first())));
    }
}

} // verus!
