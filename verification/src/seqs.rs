//! Searching a sequence for its first element with a given property.

use vstd::prelude::*;

verus! {

/// Index of the first element of `s` that satisfies `pick`, or the length of `s` if none does.
pub open spec fn first_where<T>(s: Seq<T>, pick: spec_fn(T) -> bool) -> int
    decreases s.len(),
{
    if s.len() == 0 {
        0
    } else if pick(s[0]) {
        0
    } else {
        1 + first_where(s.drop_first(), pick)
    }
}

/// The first match lies within the sequence or one past its end; nothing before it matches,
/// and the element at it does.
pub proof fn lemma_first_where_bounds<T>(s: Seq<T>, pick: spec_fn(T) -> bool)
    ensures
        0 <= first_where(s, pick) <= s.len(),
        forall|k: int| 0 <= k < first_where(s, pick) ==> !pick(#[trigger] s[k]),
        first_where(s, pick) < s.len() ==> pick(s[first_where(s, pick)]),
    decreases s.len(),
{
    if s.len() > 0 && !pick(s[0]) {
        let rest = s.drop_first();
        lemma_first_where_bounds(rest, pick);
        assert forall|k: int| 0 <= k < first_where(s, pick) implies !pick(#[trigger] s[k]) by {
            if k > 0 {
                assert(s[k] == rest[k - 1]);
            }
        }
    }
}

/// An index that matches, or the length, with no match before it, is the first match.
pub proof fn lemma_first_where_is<T>(s: Seq<T>, pick: spec_fn(T) -> bool, i: int)
    requires
        0 <= i <= s.len(),
        forall|k: int| 0 <= k < i ==> !pick(#[trigger] s[k]),
        i < s.len() ==> pick(s[i]),
    ensures
        first_where(s, pick) == i,
{
    lemma_first_where_bounds(s, pick);
    let f = first_where(s, pick);
    if f < i {
        assert(!pick(s[f]));
    } else if i < f {
        assert(!pick(s[i]));
    }
}

/// The elements of `s` that satisfy `pick`, in their order.
pub open spec fn keep<T>(s: Seq<T>, pick: spec_fn(T) -> bool) -> Seq<T>
    decreases s.len(),
{
    if s.len() == 0 {
        Seq::empty()
    } else if pick(s.last()) {
        keep(s.drop_last(), pick).push(s.last())
    } else {
        keep(s.drop_last(), pick)
    }
}

/// Keeping from the first `i + 1` elements is keeping from the first `i`,
/// and then element `i` if it satisfies `pick`.
pub proof fn lemma_keep_step<T>(s: Seq<T>, pick: spec_fn(T) -> bool, i: int)
    requires
        0 <= i < s.len(),
    ensures
        keep(s.take(i + 1), pick) == (if pick(s[i]) {
            keep(s.take(i), pick).push(s[i])
        } else {
            keep(s.take(i), pick)
        }),
        keep(s.take(0), pick) == Seq::<T>::empty(),
{
    assert(s.take(i + 1).drop_last() =~= s.take(i));
}

/// What holds of every element of `s` holds of every element that is kept.
pub proof fn lemma_keep_all<T>(s: Seq<T>, pick: spec_fn(T) -> bool, holds: spec_fn(T) -> bool)
    requires
        forall|i: int| 0 <= i < s.len() ==> holds(#[trigger] s[i]),
    ensures
        forall|k: int| 0 <= k < keep(s, pick).len() ==> holds(#[trigger] keep(s, pick)[k]),
    decreases s.len(),
{
    if s.len() > 0 {
        let before = keep(s.drop_last(), pick);
        lemma_keep_all(s.drop_last(), pick, holds);
        assert forall|k: int| 0 <= k < keep(s, pick).len() implies holds(
            #[trigger] keep(s, pick)[k],
        ) by {
            if k < before.len() {
                assert(keep(s, pick)[k] == before[k]);
            } else {
                assert(keep(s, pick)[k] == s[s.len() - 1]);
            }
        }
    }
}

/// What `convert` makes of each element of `items`, in order; if it
/// refuses any, the error of the first that it refuses.
pub open spec fn collect<A, B>(items: Seq<A>, convert: spec_fn(A) -> Result<B, Seq<char>>) -> Result<
    Seq<B>,
    Seq<char>,
>
    decreases items.len(),
{
    if items.len() == 0 {
        Ok(Seq::empty())
    } else {
        match collect(items.drop_last(), convert) {
            Err(message) => Err(message),
            Ok(done) => match convert(items.last()) {
                Err(message) => Err(message),
                Ok(value) => Ok(done.push(value)),
            },
        }
    }
}

/// Collecting from the first `i + 1` elements is collecting from the first
/// `i` and then converting element `i`.
pub proof fn lemma_collect_step<A, B>(
    items: Seq<A>,
    convert: spec_fn(A) -> Result<B, Seq<char>>,
    i: int,
)
    requires
        0 <= i < items.len(),
    ensures
        collect(items.take(i + 1), convert) == (match collect(items.take(i), convert) {
            Err(message) => Err(message),
            Ok(done) => match convert(items[i]) {
                Err(message) => Err(message),
                Ok(value) => Ok(done.push(value)),
            },
        }),
{
    assert(items.take(i + 1).drop_last() =~= items.take(i));
}

/// An error among the first `i` elements is the error of the whole.
pub proof fn lemma_collect_error<A, B>(
    items: Seq<A>,
    convert: spec_fn(A) -> Result<B, Seq<char>>,
    i: int,
)
    requires
        0 <= i <= items.len(),
        collect(items.take(i), convert) is Err,
    ensures
        collect(items, convert) == collect(items.take(i), convert),
    decreases items.len() - i,
{
    if i < items.len() {
        lemma_collect_step(items, convert, i);
        lemma_collect_error(items, convert, i + 1);
    } else {
        assert(items.take(i) =~= items);
    }
}

} // verus!
