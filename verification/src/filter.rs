//! Adapters that choose which items of an iteration are passed on.

use vstd::prelude::*;
use vstd::std_specs::cmp::PartialEqSpec;
use vstd::std_specs::iter::IteratorSpec;
use crate::child::ChildIterator;
use crate::ResettableIterator;

verus! {

/// Whether `list` holds a value that equals `item`.
pub open spec fn is_excluded<A: PartialEq>(list: Seq<A>, item: A) -> bool {
    exists|i: int| 0 <= i < list.len() && (#[trigger] list[i]).eq_spec(&item)
}

/// How many items at the front of `items` are excluded by `list`.
pub open spec fn leading_excluded<A: PartialEq>(items: Seq<A>, list: Seq<A>) -> int
    decreases items.len(),
{
    if items.len() == 0 || !is_excluded(list, items[0]) {
        0
    } else {
        1 + leading_excluded(items.drop_first(), list)
    }
}

/// The items of `items` that `list` does not exclude, in their order.
pub open spec fn kept<A: PartialEq>(items: Seq<A>, list: Seq<A>) -> Seq<A> {
    items.filter(|x: A| !is_excluded(list, x))
}

/// Passes on the items of an iterator except those found on a blacklist.
///
/// An item is dropped when it equals an entry of the blacklist. The blacklist is
/// searched from the front and may hold the same value more than once.
#[derive(Clone)]
pub struct Exclude<T> where T: Iterator, T::Item: PartialEq {
    excluded: Vec<T::Item>,
    cur: T,
}

impl<T> Exclude<T> where T: Iterator, T::Item: PartialEq {
    /// The entries of the blacklist, oldest first.
    pub closed spec fn blacklist(&self) -> Seq<T::Item> {
        self.excluded@
    }

    /// The wrapped iterator.
    pub closed spec fn iterator(&self) -> T {
        self.cur
    }

    /// Wraps `iterator` with an empty blacklist.
    pub fn new(iterator: T) -> (r: Self)
        ensures
            r.iterator() == iterator,
            r.blacklist() == Seq::<T::Item>::empty(),
    {
        Exclude { cur: iterator, excluded: Vec::new() }
    }

    /// Wraps `iterator` with the given blacklist.
    pub fn with_blacklist(iterator: T, blacklist: Vec<T::Item>) -> (r: Self)
        ensures
            r.iterator() == iterator,
            r.blacklist() == blacklist@,
    {
        Exclude { cur: iterator, excluded: blacklist }
    }

    /// Whether the blacklist holds an entry that equals `item`.
    fn is_listed(&self, item: &T::Item) -> (r: bool)
        ensures
            T::Item::obeys_eq_spec() ==> r == is_excluded(self.blacklist(), *item),
    {
        let mut i: usize = 0;
        while i < self.excluded.len()
            invariant
                i <= self.excluded@.len(),
                T::Item::obeys_eq_spec() ==> forall|k: int|
                    0 <= k < i ==> !(#[trigger] self.excluded@[k]).eq_spec(item),
            decreases self.excluded@.len() - i,
        {
            if self.excluded[i] == *item {
                return true;
            }
            i += 1;
        }
        false
    }

    /// Puts `new` on the blacklist unless an entry equal to it is there already.
    pub fn exclude(&mut self, new: T::Item)
        ensures
            final(self).iterator() == old(self).iterator(),
            final(self).blacklist() == old(self).blacklist() || final(self).blacklist()
                == old(self).blacklist().push(new),
            T::Item::obeys_eq_spec() ==> final(self).blacklist() == if is_excluded(
                old(self).blacklist(),
                new,
            ) {
                old(self).blacklist()
            } else {
                old(self).blacklist().push(new)
            },
    {
        if !self.is_listed(&new) {
            self.force_exclude(new);
        }
    }

    /// Puts `new` at the end of the blacklist, whether or not it is there already.
    ///
    /// Where `==` is transitive, a second entry of the same value changes nothing in
    /// what is passed on; it only makes the search longer.
    pub fn force_exclude(&mut self, new: T::Item)
        ensures
            final(self).iterator() == old(self).iterator(),
            final(self).blacklist() == old(self).blacklist().push(new),
    {
        self.excluded.push(new);
    }

    /// Lends out the wrapped iterator.
    pub fn get_iterator(&self) -> (r: &T)
        ensures
            *r == self.iterator(),
    {
        &self.cur
    }

    /// Lends out the wrapped iterator for changes; what is done to it is done to
    /// the iterator inside the adapter.
    pub fn get_mut_iterator(&mut self) -> (r: &mut T)
        ensures
            *r == old(self).iterator(),
            final(self).iterator() == *final(r),
            final(self).blacklist() == old(self).blacklist(),
    {
        &mut self.cur
    }

    /// Takes items from the wrapped iterator until one is not on the blacklist, and
    /// passes that one on; `None` once the wrapped iterator has run out.
    ///
    /// The wrapped iterator has to come to an end, or the search for an item that
    /// is not excluded might never end. Whatever `==` does, the result is an item
    /// of the wrapped iterator, which is left right behind that item. Where `==`
    /// is the equality that the item type states for it, the result is the first
    /// item that the blacklist does not exclude.
    pub fn next(&mut self) -> (r: Option<T::Item>)
        requires
            old(self).iterator().obeys_prophetic_iter_laws(),
            old(self).iterator().decrease() is Some,
        ensures
            final(self).blacklist() == old(self).blacklist(),
            final(self).iterator().obeys_prophetic_iter_laws(),
            final(self).iterator().decrease() is Some,
            ({
                let items = old(self).iterator().remaining();
                match r {
                    Some(item) => exists|k: int|
                        {
                            &&& 0 <= k < items.len()
                            &&& #[trigger] items[k] == item
                            &&& final(self).iterator().remaining() == items.skip(k + 1)
                        },
                    None => final(self).iterator().remaining().len() == 0,
                }
            }),
            T::Item::obeys_eq_spec() ==> ({
                let items = old(self).iterator().remaining();
                let list = old(self).blacklist();
                let k = leading_excluded(items, list);
                &&& 0 <= k <= items.len()
                &&& r == if k < items.len() {
                    Some(items[k])
                } else {
                    None
                }
                &&& final(self).iterator().remaining() == if k < items.len() {
                    items.skip(k + 1)
                } else {
                    Seq::empty()
                }
                &&& r == if kept(items, list).len() > 0 {
                    Some(kept(items, list)[0])
                } else {
                    None
                }
                &&& kept(final(self).iterator().remaining(), list) == if kept(items, list).len()
                    > 0 {
                    kept(items, list).drop_first()
                } else {
                    Seq::empty()
                }
            }),
    {
        let ghost mut passed: int = 0;
        loop
            invariant
                self.excluded == old(self).excluded,
                self.cur.obeys_prophetic_iter_laws(),
                self.cur.decrease() is Some,
                0 <= passed <= old(self).cur.remaining().len(),
                self.cur.remaining() == old(self).cur.remaining().skip(passed),
                T::Item::obeys_eq_spec() ==> forall|i: int|
                    0 <= i < passed ==> is_excluded(
                        self.excluded@,
                        #[trigger] old(self).cur.remaining()[i],
                    ),
            decreases self.cur.decrease()->0,
        {
            match self.cur.next() {
                None => {
                    proof {
                        if T::Item::obeys_eq_spec() {
                            lemma_leading_excluded(
                                old(self).cur.remaining(),
                                self.excluded@,
                                passed,
                            );
                            lemma_kept_step(old(self).cur.remaining(), self.excluded@);
                            lemma_kept_step(self.cur.remaining(), self.excluded@);
                        }
                    }
                    return None;
                },
                Some(item) => {
                    if !self.is_listed(&item) {
                        proof {
                            assert(old(self).iterator().remaining()[passed] == item);
                            assert(self.iterator().remaining() == old(self).iterator()
                                .remaining().skip(passed + 1));
                            if T::Item::obeys_eq_spec() {
                                lemma_leading_excluded(
                                    old(self).cur.remaining(),
                                    self.excluded@,
                                    passed,
                                );
                                lemma_kept_step(old(self).cur.remaining(), self.excluded@);
                            }
                        }
                        return Some(item);
                    }
                    proof {
                        passed = passed + 1;
                    }
                },
            }
        }
    }
}

impl<T> ResettableIterator for Exclude<T> where T: Iterator + ResettableIterator, T::Item: PartialEq {
    /// Starts the wrapped iterator over; the blacklist stays as it is.
    fn reset(&mut self)
        ensures
            final(self).blacklist() == old(self).blacklist(),
            exists|inner: &mut T|
                {
                    &&& *inner == old(self).iterator()
                    &&& *final(inner) == final(self).iterator()
                    &&& #[trigger] call_ensures(<T as ResettableIterator>::reset, (inner,), ())
                },
    {
        self.cur.reset();
    }
}

impl<T> ChildIterator for Exclude<T> where T: Iterator, T::Item: PartialEq {
    type Parent = T;

    /// Gives up the adapter and hands back the wrapped iterator.
    fn release_parent(self) -> (r: T)
        ensures
            r == self.iterator(),
    {
        self.cur
    }

    /// Lends out the wrapped iterator for changes; what is done to it is done to
    /// the iterator inside the adapter.
    fn get_parent_mut(&mut self) -> (r: &mut T)
        ensures
            *r == old(self).iterator(),
            final(self).iterator() == *final(r),
            final(self).blacklist() == old(self).blacklist(),
    {
        &mut self.cur
    }

    /// Lends out the wrapped iterator.
    fn get_parent(&self) -> (r: &T)
        ensures
            *r == self.iterator(),
    {
        &self.cur
    }
}

/// The count of excluded items at the front is the index of the first item that is
/// not excluded, or the length where every item is.
pub proof fn lemma_leading_excluded<A: PartialEq>(items: Seq<A>, list: Seq<A>, k: int)
    requires
        0 <= k <= items.len(),
        forall|i: int| 0 <= i < k ==> is_excluded(list, #[trigger] items[i]),
        k < items.len() ==> !is_excluded(list, items[k]),
    ensures
        leading_excluded(items, list) == k,
    decreases k,
{
    if k > 0 {
        let rest = items.drop_first();
        assert forall|i: int| 0 <= i < k - 1 implies is_excluded(list, #[trigger] rest[i]) by {
            assert(rest[i] == items[i + 1]);
        }
        lemma_leading_excluded(rest, list, k - 1);
    }
}

/// What is kept of a sequence is the first item that is not excluded, followed by
/// what is kept of the items behind it; nothing is kept where every item is
/// excluded.
pub proof fn lemma_kept_step<A: PartialEq>(items: Seq<A>, list: Seq<A>)
    ensures
        0 <= leading_excluded(items, list) <= items.len(),
        kept(items, list) == if leading_excluded(items, list) < items.len() {
            seq![items[leading_excluded(items, list)]] + kept(
                items.skip(leading_excluded(items, list) + 1),
                list,
            )
        } else {
            Seq::empty()
        },
    decreases items.len(),
{
    let keep = |x: A| !is_excluded(list, x);
    if items.len() > 0 {
        let rest = items.drop_first();
        items.lemma_filter_eq_filter_alt(keep);
        if is_excluded(list, items[0]) {
            lemma_kept_step(rest, list);
            let k = leading_excluded(rest, list);
            if k < rest.len() {
                assert(rest[k] == items[k + 1]);
                assert(rest.skip(k + 1) == items.skip(k + 2));
            }
        } else {
            assert(items.skip(1) == rest);
        }
    }
}

} // verus!
