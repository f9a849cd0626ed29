//! The iterator over the whole grid of pairs.

use vstd::prelude::*;
use crate::share::access::pair_mut;
use crate::share::order::grid_pairs;
use crate::share::order::is_position;
use crate::share::order::lemma_pair_at_rank;
use crate::share::order::lemma_pairs_from_position;
use crate::share::order::lemma_position_after;
use crate::share::order::lemma_position_rank;
use crate::share::order::lemma_rank_pair_at;
use crate::share::order::lemma_rank_position;
use crate::share::order::pair_rank;
use crate::share::order::position_after;
use crate::share::order::position_at;
use crate::share::ShareError;
use crate::ResettableIterator;

verus! {

/// Visits every ordered pair of distinct elements of a slice.
///
/// With `i` the index of the first element and `j` that of the second, the visit
/// goes through `i` from `0` upwards and, for each `i`, through every `j` other
/// than `i` from `0` upwards. The position `(first, second)` is the pair that the
/// next step lends out; once every pair has been lent, `first` is the length of
/// the slice and `second` is `0`.
///
/// The fields are open to the caller, so that the slice is seen to come back from
/// the iterator as the last step left it. The methods that lend out elements ask
/// for [`wf`](DoubleIterator::wf), which `new`, `set` and `reset` bring about and
/// every method keeps.
pub struct DoubleIterator<'a, T> {
    pub slice: &'a mut [T],
    pub first: usize,
    pub second: usize,
}

impl<'a, T> DoubleIterator<'a, T> {
    /// The slice holds a pair, and the position is a pair of distinct indices of
    /// it, or the end.
    pub open spec fn wf(&self) -> bool {
        &&& self.length() >= 2
        &&& is_position(self.length(), self.first as int, self.second as int)
    }

    /// The number of elements of the slice.
    pub open spec fn length(&self) -> int {
        self.slice@.len() as int
    }

    /// The position, as a pair of integers.
    pub open spec fn position(&self) -> (int, int) {
        (self.first as int, self.second as int)
    }

    /// The number of pairs that the visit has behind it at the position.
    pub open spec fn rank(&self) -> int {
        pair_rank(self.length(), self.first as int, self.second as int)
    }

    /// The index pairs that are still to be visited, the position first.
    pub open spec fn remaining(&self) -> Seq<(int, int)> {
        grid_pairs(self.length()).skip(self.rank())
    }

    /// Borrows `slice` and starts at the pair `(0, 1)`.
    ///
    /// A slice with fewer than two elements holds no pair and is refused.
    pub fn new(slice: &'a mut [T]) -> (r: Result<Self, ShareError>)
        ensures
            old(slice)@.len() >= 2 ==> r is Ok,
            old(slice)@.len() < 2 ==> r == Err::<Self, ShareError>(ShareError::InvalidLength)
                && final(slice)@ == old(slice)@,
            r matches Ok(it) ==> {
                &&& it.wf()
                &&& it.slice@ == old(slice)@
                &&& final(it.slice)@ == final(slice)@
                &&& it.first == 0
                &&& it.second == 1
                &&& it.remaining() == grid_pairs(old(slice)@.len() as int)
            },
    {
        if slice.len() < 2 {
            Err(ShareError::InvalidLength)
        } else {
            Ok(DoubleIterator { slice, first: 0, second: 1 })
        }
    }

    /// Moves the position to the pair after it, or to the end after the last pair.
    ///
    /// The second index goes up by one and wraps to the next row at the end of the
    /// slice; a position on the diagonal is stepped over. `Err` tells that no
    /// pair is left, and at the end nothing moves any more.
    pub fn increment(&mut self) -> (r: Result<(), ()>)
        requires
            old(self).wf(),
        ensures
            final(self).wf(),
            final(self).slice == old(self).slice,
            final(self).position() == position_at(old(self).length(), old(self).rank() + 1),
            old(self).first < old(self).length() ==> final(self).position() == position_after(
                old(self).length(),
                old(self).first as int,
                old(self).second as int,
            ),
            r is Ok <==> final(self).first < final(self).length(),
    {
        let n: usize = self.slice.len();
        let ghost i0 = self.first;
        let ghost j0 = self.second;
        proof {
            lemma_position_rank(n as int, i0 as int, j0 as int);
            if i0 < n {
                lemma_position_after(n as int, i0 as int, j0 as int);
            }
        }
        if self.first >= n {
            return Err(());
        }
        loop
            invariant
                self.slice == old(self).slice,
                n == self.slice@.len(),
                i0 == old(self).first,
                j0 == old(self).second,
                i0 < n,
                j0 < n,
                i0 != j0,
                self.first == i0,
                self.second < n,
                self.second == j0 || (self.second == j0 + 1 && self.second == i0),
            decreases
                    (if self.first == self.second {
                        0int
                    } else {
                        1int
                    }),
        {
            self.second += 1;
            if self.second == n {
                self.second = 0;
                self.first += 1;
                proof {
                    assert((i0 + 1) * (n - 1) == i0 * (n - 1) + (n - 1)) by (nonlinear_arith);
                    lemma_position_rank(n as int, self.first as int, self.second as int);
                }
                if self.first >= n {
                    return Err(());
                }
            }
            if self.first != self.second {
                proof {
                    lemma_position_rank(n as int, self.first as int, self.second as int);
                }
                return Ok(());
            }
        }
    }

    /// Moves the position to `(i, j)`, whether or not that pair was visited before.
    ///
    /// A position on the diagonal or outside the slice is refused, and the iterator
    /// stays where it was.
    pub fn set(&mut self, i: usize, j: usize) -> (r: Result<(), ShareError>)
        ensures
            r is Ok <==> i != j && i < old(self).length() && j < old(self).length(),
            r is Ok ==> {
                &&& final(self).wf()
                &&& final(self).slice == old(self).slice
                &&& final(self).first == i
                &&& final(self).second == j
            },
            r is Err ==> r == Err::<(), ShareError>(ShareError::InvalidPosition) && *final(self)
                == *old(self),
    {
        if i == j || i >= self.slice.len() || j >= self.slice.len() {
            return Err(ShareError::InvalidPosition);
        }
        self.first = i;
        self.second = j;
        Ok(())
    }

    /// Lends out the two elements of the pair at the position and moves on, or tells
    /// that no pair is left.
    ///
    /// The views end before the iterator can be used again. What is written
    /// through them is what the slice holds afterwards.
    pub fn next(&mut self) -> (r: Option<(&mut T, &mut T)>)
        requires
            old(self).wf(),
        ensures
            final(self).wf(),
            final(final(self).slice)@ == final(old(self).slice)@,
            r is Some <==> old(self).first < old(self).length(),
            r is Some <==> old(self).remaining().len() > 0,
            r is None ==> *final(self) == *old(self),
            r matches Some((a, b)) ==> {
                &&& old(self).remaining()[0] == old(self).position()
                &&& old(self).first != old(self).second
                &&& *a == old(self).slice@[old(self).first as int]
                &&& *b == old(self).slice@[old(self).second as int]
                &&& final(self).slice@ == old(self).slice@.update(
                    old(self).first as int,
                    *final(a),
                ).update(old(self).second as int, *final(b))
                &&& final(self).position() == position_at(
                    old(self).length(),
                    old(self).rank() + 1,
                )
                &&& final(self).position() == position_after(
                    old(self).length(),
                    old(self).first as int,
                    old(self).second as int,
                )
                &&& final(self).remaining() == old(self).remaining().drop_first()
            },
    {
        let n: usize = self.slice.len();
        proof {
            lemma_position_rank(n as int, self.first as int, self.second as int);
            lemma_pairs_from_position(n as int, self.first as int, self.second as int);
        }
        if self.first == n {
            return None;
        }
        let i: usize = self.first;
        let j: usize = self.second;
        let _ = self.increment();
        proof {
            lemma_rank_position(n as int, old(self).rank() + 1);
        }
        Some(pair_mut(self.slice, i, j))
    }

    /// Calls `callback` on every pair that is left, in the order of the visit.
    ///
    /// The two views of one pair are handed over for the length of one call and are
    /// gone before the next pair is taken, so no element is ever reachable twice.
    /// The slice goes through one state per call: each call starts from what the
    /// call before it left behind and changes the two elements of its pair only.
    ///
    /// The callback has to accept each pair as this run hands it over: the two
    /// elements of the next pair, in whatever state the calls before it can have
    /// left the slice. It need not accept anything else.
    pub fn safe_for_each<F: Fn(&mut T, &mut T)>(self, callback: F)
        requires
            self.wf(),
            forall|states: Seq<Seq<T>>, a: &mut T, b: &mut T|
                #![trigger states.len(), call_requires(callback, (a, b))]
                ({
                    &&& 1 <= states.len() <= self.remaining().len()
                    &&& states[0] == self.slice@
                    &&& forall|k: int|
                        0 <= k < states.len() ==> (#[trigger] states[k]).len()
                            == self.slice@.len()
                    &&& forall|k: int|
                        0 <= k < states.len() - 1 ==> exists|x: &mut T, y: &mut T|
                            {
                                &&& *x == (#[trigger] states[k])[self.remaining()[k].0]
                                &&& *y == states[k][self.remaining()[k].1]
                                &&& #[trigger] call_ensures(callback, (x, y), ())
                                &&& states[k + 1] == states[k].update(
                                    self.remaining()[k].0,
                                    *final(x),
                                ).update(self.remaining()[k].1, *final(y))
                            }
                    &&& *a == states.last()[self.remaining()[states.len() - 1].0]
                    &&& *b == states.last()[self.remaining()[states.len() - 1].1]
                }) ==> call_requires(callback, (a, b)),
        ensures
            exists|states: Seq<Seq<T>>|
                {
                    &&& #[trigger] states.len() == self.remaining().len() + 1
                    &&& states[0] == old(self.slice)@
                    &&& states.last() == final(self.slice)@
                    &&& forall|k: int|
                        0 <= k < states.len() ==> (#[trigger] states[k]).len()
                            == old(self.slice)@.len()
                    &&& forall|k: int|
                        0 <= k < self.remaining().len() ==> exists|a: &mut T, b: &mut T|
                            {
                                &&& *a == (#[trigger] states[k])[self.remaining()[k].0]
                                &&& *b == states[k][self.remaining()[k].1]
                                &&& #[trigger] call_ensures(callback, (a, b), ())
                                &&& states[k + 1] == states[k].update(
                                    self.remaining()[k].0,
                                    *final(a),
                                ).update(self.remaining()[k].1, *final(b))
                            }
                },
    {
        let mut this = self;
        let ghost pairs = this.remaining();
        let ghost mut states: Seq<Seq<T>> = seq![this.slice@];
        loop
            invariant
                this.wf(),
                pairs == self.remaining(),
                final(this.slice)@ == final(self.slice)@,
                forall|run: Seq<Seq<T>>, a: &mut T, b: &mut T|
                    #![trigger run.len(), call_requires(callback, (a, b))]
                    ({
                        &&& 1 <= run.len() <= pairs.len()
                        &&& run[0] == self.slice@
                        &&& forall|k: int|
                            0 <= k < run.len() ==> (#[trigger] run[k]).len() == self.slice@.len()
                        &&& forall|k: int|
                            0 <= k < run.len() - 1 ==> exists|x: &mut T, y: &mut T|
                                {
                                    &&& *x == (#[trigger] run[k])[pairs[k].0]
                                    &&& *y == run[k][pairs[k].1]
                                    &&& #[trigger] call_ensures(callback, (x, y), ())
                                    &&& run[k + 1] == run[k].update(pairs[k].0, *final(x)).update(
                                        pairs[k].1,
                                        *final(y),
                                    )
                                }
                        &&& *a == run.last()[pairs[run.len() - 1].0]
                        &&& *b == run.last()[pairs[run.len() - 1].1]
                    }) ==> call_requires(callback, (a, b)),
                1 <= states.len() <= pairs.len() + 1,
                this.remaining() == pairs.skip(states.len() - 1),
                states[0] == self.slice@,
                states.last() == this.slice@,
                forall|k: int|
                    0 <= k < states.len() ==> (#[trigger] states[k]).len() == self.slice@.len(),
                forall|k: int|
                    0 <= k < states.len() - 1 ==> exists|a: &mut T, b: &mut T|
                        {
                            &&& *a == (#[trigger] states[k])[pairs[k].0]
                            &&& *b == states[k][pairs[k].1]
                            &&& #[trigger] call_ensures(callback, (a, b), ())
                            &&& states[k + 1] == states[k].update(pairs[k].0, *final(a)).update(
                                pairs[k].1,
                                *final(b),
                            )
                        },
            ensures
                states.len() == pairs.len() + 1,
                states.last() == this.slice@,
            decreases this.remaining().len(),
        {
            match this.next() {
                None => {
                    break ;
                },
                Some((a, b)) => {
                    proof {
                        assert(pairs.skip(states.len() - 1)[0] == pairs[states.len() - 1]);
                        assert(states.len() <= pairs.len());
                        assert(*a == states.last()[pairs[states.len() - 1].0]);
                        assert(*b == states.last()[pairs[states.len() - 1].1]);
                    }
                    callback(a, b);
                    proof {
                        states = states.push(this.slice@);
                    }
                },
            }
        }
    }
}

impl<'a, T> ResettableIterator for DoubleIterator<'a, T> {
    /// Goes back to the pair `(0, 1)`, wherever the iterator was.
    fn reset(&mut self)
        ensures
            final(self).slice == old(self).slice,
            final(self).first == 0,
            final(self).second == 1,
            old(self).wf() ==> final(self).wf() && final(self).remaining() == grid_pairs(
                old(self).length(),
            ),
    {
        self.first = 0;
        self.second = 1;
    }
}

/// Wherever the iterator stands, the pairs behind it and the pairs that are left
/// are `n * (n - 1)` together over a slice of `n` elements, and each pair that is
/// left is a pair of distinct indices of the slice.
pub proof fn lemma_remaining_pairs<T>(it: &DoubleIterator<'_, T>)
    requires
        it.wf(),
    ensures
        0 <= it.rank(),
        it.rank() + it.remaining().len() == it.length() * (it.length() - 1),
        forall|k: int|
            0 <= k < it.remaining().len() ==> {
                let p = #[trigger] it.remaining()[k];
                0 <= p.0 < it.length() && 0 <= p.1 < it.length() && p.0 != p.1
            },
{
    let n = it.length();
    lemma_position_rank(n, it.first as int, it.second as int);
    assert forall|k: int| 0 <= k < it.remaining().len() implies {
        let p = #[trigger] it.remaining()[k];
        0 <= p.0 < n && 0 <= p.1 < n && p.0 != p.1
    } by {
        lemma_rank_pair_at(n, it.rank() + k);
    }
}

/// An iterator at `(0, 1)` lends out `n * (n - 1)` pairs over a slice of `n`
/// elements, and the two indices of a pair it lends out are never equal.
pub proof fn lemma_visit_from_start<T>(it: &DoubleIterator<'_, T>)
    requires
        it.wf(),
        it.first == 0,
        it.second == 1,
    ensures
        it.remaining().len() == it.length() * (it.length() - 1),
        forall|k: int|
            0 <= k < it.remaining().len() ==> (#[trigger] it.remaining()[k]).0
                != it.remaining()[k].1,
{
    lemma_remaining_pairs(it);
}

/// An iterator at `(0, 1)` lends out every ordered pair of distinct indices
/// exactly once: each such pair stands at its rank, and no pair stands at two
/// places.
pub proof fn lemma_visit_is_one_to_one<T>(it: &DoubleIterator<'_, T>)
    requires
        it.wf(),
        it.first == 0,
        it.second == 1,
    ensures
        forall|i: int, j: int|
            0 <= i < it.length() && 0 <= j < it.length() && i != j ==> {
                let k = #[trigger] pair_rank(it.length(), i, j);
                0 <= k < it.remaining().len() && it.remaining()[k] == (i, j)
            },
        forall|k: int, l: int|
            0 <= k < l < it.remaining().len() ==> (#[trigger] it.remaining()[k]) != (
            #[trigger] it.remaining()[l]),
{
    let n = it.length();
    assert forall|i: int, j: int| 0 <= i < n && 0 <= j < n && i != j implies {
        let k = #[trigger] pair_rank(n, i, j);
        0 <= k < it.remaining().len() && it.remaining()[k] == (i, j)
    } by {
        lemma_pair_at_rank(n, i, j);
    }
    assert forall|k: int, l: int| 0 <= k < l < it.remaining().len() implies (
    #[trigger] it.remaining()[k]) != (#[trigger] it.remaining()[l]) by {
        lemma_rank_pair_at(n, k);
        lemma_rank_pair_at(n, l);
    }
}

/// After a reset the iterator has the same pairs left, in the same order, as one
/// that was just built over a slice of the same length.
pub proof fn lemma_reset_replays<T>(built: &DoubleIterator<'_, T>, reset: &DoubleIterator<'_, T>)
    requires
        built.wf(),
        built.first == 0,
        built.second == 1,
        reset.length() == built.length(),
        reset.first == 0,
        reset.second == 1,
    ensures
        reset.wf(),
        reset.remaining() == built.remaining(),
{
}

/// A callback that leaves both of its arguments as they were leaves the slice as
/// it was: in a run of such calls over `pairs`, every state is the first one.
///
/// This is what a caller of `safe_for_each` needs for a callback that only looks at
/// its pair, to show that each call meets the slice as it was at the start.
pub proof fn lemma_run_without_change<T, F: Fn(&mut T, &mut T)>(
    callback: F,
    states: Seq<Seq<T>>,
    pairs: Seq<(int, int)>,
    m: int,
)
    requires
        forall|x: &mut T, y: &mut T| #[trigger]
            call_ensures(callback, (x, y), ()) ==> *final(x) == *x && *final(y) == *y,
        0 <= m < states.len() <= pairs.len() + 1,
        forall|k: int| 0 <= k < states.len() ==> (#[trigger] states[k]).len() == states[0].len(),
        forall|k: int|
            0 <= k < pairs.len() ==> 0 <= (#[trigger] pairs[k]).0 < states[0].len() && 0
                <= pairs[k].1 < states[0].len(),
        forall|k: int|
            0 <= k < states.len() - 1 && (#[trigger] states[k]).len() == states[0].len()
                ==> exists|x: &mut T, y: &mut T|
                {
                    &&& *x == states[k][pairs[k].0]
                    &&& *y == states[k][pairs[k].1]
                    &&& #[trigger] call_ensures(callback, (x, y), ())
                    &&& states[k + 1] == states[k].update(pairs[k].0, *final(x)).update(
                        pairs[k].1,
                        *final(y),
                    )
                },
    ensures
        states[m] == states[0],
    decreases m,
{
    if m > 0 {
        lemma_run_without_change(callback, states, pairs, m - 1);
        assert(states[m - 1].len() == states[0].len());
        assert(states[m - 1 + 1] =~= states[m - 1]);
    }
}

} // verus!
