//! The iterator over one row of the grid of pairs.

use vstd::prelude::*;
use vstd::std_specs::convert::FromSpecImpl;
use crate::share::access::pair_mut;
use crate::share::double::DoubleIterator;
use crate::share::order::column_rank;
use crate::share::order::lemma_column_rank_inverse;
use crate::share::order::lemma_row_is_prefix;
use crate::share::order::row_pairs;
use crate::share::ShareError;
use crate::ResettableIterator;

verus! {

/// The moving index that a row starts with: `0`, or `1` in the row of element `0`.
pub open spec fn row_start(index: int) -> int {
    if index == 0 {
        1
    } else {
        0
    }
}

/// Visits the pairs of one element of a slice with every other element.
///
/// The first element of each pair is the one at `index`, which never changes; the
/// second goes through every other index from `0` upwards, and `cur` is the one
/// that the next step lends out. Once every pair has been lent, `cur` is the
/// length of the slice.
///
/// The fields are open to the caller, so that the slice is seen to come back from
/// the iterator as the last step left it. The methods that lend out elements ask
/// for [`wf`](SingleLineIterator::wf), which `new`, `reset` and the conversion from
/// a well-formed [`DoubleIterator`] bring about and every method keeps.
pub struct SingleLineIterator<'a, T> {
    pub slice: &'a mut [T],
    pub index: usize,
    pub cur: usize,
}

impl<'a, T> SingleLineIterator<'a, T> {
    /// The number of elements of the slice.
    pub open spec fn length(&self) -> int {
        self.slice@.len() as int
    }

    /// The slice is not empty, the moving index is off the fixed one, and both are
    /// at most the length.
    ///
    /// A fixed index equal to the length is what the end of a whole grid leaves
    /// behind; such a row holds no pair.
    pub open spec fn wf(&self) -> bool {
        &&& self.length() >= 1
        &&& self.index <= self.length()
        &&& self.cur <= self.length()
        &&& self.cur < self.length() ==> self.cur != self.index
    }

    /// The index pairs that are still to be visited, the next one first.
    pub open spec fn remaining(&self) -> Seq<(int, int)> {
        if self.index < self.length() {
            row_pairs(self.length(), self.index as int).skip(
                column_rank(self.index as int, self.cur as int),
            )
        } else {
            Seq::empty()
        }
    }

    /// Borrows `slice` and starts at the first pair whose first element is the one
    /// at `index`.
    ///
    /// An index outside the slice is refused.
    pub fn new(slice: &'a mut [T], index: usize) -> (r: Result<Self, ShareError>)
        ensures
            index < old(slice)@.len() ==> r is Ok,
            index >= old(slice)@.len() ==> r == Err::<Self, ShareError>(ShareError::InvalidIndex)
                && final(slice)@ == old(slice)@,
            r matches Ok(it) ==> {
                &&& it.wf()
                &&& it.slice@ == old(slice)@
                &&& final(it.slice)@ == final(slice)@
                &&& it.index == index
                &&& it.cur == row_start(index as int)
                &&& it.remaining() == row_pairs(old(slice)@.len() as int, index as int)
            },
    {
        if index >= slice.len() {
            return Err(ShareError::InvalidIndex);
        }
        let cur: usize = if index == 0 {
            1
        } else {
            0
        };
        Ok(SingleLineIterator { slice, index, cur })
    }

    /// Lends out the fixed element and the one at the moving index and moves on, or
    /// tells that no pair is left.
    ///
    /// The moving index goes up by one, and by one more where it would meet the
    /// fixed index. The views end before the iterator can be used again. What is
    /// written through them is what the slice holds afterwards.
    pub fn next(&mut self) -> (r: Option<(&mut T, &mut T)>)
        requires
            old(self).wf(),
        ensures
            final(self).wf(),
            final(self).index == old(self).index,
            final(final(self).slice)@ == final(old(self).slice)@,
            r is Some <==> old(self).index < old(self).length() && old(self).cur < old(self)
                .length(),
            r is Some <==> old(self).remaining().len() > 0,
            r is None ==> *final(self) == *old(self),
            r matches Some((a, b)) ==> {
                &&& old(self).remaining()[0] == (old(self).index as int, old(self).cur as int)
                &&& old(self).index != old(self).cur
                &&& *a == old(self).slice@[old(self).index as int]
                &&& *b == old(self).slice@[old(self).cur as int]
                &&& final(self).slice@ == old(self).slice@.update(
                    old(self).index as int,
                    *final(a),
                ).update(old(self).cur as int, *final(b))
                &&& final(self).cur == if old(self).cur + 1 == old(self).index {
                    old(self).cur + 2
                } else {
                    old(self).cur + 1
                }
                &&& final(self).remaining() == old(self).remaining().drop_first()
            },
    {
        let n: usize = self.slice.len();
        if self.index >= n || self.cur >= n {
            return None;
        }
        let i: usize = self.index;
        let j: usize = self.cur;
        self.cur += 1;
        if self.cur == self.index {
            self.cur += 1;
        }
        Some(pair_mut(self.slice, i, j))
    }

    /// Calls `callback` on every pair that is left, in the order of the visit.
    ///
    /// The two views of one pair are handed over for the length of one call and are
    /// gone before the next pair is taken, so no element is ever reachable twice.
    /// The slice goes through one state per call: each call starts from what the
    /// call before it left behind and changes the two elements of its pair only.
    ///
    /// The callback has to accept each pair as this run hands it over: the two
    /// elements of the next pair, in whatever state the calls before it can have
    /// left the slice. It need not accept anything else.
    pub fn safe_for_each<F: Fn(&mut T, &mut T)>(self, callback: F)
        requires
            self.wf(),
            forall|states: Seq<Seq<T>>, a: &mut T, b: &mut T|
                #![trigger states.len(), call_requires(callback, (a, b))]
                ({
                    &&& 1 <= states.len() <= self.remaining().len()
                    &&& states[0] == self.slice@
                    &&& forall|k: int|
                        0 <= k < states.len() ==> (#[trigger] states[k]).len()
                            == self.slice@.len()
                    &&& forall|k: int|
                        0 <= k < states.len() - 1 ==> exists|x: &mut T, y: &mut T|
                            {
                                &&& *x == (#[trigger] states[k])[self.remaining()[k].0]
                                &&& *y == states[k][self.remaining()[k].1]
                                &&& #[trigger] call_ensures(callback, (x, y), ())
                                &&& states[k + 1] == states[k].update(
                                    self.remaining()[k].0,
                                    *final(x),
                                ).update(self.remaining()[k].1, *final(y))
                            }
                    &&& *a == states.last()[self.remaining()[states.len() - 1].0]
                    &&& *b == states.last()[self.remaining()[states.len() - 1].1]
                }) ==> call_requires(callback, (a, b)),
        ensures
            exists|states: Seq<Seq<T>>|
                {
                    &&& #[trigger] states.len() == self.remaining().len() + 1
                    &&& states[0] == old(self.slice)@
                    &&& states.last() == final(self.slice)@
                    &&& forall|k: int|
                        0 <= k < states.len() ==> (#[trigger] states[k]).len()
                            == old(self.slice)@.len()
                    &&& forall|k: int|
                        0 <= k < self.remaining().len() ==> exists|a: &mut T, b: &mut T|
                            {
                                &&& *a == (#[trigger] states[k])[self.remaining()[k].0]
                                &&& *b == states[k][self.remaining()[k].1]
                                &&& #[trigger] call_ensures(callback, (a, b), ())
                                &&& states[k + 1] == states[k].update(
                                    self.remaining()[k].0,
                                    *final(a),
                                ).update(self.remaining()[k].1, *final(b))
                            }
                },
    {
        let mut this = self;
        let ghost pairs = this.remaining();
        let ghost mut states: Seq<Seq<T>> = seq![this.slice@];
        loop
            invariant
                this.wf(),
                pairs == self.remaining(),
                final(this.slice)@ == final(self.slice)@,
                forall|run: Seq<Seq<T>>, a: &mut T, b: &mut T|
                    #![trigger run.len(), call_requires(callback, (a, b))]
                    ({
                        &&& 1 <= run.len() <= pairs.len()
                        &&& run[0] == self.slice@
                        &&& forall|k: int|
                            0 <= k < run.len() ==> (#[trigger] run[k]).len() == self.slice@.len()
                        &&& forall|k: int|
                            0 <= k < run.len() - 1 ==> exists|x: &mut T, y: &mut T|
                                {
                                    &&& *x == (#[trigger] run[k])[pairs[k].0]
                                    &&& *y == run[k][pairs[k].1]
                                    &&& #[trigger] call_ensures(callback, (x, y), ())
                                    &&& run[k + 1] == run[k].update(pairs[k].0, *final(x)).update(
                                        pairs[k].1,
                                        *final(y),
                                    )
                                }
                        &&& *a == run.last()[pairs[run.len() - 1].0]
                        &&& *b == run.last()[pairs[run.len() - 1].1]
                    }) ==> call_requires(callback, (a, b)),
                1 <= states.len() <= pairs.len() + 1,
                this.remaining() == pairs.skip(states.len() - 1),
                states[0] == self.slice@,
                states.last() == this.slice@,
                forall|k: int|
                    0 <= k < states.len() ==> (#[trigger] states[k]).len() == self.slice@.len(),
                forall|k: int|
                    0 <= k < states.len() - 1 ==> exists|a: &mut T, b: &mut T|
                        {
                            &&& *a == (#[trigger] states[k])[pairs[k].0]
                            &&& *b == states[k][pairs[k].1]
                            &&& #[trigger] call_ensures(callback, (a, b), ())
                            &&& states[k + 1] == states[k].update(pairs[k].0, *final(a)).update(
                                pairs[k].1,
                                *final(b),
                            )
                        },
            ensures
                states.len() == pairs.len() + 1,
                states.last() == this.slice@,
            decreases this.remaining().len(),
        {
            match this.next() {
                None => {
                    break ;
                },
                Some((a, b)) => {
                    proof {
                        assert(pairs.skip(states.len() - 1)[0] == pairs[states.len() - 1]);
                        assert(states.len() <= pairs.len());
                        assert(*a == states.last()[pairs[states.len() - 1].0]);
                        assert(*b == states.last()[pairs[states.len() - 1].1]);
                    }
                    callback(a, b);
                    proof {
                        states = states.push(this.slice@);
                    }
                },
            }
        }
    }
}

impl<'a, T> ResettableIterator for SingleLineIterator<'a, T> {
    /// Goes back to the first pair of the row.
    fn reset(&mut self)
        ensures
            final(self).slice == old(self).slice,
            final(self).index == old(self).index,
            final(self).cur == row_start(old(self).index as int),
            old(self).wf() ==> final(self).wf(),
            old(self).wf() && old(self).index < old(self).length() ==> final(self).remaining()
                == row_pairs(old(self).length(), old(self).index as int),
    {
        self.cur = if self.index == 0 {
            1
        } else {
            0
        };
    }
}

impl<'a, T> From<DoubleIterator<'a, T>> for SingleLineIterator<'a, T> {
    /// Goes on with the row that `src` is in, from the pair that `src` is at.
    ///
    /// The borrow of the slice passes from `src` to the new iterator, which visits
    /// what `src` had left of its row and nothing else. From the end of the grid
    /// comes a row without pairs.
    fn from(src: DoubleIterator<'a, T>) -> (r: Self)
        ensures
            r.index == src.first,
            r.cur == src.second,
            r.slice@ == old(src.slice)@,
            final(r.slice)@ == final(src.slice)@,
            src.wf() ==> r.wf(),
            src.wf() ==> r.remaining().len() <= src.remaining().len() && r.remaining()
                == src.remaining().take(r.remaining().len() as int),
            src.wf() ==> forall|k: int|
                r.remaining().len() <= k < src.remaining().len() ==> (
                #[trigger] src.remaining()[k]).0 != src.first,
    {
        let DoubleIterator { slice, first, second } = src;
        let row = SingleLineIterator { cur: second, index: first, slice };
        proof {
            if src.wf() {
                lemma_conversion_finishes_row(&src, &row);
            }
        }
        row
    }
}

impl<'a, T> FromSpecImpl<DoubleIterator<'a, T>> for SingleLineIterator<'a, T> {
    /// Two borrows of a slice cannot be stated equal, so `from` says of each field
    /// what it holds instead of naming its result as a whole.
    open spec fn obeys_from_spec() -> bool {
        false
    }

    open spec fn from_spec(src: DoubleIterator<'a, T>) -> Self {
        SingleLineIterator { cur: src.second, index: src.first, slice: src.slice }
    }
}

/// Wherever the iterator stands, each pair that is left has the fixed index first
/// and another index of the slice second.
pub proof fn lemma_row_remaining_pairs<T>(it: &SingleLineIterator<'_, T>)
    requires
        it.wf(),
    ensures
        forall|k: int|
            0 <= k < it.remaining().len() ==> {
                let p = #[trigger] it.remaining()[k];
                p.0 == it.index && it.index < it.length() && 0 <= p.1 < it.length() && p.1
                    != it.index
            },
{
}

/// A row from its start lends out `n - 1` pairs over a slice of `n` elements. Each
/// has the fixed index first; the second indices ascend and are the indices of the
/// slice other than the fixed one, each of them once.
pub proof fn lemma_row_visit<T>(it: &SingleLineIterator<'_, T>)
    requires
        it.wf(),
        it.index < it.length(),
        it.cur == row_start(it.index as int),
    ensures
        it.remaining().len() == it.length() - 1,
        forall|k: int|
            0 <= k < it.remaining().len() ==> {
                let p = #[trigger] it.remaining()[k];
                p.0 == it.index && 0 <= p.1 < it.length() && p.1 != it.index
            },
        forall|k: int, l: int|
            0 <= k < l < it.remaining().len() ==> (#[trigger] it.remaining()[k]).1 < (
            #[trigger] it.remaining()[l]).1,
        forall|j: int|
            0 <= j < it.length() && j != it.index ==> {
                let k = #[trigger] column_rank(it.index as int, j);
                0 <= k < it.remaining().len() && it.remaining()[k] == (it.index as int, j)
            },
{
    let n = it.length();
    let f = it.index as int;
    assert(it.remaining() == row_pairs(n, f));
    assert forall|j: int| 0 <= j < n && j != f implies {
        let k = #[trigger] column_rank(f, j);
        0 <= k < it.remaining().len() && it.remaining()[k] == (f, j)
    } by {
        lemma_column_rank_inverse(n, f, j);
    }
}

/// A row iterator that takes over the position of a grid iterator visits what the
/// grid iterator had left of its row: those pairs are the first that the grid
/// iterator would have lent out, and none of its later pairs lies in that row.
pub proof fn lemma_conversion_finishes_row<T>(
    grid: &DoubleIterator<'_, T>,
    row: &SingleLineIterator<'_, T>,
)
    requires
        grid.wf(),
        row.length() == grid.length(),
        row.index == grid.first,
        row.cur == grid.second,
    ensures
        row.wf(),
        row.remaining().len() <= grid.remaining().len(),
        row.remaining() == grid.remaining().take(row.remaining().len() as int),
        forall|k: int|
            row.remaining().len() <= k < grid.remaining().len() ==> (
            #[trigger] grid.remaining()[k]).0 != grid.first,
{
    if grid.first < grid.length() {
        lemma_row_is_prefix(grid.length(), grid.first as int, grid.second as int);
    }
}

} // verus!
