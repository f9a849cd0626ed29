use iterators_collection::child::ChildIterator;
use iterators_collection::filter::Exclude;
use iterators_collection::ResettableIterator;

fn collect<T>(iter: &mut Exclude<T>) -> Vec<T::Item>
where
    T: Iterator,
    T::Item: PartialEq,
{
    let mut out = Vec::new();
    while let Some(item) = iter.next() {
        out.push(item);
    }
    out
}

#[test]
fn exclude_three_and_five_from_one_to_five() {
    let array = [1, 2, 3, 4, 5];
    let mut iter = Exclude::with_blacklist(array.iter().cloned(), vec![3, 5]);
    assert_eq!(collect(&mut iter), vec![1, 2, 4]);
    assert_eq!(iter.next(), None);
}

#[test]
fn empty_blacklist_passes_everything() {
    let array = [1, 2, 3];
    let mut iter = Exclude::new(array.iter().cloned());
    assert_eq!(collect(&mut iter), vec![1, 2, 3]);
}

#[test]
fn everything_excluded_yields_nothing() {
    let array = [4, 4, 4];
    let mut iter = Exclude::with_blacklist(array.iter().cloned(), vec![4]);
    assert_eq!(iter.next(), None);
    assert_eq!(iter.next(), None);
}

#[test]
fn empty_source_yields_nothing() {
    let array: [i32; 0] = [];
    let mut iter = Exclude::with_blacklist(array.iter().cloned(), vec![1]);
    assert_eq!(iter.next(), None);
}

#[test]
fn runs_of_excluded_items_are_skipped_in_one_step() {
    let array = [9, 9, 1, 9, 9, 9, 2, 9];
    let mut iter = Exclude::with_blacklist(array.iter().cloned(), vec![9]);
    assert_eq!(iter.next(), Some(1));
    assert_eq!(iter.next(), Some(2));
    assert_eq!(iter.next(), None);
}

#[test]
fn exclude_adds_to_the_blacklist() {
    let array = [1, 2, 3, 4, 5];
    let mut iter = Exclude::new(array.iter().cloned());
    iter.exclude(2);
    iter.exclude(4);
    iter.exclude(2);
    assert_eq!(collect(&mut iter), vec![1, 3, 5]);
}

#[test]
fn force_exclude_adds_to_the_blacklist_even_twice() {
    let array = [1, 2, 3, 4, 5];
    let mut iter = Exclude::new(array.iter().cloned());
    iter.force_exclude(1);
    iter.force_exclude(1);
    iter.force_exclude(5);
    assert_eq!(collect(&mut iter), vec![2, 3, 4]);
}

#[test]
fn exclude_during_the_iteration_holds_for_what_follows() {
    let array = [1, 2, 1, 2, 3];
    let mut iter = Exclude::new(array.iter().cloned());
    assert_eq!(iter.next(), Some(1));
    iter.exclude(1);
    assert_eq!(collect(&mut iter), vec![2, 2, 3]);
}

#[test]
fn get_iterator_shows_the_wrapped_iterator() {
    let mut iter = Exclude::with_blacklist(0..5, vec![1]);
    assert_eq!(*iter.get_iterator(), 0..5);
    assert_eq!(iter.next(), Some(0));
    assert_eq!(iter.next(), Some(2));
    assert_eq!(*iter.get_iterator(), 3..5);
}

#[test]
fn get_mut_iterator_changes_the_wrapped_iterator() {
    let mut iter = Exclude::with_blacklist(0..10, vec![7]);
    assert_eq!(iter.get_mut_iterator().next(), Some(0));
    *iter.get_mut_iterator() = 6..9;
    assert_eq!(collect(&mut iter), vec![6, 8]);
}

#[test]
fn clone_keeps_blacklist_and_position() {
    let mut iter = Exclude::with_blacklist(0..6, vec![2, 3]);
    assert_eq!(iter.next(), Some(0));
    let mut copy = iter.clone();
    assert_eq!(collect(&mut iter), vec![1, 4, 5]);
    assert_eq!(collect(&mut copy), vec![1, 4, 5]);
}

#[test]
fn release_parent_hands_back_what_is_left() {
    let mut iter = Exclude::with_blacklist(0..6, vec![1]);
    assert_eq!(iter.next(), Some(0));
    assert_eq!(iter.next(), Some(2));
    let rest: Vec<i32> = iter.release_parent().collect();
    assert_eq!(rest, vec![3, 4, 5]);
}

#[test]
fn get_parent_and_get_parent_mut_reach_the_wrapped_iterator() {
    let mut iter = Exclude::with_blacklist(0..6, vec![4]);
    assert_eq!(*iter.get_parent(), 0..6);
    assert_eq!(iter.get_parent_mut().next(), Some(0));
    assert_eq!(iter.get_parent_mut().next(), Some(1));
    assert_eq!(*iter.get_parent(), 2..6);
    assert_eq!(collect(&mut iter), vec![2, 3, 5]);
}

struct Countdown {
    from: u32,
    left: u32,
}

impl Iterator for Countdown {
    type Item = u32;

    fn next(&mut self) -> Option<u32> {
        if self.left == 0 {
            None
        } else {
            self.left -= 1;
            Some(self.left + 1)
        }
    }
}

impl ResettableIterator for Countdown {
    fn reset(&mut self) {
        self.left = self.from;
    }
}

#[test]
fn reset_starts_the_wrapped_iterator_over_and_keeps_the_blacklist() {
    let mut iter = Exclude::with_blacklist(Countdown { from: 4, left: 4 }, vec![3]);
    assert_eq!(collect(&mut iter), vec![4, 2, 1]);
    assert_eq!(iter.next(), None);
    iter.reset();
    assert_eq!(collect(&mut iter), vec![4, 2, 1]);
}
