//! The steppable sorting algorithms and what they share.

pub mod bogo_sort;
pub mod merge_in_place;
pub mod merge_sort;
pub mod merge_sort_laws;

use bogo_sort::BogoSort;
use merge_in_place::MergeInPlace;
use merge_sort::{MergeSort, TreeModel};
use std::time::Duration;
use vstd::prelude::*;

verus! {

/// The length of time that `Duration::from_millis` makes of a number of
/// milliseconds.
pub uninterp spec fn duration_of_millis(millis: u64) -> Duration;

/// `Duration::from_millis` of std: the result depends on the number of
/// milliseconds alone.
pub assume_specification[ Duration::from_millis ](millis: u64) -> (duration: Duration)
    ensures
        duration == duration_of_millis(millis),
;

/// The segments that a list of lists holds, in order.
pub open spec fn partition(lists: Seq<Vec<usize>>) -> Seq<Seq<usize>> {
    Seq::new(lists.len(), |i: int| lists[i]@)
}

/// The numbers `1, 2, .., length`.
pub open spec fn identity(length: nat) -> Seq<usize> {
    Seq::new(length, |i: int| (i + 1) as usize)
}

/// Whether each highlight names an element of `segments`: a segment, and a
/// place within it.
pub open spec fn highlights_resolve(
    highlights: Seq<(usize, usize)>,
    segments: Seq<Seq<usize>>,
) -> bool {
    forall|k: int|
        0 <= k < highlights.len() ==> {
            &&& (#[trigger] highlights[k]).0 < segments.len()
            &&& highlights[k].1 < segments[highlights[k].0 as int].len()
        }
}

/// A sorting algorithm that advances by one unit of work per call.
pub trait SortingAlgorithm {
    /// The partition view: the working list as contiguous segments.
    spec fn segments(&self) -> Seq<Seq<usize>>;

    /// The display label.
    spec fn label(&self) -> Seq<char>;

    /// The suggested pause between two steps, in milliseconds.
    spec fn delay_millis(&self) -> u64;

    /// Whether `after` is a state that one step can lead to from this one.
    spec fn steps_to(&self, after: &Self) -> bool;

    /// Get the name of the sorting algorithm.
    fn get_name(&self) -> (name: &str)
        ensures
            name@ == self.label(),
    ;

    /// Get the list state of the sorting algorithm and a list of indexes that
    /// should be highlighted.
    fn get_list(&self) -> (view: (Vec<Vec<usize>>, Vec<(usize, usize)>))
        ensures
            partition(view.0@) == self.segments(),
            highlights_resolve(view.1@, self.segments()),
    ;

    /// Set the list state of the sorting algorithm: the lists, one after the
    /// other, become the one segment of a fresh state.
    fn set_list(&mut self, list: Vec<Vec<usize>>)
        ensures
            final(self).segments() == seq![partition(list@).flatten()],
            final(self).label() == old(self).label(),
            final(self).delay_millis() == old(self).delay_millis(),
    ;

    /// Get the default delay of the sorting algorithm running.
    fn get_delay(&self) -> (delay: Duration)
        ensures
            delay == duration_of_millis(self.delay_millis()),
    ;

    /// Do one step of the sorting algorithm. No element is lost or added.
    fn step(&mut self)
        ensures
            old(self).steps_to(final(self)),
            final(self).segments().flatten().to_multiset() == old(
                self,
            ).segments().flatten().to_multiset(),
            final(self).label() == old(self).label(),
            final(self).delay_millis() == old(self).delay_millis(),
    ;
}

/// One of the algorithms on offer.
pub enum Algorithm {
    BogoSort(BogoSort),
    MergeSort(MergeSort),
    MergeInPlace(MergeInPlace),
}

impl Algorithm {
    /// Whether `after` is this algorithm started afresh on `list`.
    pub open spec fn restarts_as(self, after: Algorithm, list: Seq<usize>) -> bool {
        match self {
            Algorithm::BogoSort(_) => after matches Algorithm::BogoSort(machine) && machine@
                == list,
            Algorithm::MergeSort(_) => after matches Algorithm::MergeSort(machine) && machine@
                == TreeModel::Leaf(list, false),
            Algorithm::MergeInPlace(_) => after matches Algorithm::MergeInPlace(machine)
                && machine@ == list && machine.wf(),
        }
    }
}

impl SortingAlgorithm for Algorithm {
    open spec fn segments(&self) -> Seq<Seq<usize>> {
        match self {
            Algorithm::BogoSort(machine) => machine.segments(),
            Algorithm::MergeSort(machine) => machine.segments(),
            Algorithm::MergeInPlace(machine) => machine.segments(),
        }
    }

    open spec fn label(&self) -> Seq<char> {
        match self {
            Algorithm::BogoSort(machine) => machine.label(),
            Algorithm::MergeSort(machine) => machine.label(),
            Algorithm::MergeInPlace(machine) => machine.label(),
        }
    }

    open spec fn delay_millis(&self) -> u64 {
        match self {
            Algorithm::BogoSort(machine) => machine.delay_millis(),
            Algorithm::MergeSort(machine) => machine.delay_millis(),
            Algorithm::MergeInPlace(machine) => machine.delay_millis(),
        }
    }

    /// The same algorithm, after its own step.
    open spec fn steps_to(&self, after: &Self) -> bool {
        match self {
            Algorithm::BogoSort(before) => after matches Algorithm::BogoSort(machine)
                && before.steps_to(&machine),
            Algorithm::MergeSort(before) => after matches Algorithm::MergeSort(machine)
                && before.steps_to(&machine) && machine@.wf(),
            Algorithm::MergeInPlace(before) => after matches Algorithm::MergeInPlace(machine)
                && before.steps_to(&machine),
        }
    }

    fn get_name(&self) -> (name: &str) {
        match self {
            Algorithm::BogoSort(machine) => machine.get_name(),
            Algorithm::MergeSort(machine) => machine.get_name(),
            Algorithm::MergeInPlace(machine) => machine.get_name(),
        }
    }

    fn get_list(&self) -> (view: (Vec<Vec<usize>>, Vec<(usize, usize)>))
        ensures
            view.1@ == Seq::<(usize, usize)>::empty(),
    {
        match self {
            Algorithm::BogoSort(machine) => machine.get_list(),
            Algorithm::MergeSort(machine) => machine.get_list(),
            Algorithm::MergeInPlace(machine) => machine.get_list(),
        }
    }

    /// The algorithm stays the one it was.
    fn set_list(&mut self, list: Vec<Vec<usize>>)
        ensures
            old(self).restarts_as(*final(self), partition(list@).flatten()),
    {
        match self {
            Algorithm::BogoSort(machine) => machine.set_list(list),
            Algorithm::MergeSort(machine) => machine.set_list(list),
            Algorithm::MergeInPlace(machine) => machine.set_list(list),
        }
    }

    fn get_delay(&self) -> (delay: Duration) {
        match self {
            Algorithm::BogoSort(machine) => machine.get_delay(),
            Algorithm::MergeSort(machine) => machine.get_delay(),
            Algorithm::MergeInPlace(machine) => machine.get_delay(),
        }
    }

    /// The algorithm stays the one it was, and takes its own step.
    fn step(&mut self) {
        match self {
            Algorithm::BogoSort(machine) => machine.step(),
            Algorithm::MergeSort(machine) => machine.step(),
            Algorithm::MergeInPlace(machine) => machine.step(),
        }
    }
}

/// A fresh instance of each algorithm, with its default list.
pub fn get_available_algorithms() -> (algorithms: Vec<Algorithm>)
    ensures
        algorithms@.len() == 3,
        algorithms@[0] matches Algorithm::BogoSort(machine) && machine@ == identity(4),
        algorithms@[1] matches Algorithm::MergeSort(machine) && machine@ == TreeModel::Leaf(
            identity(16),
            false,
        ) && machine@.wf(),
        algorithms@[2] matches Algorithm::MergeInPlace(machine) && machine@ == identity(16)
            && machine.wf(),
{
    let mut algorithms: Vec<Algorithm> = Vec::new();
    algorithms.push(Algorithm::BogoSort(BogoSort::default()));
    algorithms.push(Algorithm::MergeSort(MergeSort::default()));
    algorithms.push(Algorithm::MergeInPlace(MergeInPlace::default()));
    algorithms
}

/// Whether `count` steps, one after the other, can lead from `before` to
/// `after`.
pub open spec fn reaches<A: SortingAlgorithm>(before: A, after: A, count: nat) -> bool
    decreases count,
{
    if count == 0 {
        after == before
    } else {
        exists|middle: A|
            reaches(before, middle, (count - 1) as nat) && #[trigger] middle.steps_to(&after)
    }
}

/// Takes `count` steps of `algorithm`, one after the other. Whatever the
/// algorithm and however many steps it takes, it holds afterwards the elements
/// that it held before.
pub fn step_many<A: SortingAlgorithm>(algorithm: &mut A, count: usize)
    ensures
        reaches(*old(algorithm), *final(algorithm), count as nat),
        final(algorithm).segments().flatten().to_multiset() == old(
            algorithm,
        ).segments().flatten().to_multiset(),
        final(algorithm).label() == old(algorithm).label(),
        final(algorithm).delay_millis() == old(algorithm).delay_millis(),
{
    let mut taken: usize = 0;
    while taken < count
        invariant
            taken <= count,
            reaches(*old(algorithm), *algorithm, taken as nat),
            algorithm.segments().flatten().to_multiset() == old(
                algorithm,
            ).segments().flatten().to_multiset(),
            algorithm.label() == old(algorithm).label(),
            algorithm.delay_millis() == old(algorithm).delay_millis(),
        decreases count - taken,
    {
        let ghost middle = *algorithm;
        algorithm.step();
        taken += 1;
        assert(middle.steps_to(algorithm));
    }
}

/// The lists of `list`, one after the other, as one list.
pub fn flatten_lists(list: &Vec<Vec<usize>>) -> (joined: Vec<usize>)
    ensures
        joined@ == partition(list@).flatten(),
{
    let mut joined: Vec<usize> = Vec::new();
    let mut i: usize = 0;
    while i < list.len()
        invariant
            i <= list@.len(),
            joined@ == partition(list@).take(i as int).flatten(),
        decreases list@.len() - i,
    {
        let segment = &list[i];
        let ghost before = joined@;
        let mut j: usize = 0;
        while j < segment.len()
            invariant
                j <= segment@.len(),
                joined@ == before + segment@.take(j as int),
            decreases segment@.len() - j,
        {
            joined.push(segment[j]);
            j += 1;
        }
        proof {
            let done = partition(list@).take(i as int);
            assert(partition(list@).take(i + 1) == done.push(segment@));
            done.lemma_flatten_push(segment@);
            assert(segment@.take(segment@.len() as int) == segment@);
        }
        i += 1;
    }
    assert(partition(list@).take(list@.len() as int) == partition(list@));
    joined
}

/// The list `1, 2, .., length`.
pub fn identity_list(length: usize) -> (list: Vec<usize>)
    ensures
        list@ == identity(length as nat),
{
    let mut list: Vec<usize> = Vec::new();
    let mut next: usize = 0;
    while next < length
        invariant
            next <= length,
            list@ == identity(next as nat),
        decreases length - next,
    {
        next += 1;
        list.push(next);
    }
    list
}

} // verus!
