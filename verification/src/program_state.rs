//! What a front end keeps between two frames: the list on display, the
//! algorithm at work, and whether the animation runs.

use crate::sorting_algorithms::bogo_sort::shuffle;
use crate::sorting_algorithms::merge_sort::sorted;
use crate::sorting_algorithms::{
    flatten_lists, identity, identity_list, partition, Algorithm, SortingAlgorithm,
};
use vstd::prelude::*;

verus! {

/// `sort_unstable` of std on the whole of `list`: afterwards the list is in
/// non-decreasing order and holds what it held before.
#[verifier::external_body]
fn sort_unstable(list: &mut Vec<usize>)
    ensures
        sorted(final(list)@),
        final(list)@.to_multiset() == old(list)@.to_multiset(),
{
    list.sort_unstable();
}

/// Whether two lists hold the same elements in the same order.
fn same_list(a: &Vec<usize>, b: &Vec<usize>) -> (same: bool)
    ensures
        same == (a@ == b@),
{
    if a.len() != b.len() {
        return false;
    }
    let mut i: usize = 0;
    while i < a.len()
        invariant
            i <= a@.len(),
            a@.len() == b@.len(),
            a@.take(i as int) == b@.take(i as int),
        decreases a@.len() - i,
    {
        if a[i] != b[i] {
            return false;
        }
        i += 1;
        assert(a@.take(i as int) == a@.take(i - 1).push(a@[i - 1]));
        assert(b@.take(i as int) == b@.take(i - 1).push(b@[i - 1]));
    }
    assert(a@.take(i as int) == a@ && b@.take(i as int) == b@);
    true
}

/// A copy of each list.
fn copy_lists(list: &Vec<Vec<usize>>) -> (copy: Vec<Vec<usize>>)
    ensures
        partition(copy@) == partition(list@),
{
    let mut copy: Vec<Vec<usize>> = Vec::new();
    let mut i: usize = 0;
    while i < list.len()
        invariant
            i <= list@.len(),
            copy@.len() == i,
            forall|k: int| 0 <= k < i ==> (#[trigger] copy@[k])@ == list@[k]@,
        decreases list@.len() - i,
    {
        copy.push(list[i].clone());
        i += 1;
    }
    copy
}

/// The state between two frames.
pub struct ProgramState {
    list: Vec<Vec<usize>>,
    sorted_list: Vec<usize>,
    highlights: Vec<(usize, usize)>,
    algorithm: Option<Algorithm>,
    running: bool,
    sorted: bool,
}

/// What a `ProgramState` holds.
pub struct ProgramModel {
    /// The list on display, in segments.
    pub segments: Seq<Seq<usize>>,
    /// The sorted list that the display is held against.
    pub reference: Seq<usize>,
    /// The elements to highlight: a segment and a place within it.
    pub highlights: Seq<(usize, usize)>,
    /// The algorithm at work.
    pub algorithm: Option<Algorithm>,
    /// Whether the animation runs.
    pub running: bool,
    /// Whether the list was found sorted.
    pub sorted: bool,
}

impl ProgramModel {
    /// Whether `after` is the algorithm of this state, one step on; without
    /// an algorithm there is none afterwards either.
    pub open spec fn steps_to(self, after: Option<Algorithm>) -> bool {
        match self.algorithm {
            Some(before) => after matches Some(machine) && before.steps_to(&machine),
            None => after is None,
        }
    }

    /// Whether `after` is the algorithm of this state, started afresh on
    /// `list`; without an algorithm there is none afterwards either.
    pub open spec fn restarts_as(self, after: Option<Algorithm>, list: Seq<usize>) -> bool {
        match self.algorithm {
            Some(before) => after matches Some(machine) && before.restarts_as(machine, list),
            None => after is None,
        }
    }
}

impl ProgramState {
    /// The reference is in non-decreasing order.
    #[verifier::type_invariant]
    spec fn reference_is_sorted(self) -> bool {
        sorted(self.sorted_list@)
    }
}

impl View for ProgramState {
    type V = ProgramModel;

    closed spec fn view(&self) -> ProgramModel {
        ProgramModel {
            segments: partition(self.list@),
            reference: self.sorted_list@,
            highlights: self.highlights@,
            algorithm: self.algorithm,
            running: self.running,
            sorted: self.sorted,
        }
    }
}

impl Default for ProgramState {
    /// Nothing on display, no algorithm, at rest.
    fn default() -> (state: Self)
        ensures
            state@ == (ProgramModel {
                segments: Seq::empty(),
                reference: Seq::empty(),
                highlights: Seq::empty(),
                algorithm: None,
                running: false,
                sorted: false,
            }),
    {
        let state = Self {
            list: Vec::new(),
            sorted_list: Vec::new(),
            highlights: Vec::new(),
            algorithm: None,
            running: false,
            sorted: false,
        };
        assert(partition(state.list@) == Seq::<Seq<usize>>::empty());
        state
    }
}

impl ProgramState {
    /// The list on display.
    pub fn list(&self) -> (list: &Vec<Vec<usize>>)
        ensures
            partition(list@) == self@.segments,
    {
        &self.list
    }

    /// The elements to highlight.
    pub fn highlights(&self) -> (highlights: &Vec<(usize, usize)>)
        ensures
            highlights@ == self@.highlights,
    {
        &self.highlights
    }

    /// The algorithm at work.
    pub fn algorithm(&self) -> (algorithm: &Option<Algorithm>)
        ensures
            *algorithm == self@.algorithm,
    {
        &self.algorithm
    }

    /// Whether the animation runs.
    pub fn is_running(&self) -> (running: bool)
        ensures
            running == self@.running,
    {
        self.running
    }

    /// Whether the list was found sorted.
    pub fn is_sorted(&self) -> (sorted: bool)
        ensures
            sorted == self@.sorted,
    {
        self.sorted
    }

    /// Puts `algorithm` to work and its list on display.
    pub fn select(&mut self, algorithm: Algorithm)
        ensures
            final(self)@ == (ProgramModel {
                segments: algorithm.segments(),
                algorithm: Some(algorithm),
                ..old(self)@
            }),
    {
        proof {
            use_type_invariant(&*self);
        }
        self.list = algorithm.get_list().0;
        self.algorithm = Some(algorithm);
    }

    /// Shuffles the list on display into one segment and hands it to the
    /// algorithm. The list counts as unsorted afterwards.
    pub fn shuffle(&mut self)
        ensures
            final(self)@.segments.len() == 1,
            final(self)@.segments[0].to_multiset() == old(self)@.segments.flatten().to_multiset(),
            old(self)@.restarts_as(final(self)@.algorithm, final(self)@.segments[0]),
            final(self)@ == (ProgramModel {
                segments: final(self)@.segments,
                algorithm: final(self)@.algorithm,
                sorted: false,
                ..old(self)@
            }),
    {
        proof {
            use_type_invariant(&*self);
        }
        let mut rng = rand::thread_rng();
        let mut new_list = flatten_lists(&self.list);
        shuffle(&mut new_list, &mut rng);
        self.replace_list(new_list);
        self.sorted = false;
    }

    /// Puts the one segment `new_list` on display and hands it to the
    /// algorithm.
    fn replace_list(&mut self, new_list: Vec<usize>)
        ensures
            old(self)@.restarts_as(final(self)@.algorithm, new_list@),
            final(self)@ == (ProgramModel {
                segments: seq![new_list@],
                algorithm: final(self)@.algorithm,
                ..old(self)@
            }),
    {
        proof {
            use_type_invariant(&*self);
        }
        let mut list: Vec<Vec<usize>> = Vec::new();
        list.push(new_list);
        assert(partition(list@) == seq![new_list@]);
        proof {
            seq![new_list@].lemma_flatten_one_element();
        }
        self.restart_algorithm(copy_lists(&list));
        self.list = list;
    }

    /// Starts the algorithm, if there is one, afresh on `list`.
    fn restart_algorithm(&mut self, list: Vec<Vec<usize>>)
        ensures
            old(self)@.restarts_as(final(self)@.algorithm, partition(list@).flatten()),
            final(self)@ == (ProgramModel { algorithm: final(self)@.algorithm, ..old(self)@ }),
    {
        proof {
            use_type_invariant(&*self);
        }
        let mut algorithm: Option<Algorithm> = None;
        std::mem::swap(&mut self.algorithm, &mut algorithm);
        if let Some(machine) = &mut algorithm {
            machine.set_list(list);
        }
        self.algorithm = algorithm;
    }

    /// Lets the algorithm, if there is one, take a step.
    fn step_algorithm(&mut self)
        ensures
            old(self)@.steps_to(final(self)@.algorithm),
            final(self)@ == (ProgramModel { algorithm: final(self)@.algorithm, ..old(self)@ }),
    {
        proof {
            use_type_invariant(&*self);
        }
        let mut algorithm: Option<Algorithm> = None;
        std::mem::swap(&mut self.algorithm, &mut algorithm);
        if let Some(machine) = &mut algorithm {
            machine.step();
        }
        self.algorithm = algorithm;
    }

    /// The play button: the animation runs, unless the list is sorted.
    pub fn play(&mut self)
        ensures
            final(self)@ == if old(self)@.sorted {
                old(self)@
            } else {
                ProgramModel { running: true, ..old(self)@ }
            },
    {
        proof {
            use_type_invariant(&*self);
        }
        if !self.sorted {
            self.running = true;
        }
    }

    /// The pause button: the animation rests.
    pub fn pause(&mut self)
        ensures
            final(self)@ == if old(self)@.sorted {
                old(self)@
            } else {
                ProgramModel { running: false, ..old(self)@ }
            },
    {
        proof {
            use_type_invariant(&*self);
        }
        if !self.sorted {
            self.running = false;
        }
    }

    /// The step button: unless the list is sorted, the animation rests and
    /// the algorithm takes one step.
    pub fn step_once(&mut self)
        ensures
            old(self)@.sorted ==> final(self)@ == old(self)@,
            !old(self)@.sorted ==> {
                &&& old(self)@.steps_to(final(self)@.algorithm)
                &&& final(self)@ == (ProgramModel {
                    running: false,
                    algorithm: final(self)@.algorithm,
                    ..old(self)@
                })
            },
    {
        proof {
            use_type_invariant(&*self);
        }
        if !self.sorted {
            self.running = false;
            self.step_algorithm();
        }
    }

    /// The length control: where `length` is not the number of elements on
    /// display, the list becomes `1, 2, .., length` and the algorithm starts
    /// afresh on it.
    pub fn resize(&mut self, length: usize)
        ensures
            old(self)@.segments.flatten().len() == length ==> final(self)@ == old(self)@,
            old(self)@.segments.flatten().len() != length ==> {
                &&& old(self)@.restarts_as(final(self)@.algorithm, identity(length as nat))
                &&& final(self)@ == (ProgramModel {
                    segments: seq![identity(length as nat)],
                    algorithm: final(self)@.algorithm,
                    ..old(self)@
                })
            },
    {
        if flatten_lists(&self.list).len() != length {
            self.replace_list(identity_list(length));
        }
    }

    /// Starts the algorithm afresh on the list on display.
    pub fn restart(&mut self)
        ensures
            old(self)@.restarts_as(final(self)@.algorithm, old(self)@.segments.flatten()),
            final(self)@ == (ProgramModel { algorithm: final(self)@.algorithm, ..old(self)@ }),
    {
        self.restart_algorithm(copy_lists(&self.list));
    }

    /// Brings the display up to date with the algorithm and looks whether the
    /// list is sorted. Where the list is found to equal the reference, the
    /// state is marked sorted, the animation rests, and `true` is returned.
    /// Otherwise, where the two differ in length, the reference becomes the
    /// sorted list of what is on display.
    pub fn frame_update(&mut self) -> (found_sorted: bool)
        ensures
            final(self)@.algorithm == old(self)@.algorithm,
            final(self)@.segments == match old(self)@.algorithm {
                Some(algorithm) => algorithm.segments(),
                None => old(self)@.segments,
            },
            final(self)@.highlights == match old(self)@.algorithm {
                Some(_) => Seq::empty(),
                None => old(self)@.highlights,
            },
            found_sorted == (!old(self)@.sorted && final(self)@.segments.flatten() == old(
                self,
            )@.reference),
            final(self)@.sorted == (old(self)@.sorted || found_sorted),
            final(self)@.running == (old(self)@.running && !found_sorted),
            found_sorted || final(self)@.segments.flatten().len() == old(self)@.reference.len()
                ==> final(self)@.reference == old(self)@.reference,
            !found_sorted && final(self)@.segments.flatten().len() != old(self)@.reference.len()
                ==> final(self)@.reference.to_multiset()
                == final(self)@.segments.flatten().to_multiset(),
            sorted(final(self)@.reference),
            found_sorted ==> sorted(final(self)@.segments.flatten()),
    {
        proof {
            use_type_invariant(&*self);
        }
        if let Some(algorithm) = &self.algorithm {
            let (list, highlights) = algorithm.get_list();
            self.list = list;
            self.highlights = if self.running {
                highlights
            } else {
                Vec::new()
            };
        }
        let mut flat_list = flatten_lists(&self.list);
        if !self.sorted && same_list(&flat_list, &self.sorted_list) {
            self.sorted = true;
            self.running = false;
            true
        } else {
            if flat_list.len() != self.sorted_list.len() {
                sort_unstable(&mut flat_list);
                self.sorted_list = flat_list;
            }
            false
        }
    }

    /// The timer: where the animation runs and a step is due, the algorithm
    /// takes one, and `true` is returned.
    pub fn advance(&mut self, due: bool) -> (stepped: bool)
        ensures
            stepped == (old(self)@.running && due && old(self)@.algorithm is Some),
            stepped ==> old(self)@.steps_to(final(self)@.algorithm),
            !stepped ==> final(self)@.algorithm == old(self)@.algorithm,
            final(self)@ == (ProgramModel { algorithm: final(self)@.algorithm, ..old(self)@ }),
    {
        if self.running && due && self.algorithm.is_some() {
            self.step_algorithm();
            true
        } else {
            false
        }
    }
}

} // verus!
