//! Merge sort on one backing list, with index ranges in place of copies.

use super::{flatten_lists, identity, identity_list, partition, SortingAlgorithm};
use std::ops::Range;
use std::time::Duration;
use vstd::prelude::*;

verus! {

/// The index ranges that the backing list is divided into.
pub enum RecursiveSlices {
    /// A range of the list and whether it is sorted.
    Range(Range<usize>, bool),
    /// Two neighbouring parts that are not merged yet.
    Split(Box<RecursiveSlices>, Box<RecursiveSlices>),
}

impl RecursiveSlices {
    /// Where the ranges begin.
    pub open spec fn start(self) -> int
        decreases self,
    {
        match self {
            RecursiveSlices::Range(range, _) => range.start as int,
            RecursiveSlices::Split(left, _) => left.start(),
        }
    }

    /// Where the ranges end.
    pub open spec fn end(self) -> int
        decreases self,
    {
        match self {
            RecursiveSlices::Range(range, _) => range.end as int,
            RecursiveSlices::Split(_, right) => right.end(),
        }
    }

    /// The ranges follow each other without a gap or an overlap.
    pub open spec fn tiles(self) -> bool
        decreases self,
    {
        match self {
            RecursiveSlices::Range(range, _) => range.start <= range.end,
            RecursiveSlices::Split(left, right) => left.tiles() && right.tiles() && left.end()
                == right.start(),
        }
    }
}

/// The merge sort in place. It holds the list and the ranges, and its step
/// leaves both as they are.
pub struct MergeInPlace {
    list: Vec<usize>,
    slices: RecursiveSlices,
}

impl View for MergeInPlace {
    type V = Seq<usize>;

    /// The backing list.
    closed spec fn view(&self) -> Seq<usize> {
        self.list@
    }
}

impl MergeInPlace {
    /// The index ranges.
    pub closed spec fn slices(&self) -> RecursiveSlices {
        self.slices
    }

    /// The ranges tile the whole list.
    pub open spec fn wf(&self) -> bool {
        &&& self.slices().tiles()
        &&& self.slices().start() == 0
        &&& self.slices().end() == self@.len()
    }
}

impl Default for MergeInPlace {
    fn default() -> (machine: Self)
        ensures
            machine@ == identity(16),
            machine.slices() == RecursiveSlices::Range(0..16, false),
            machine.wf(),
    {
        let list = identity_list(16);
        Self { list, slices: RecursiveSlices::Range(0..16, false) }
    }
}

impl SortingAlgorithm for MergeInPlace {
    open spec fn segments(&self) -> Seq<Seq<usize>> {
        seq![self@]
    }

    open spec fn label(&self) -> Seq<char> {
        "Merge Sort In-Place"@
    }

    open spec fn delay_millis(&self) -> u64 {
        120
    }

    /// The list and the ranges stay as they are.
    open spec fn steps_to(&self, after: &Self) -> bool {
        after@ == self@ && after.slices() == self.slices()
    }

    fn get_name(&self) -> (name: &str) {
        "Merge Sort In-Place"
    }

    fn get_list(&self) -> (view: (Vec<Vec<usize>>, Vec<(usize, usize)>))
        ensures
            view.1@ == Seq::<(usize, usize)>::empty(),
    {
        let mut lists: Vec<Vec<usize>> = Vec::new();
        lists.push(self.list.clone());
        assert(partition(lists@) == seq![self@]);
        (lists, Vec::new())
    }

    fn set_list(&mut self, list: Vec<Vec<usize>>)
        ensures
            final(self)@ == partition(list@).flatten(),
            final(self).slices() == RecursiveSlices::Range(
                0..(partition(list@).flatten().len() as usize),
                false,
            ),
            final(self).wf(),
    {
        self.list = flatten_lists(&list);
        self.slices = RecursiveSlices::Range(0..self.list.len(), false);
    }

    fn get_delay(&self) -> (delay: Duration) {
        Duration::from_millis(120)
    }

    /// Leaves the list and the ranges as they are.
    fn step(&mut self)
        ensures
            final(self)@ == old(self)@,
            final(self).slices() == old(self).slices(),
    {
    }
}

} // verus!
