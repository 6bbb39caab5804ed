//! Bogo sort: every step shuffles the whole list.

use super::{flatten_lists, identity, identity_list, partition, SortingAlgorithm};
use rand::rngs::ThreadRng;
use rand::seq::SliceRandom;
use std::time::Duration;
use vstd::prelude::*;

verus! {

/// rand's handle to the random number generator of the current thread.
#[verifier::external_type_specification]
#[verifier::external_body]
pub struct ExThreadRng(ThreadRng);

/// `rand::thread_rng`: hands out the generator of the current thread. Nothing
/// is claimed of it. It panics only where the operating system gives the
/// generator no seed.
pub assume_specification[ rand::thread_rng ]() -> (rng: ThreadRng)
;

/// `ThreadRng::clone`: another handle to the same generator. Nothing is
/// claimed of it.
pub assume_specification[ <ThreadRng as Clone>::clone ](rng: &ThreadRng) -> (copy: ThreadRng)
;

/// `SliceRandom::shuffle` of rand, on the whole of `list`: it only swaps
/// elements, so the list holds afterwards what it held before, in an order
/// that the generator picks. Nothing is claimed of that order. The call
/// panics only where the generator is due for a new seed and the operating
/// system gives none.
#[verifier::external_body]
pub(crate) fn shuffle(list: &mut Vec<usize>, rng: &mut ThreadRng)
    ensures
        final(list)@.to_multiset() == old(list)@.to_multiset(),
{
    list.shuffle(rng);
}

/// The bogo sort: a single segment and a random number generator.
pub struct BogoSort {
    current_list: Vec<usize>,
    rng: ThreadRng,
}

impl View for BogoSort {
    type V = Seq<usize>;

    /// The working list.
    closed spec fn view(&self) -> Seq<usize> {
        self.current_list@
    }
}

impl Clone for BogoSort {
    fn clone(&self) -> (copy: Self)
        ensures
            copy@ == self@,
    {
        Self { current_list: self.current_list.clone(), rng: self.rng.clone() }
    }
}

impl Default for BogoSort {
    fn default() -> (machine: Self)
        ensures
            machine@ == identity(4),
    {
        Self { current_list: identity_list(4), rng: rand::thread_rng() }
    }
}

impl SortingAlgorithm for BogoSort {
    open spec fn segments(&self) -> Seq<Seq<usize>> {
        seq![self@]
    }

    open spec fn label(&self) -> Seq<char> {
        "Bogo Sort"@
    }

    open spec fn delay_millis(&self) -> u64 {
        40
    }

    /// The list holds the same elements, in any order.
    open spec fn steps_to(&self, after: &Self) -> bool {
        after@.to_multiset() == self@.to_multiset()
    }

    fn get_name(&self) -> (name: &str) {
        "Bogo Sort"
    }

    fn get_list(&self) -> (view: (Vec<Vec<usize>>, Vec<(usize, usize)>))
        ensures
            view.1@ == Seq::<(usize, usize)>::empty(),
    {
        let mut lists: Vec<Vec<usize>> = Vec::new();
        lists.push(self.current_list.clone());
        assert(partition(lists@) == seq![self@]);
        (lists, Vec::new())
    }

    fn set_list(&mut self, list: Vec<Vec<usize>>)
        ensures
            final(self)@ == partition(list@).flatten(),
    {
        self.current_list = flatten_lists(&list);
    }

    fn get_delay(&self) -> (delay: Duration) {
        Duration::from_millis(40)
    }

    /// Shuffles the list: afterwards it holds the same elements in some order.
    fn step(&mut self)
        ensures
            final(self)@.to_multiset() == old(self)@.to_multiset(),
    {
        proof {
            seq![self@].lemma_flatten_one_element();
        }
        shuffle(&mut self.current_list, &mut self.rng);
        proof {
            seq![self@].lemma_flatten_one_element();
        }
    }
}

} // verus!
