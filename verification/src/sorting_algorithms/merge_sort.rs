//! Merge sort as a tree of segments that is split and merged one node per step.

use super::merge_sort_laws::{
    lemma_leaf_list, lemma_merged_permutes, lemma_merged_sorted, lemma_step_keeps_wf,
    lemma_step_permutes,
};
use super::{flatten_lists, identity, identity_list, partition, SortingAlgorithm};
use std::time::Duration;
use vstd::prelude::*;

verus! {

/// Whether `s` is non-decreasing.
pub open spec fn sorted(s: Seq<usize>) -> bool {
    forall|i: int, j: int| 0 <= i <= j < s.len() ==> s[i] <= s[j]
}

/// The stable two-way merge of `a` and `b`: the smaller front element is taken
/// first, and on a tie the one of `a`.
pub open spec fn merged(a: Seq<usize>, b: Seq<usize>) -> Seq<usize>
    decreases a.len() + b.len(),
{
    if a.len() == 0 {
        b
    } else if b.len() == 0 {
        a
    } else if a[0] <= b[0] {
        seq![a[0]] + merged(a.skip(1), b)
    } else {
        seq![b[0]] + merged(a, b.skip(1))
    }
}

/// Appends `src[from..]` to `out`.
fn extend_from(out: &mut Vec<usize>, src: &[usize], from: usize)
    requires
        from <= src@.len(),
    ensures
        final(out)@ == old(out)@ + src@.skip(from as int),
{
    let mut k: usize = from;
    while k < src.len()
        invariant
            from <= k <= src@.len(),
            out@ == old(out)@ + src@.subrange(from as int, k as int),
        decreases src@.len() - k,
    {
        out.push(src[k]);
        k += 1;
    }
}

/// Merges two segments into a new list. Of two sorted segments the result is
/// sorted too, and it always holds the elements of both.
pub fn merge(a: &[usize], b: &[usize]) -> (new_list: Vec<usize>)
    ensures
        new_list@ == merged(a@, b@),
        new_list@.len() == a@.len() + b@.len(),
        new_list@.to_multiset() == (a@ + b@).to_multiset(),
        sorted(a@) && sorted(b@) ==> sorted(new_list@),
{
    proof {
        lemma_merged_permutes(a@, b@);
        if sorted(a@) && sorted(b@) {
            lemma_merged_sorted(a@, b@);
        }
    }
    let mut new_list: Vec<usize> = Vec::new();
    let mut a_index: usize = 0;
    let mut b_index: usize = 0;
    assert(a@.skip(0) == a@ && b@.skip(0) == b@);
    while a_index < a.len() && b_index < b.len()
        invariant
            a_index <= a@.len(),
            b_index <= b@.len(),
            merged(a@, b@) == new_list@ + merged(a@.skip(a_index as int), b@.skip(b_index as int)),
        decreases a@.len() - a_index + b@.len() - b_index,
    {
        let ghost rest_a = a@.skip(a_index as int);
        let ghost rest_b = b@.skip(b_index as int);
        if a[a_index] <= b[b_index] {
            new_list.push(a[a_index]);
            a_index += 1;
            assert(rest_a.skip(1) == a@.skip(a_index as int));
        } else {
            new_list.push(b[b_index]);
            b_index += 1;
            assert(rest_b.skip(1) == b@.skip(b_index as int));
        }
    }
    if a_index == a.len() {
        extend_from(&mut new_list, b, b_index);
    } else {
        extend_from(&mut new_list, a, a_index);
    }
    new_list
}

/// The state of a merge sort in progress.
#[derive(Debug)]
pub enum MergeTree {
    /// Two parts that are not merged yet.
    Branch(Box<MergeTree>, Box<MergeTree>),
    /// The contents and whether they are sorted.
    Leaf(Vec<usize>, bool),
}

/// What a `MergeTree` stands for: the same tree over mathematical sequences.
pub enum TreeModel {
    /// A left and a right part that are not merged yet.
    Branch(Box<TreeModel>, Box<TreeModel>),
    /// A segment, and whether it is marked sorted.
    Leaf(Seq<usize>, bool),
}

impl TreeModel {
    /// The elements of all leaves, from left to right.
    pub open spec fn elements(self) -> Seq<usize>
        decreases self,
    {
        match self {
            TreeModel::Branch(left, right) => left.elements() + right.elements(),
            TreeModel::Leaf(list, _) => list,
        }
    }

    /// The segments of the leaves, from left to right.
    pub open spec fn segments(self) -> Seq<Seq<usize>>
        decreases self,
    {
        match self {
            TreeModel::Branch(left, right) => left.segments() + right.segments(),
            TreeModel::Leaf(list, _) => seq![list],
        }
    }

    /// The leaves, from left to right.
    pub open spec fn leaf_list(self) -> Seq<TreeModel>
        decreases self,
    {
        match self {
            TreeModel::Branch(left, right) => left.leaf_list() + right.leaf_list(),
            TreeModel::Leaf(_, _) => seq![self],
        }
    }

    /// No leaf is marked sorted unless its segment is non-decreasing.
    pub open spec fn wf(self) -> bool
        decreases self,
    {
        match self {
            TreeModel::Branch(left, right) => left.wf() && right.wf(),
            TreeModel::Leaf(list, is_sorted) => is_sorted ==> sorted(list),
        }
    }

    /// A leaf that needs no more work: it is marked sorted, or too short to be
    /// out of order.
    pub open spec fn settled(self) -> bool {
        match self {
            TreeModel::Branch(_, _) => false,
            TreeModel::Leaf(list, is_sorted) => is_sorted || list.len() <= 1,
        }
    }

    /// The tree after one step. The search goes depth first and left to
    /// right: a settled leaf is marked sorted and passed over, the first leaf
    /// that is not settled is split into halves, and the first branch of two
    /// settled leaves is replaced by their merge.
    pub open spec fn step(self) -> TreeModel
        decreases self,
    {
        match self {
            TreeModel::Leaf(list, is_sorted) => if is_sorted || list.len() <= 1 {
                TreeModel::Leaf(list, true)
            } else {
                let half = (list.len() / 2) as int;
                TreeModel::Branch(
                    Box::new(TreeModel::Leaf(list.take(half), false)),
                    Box::new(TreeModel::Leaf(list.skip(half), false)),
                )
            },
            TreeModel::Branch(left, right) => if left.settled() && right.settled() {
                TreeModel::Leaf(merged(left.elements(), right.elements()), true)
            } else if left.settled() {
                TreeModel::Branch(Box::new(left.step()), Box::new(right.step()))
            } else {
                TreeModel::Branch(Box::new(left.step()), right)
            },
        }
    }

    /// The tree after `count` steps.
    pub open spec fn steps(self, count: nat) -> TreeModel
        decreases count,
    {
        if count == 0 {
            self
        } else {
            self.step().steps((count - 1) as nat)
        }
    }

    /// A single leaf that is marked sorted: the state in which the sort ends.
    pub open spec fn terminal(self) -> bool {
        self matches TreeModel::Leaf(_, is_sorted) && is_sorted
    }

    /// What the next step does to the segments.
    pub open spec fn transition(self) -> Transition
        decreases self,
    {
        match self {
            TreeModel::Leaf(_, _) => if self.settled() {
                Transition::Idle
            } else {
                Transition::Split(0)
            },
            TreeModel::Branch(left, right) => if left.settled() && right.settled() {
                Transition::Merge(0)
            } else if left.settled() {
                right.transition().shifted(left.segments().len() as int)
            } else {
                left.transition()
            },
        }
    }

    /// The number of steps that split or merge before the tree is a single
    /// settled leaf.
    pub open spec fn remaining(self) -> nat
        decreases self,
    {
        match self {
            TreeModel::Leaf(list, _) => if self.settled() {
                0
            } else {
                (2 * list.len() - 2) as nat
            },
            TreeModel::Branch(left, right) => left.remaining() + right.remaining() + 1,
        }
    }
}

/// What one step does to the segments of a tree.
pub enum Transition {
    /// No segment is split and none are merged.
    Idle,
    /// The segment at this index is split into its halves.
    Split(int),
    /// The segment at this index and the next one are merged.
    Merge(int),
}

impl Transition {
    /// The same transition, `by` segments further to the right.
    pub open spec fn shifted(self, by: int) -> Transition {
        match self {
            Transition::Idle => Transition::Idle,
            Transition::Split(at) => Transition::Split(at + by),
            Transition::Merge(at) => Transition::Merge(at + by),
        }
    }

    /// Whether the transition can be made on `segments`: a segment that is
    /// split has two elements or more, and a merge has two segments.
    pub open spec fn fits(self, segments: Seq<Seq<usize>>) -> bool {
        match self {
            Transition::Idle => true,
            Transition::Split(at) => 0 <= at < segments.len() && segments[at].len() >= 2,
            Transition::Merge(at) => 0 <= at && at + 1 < segments.len(),
        }
    }

    /// The segments after the transition.
    pub open spec fn apply(self, segments: Seq<Seq<usize>>) -> Seq<Seq<usize>> {
        match self {
            Transition::Idle => segments,
            Transition::Split(at) => {
                let half = (segments[at].len() / 2) as int;
                segments.take(at) + seq![segments[at].take(half), segments[at].skip(half)]
                    + segments.skip(at + 1)
            },
            Transition::Merge(at) => segments.take(at) + seq![
                merged(segments[at], segments[at + 1]),
            ] + segments.skip(at + 2),
        }
    }
}

/// What each tree of `trees` stands for.
pub open spec fn models(trees: Seq<MergeTree>) -> Seq<TreeModel> {
    Seq::new(trees.len(), |i: int| trees[i]@)
}

impl View for MergeTree {
    type V = TreeModel;

    open spec fn view(&self) -> TreeModel {
        self.model()
    }
}

impl Clone for MergeTree {
    fn clone(&self) -> (copy: Self)
        ensures
            copy@ == self@,
        decreases self,
    {
        match self {
            MergeTree::Branch(left, right) => MergeTree::Branch(
                Box::new((&**left).clone()),
                Box::new((&**right).clone()),
            ),
            MergeTree::Leaf(list, sorted) => MergeTree::Leaf(list.clone(), *sorted),
        }
    }
}

impl MergeTree {
    /// The tree with each list replaced by the sequence it holds.
    pub open spec fn model(self) -> TreeModel
        decreases self,
    {
        match self {
            MergeTree::Branch(left, right) => TreeModel::Branch(
                Box::new(left.model()),
                Box::new(right.model()),
            ),
            MergeTree::Leaf(list, sorted) => TreeModel::Leaf(list@, sorted),
        }
    }

    /// A tree of one leaf that holds `list` and is not known to be sorted.
    pub fn new(list: Vec<usize>) -> (tree: Self)
        ensures
            tree@ == TreeModel::Leaf(list@, false),
    {
        Self::Leaf(list, false)
    }

    /// The leaves from left to right, each a copy.
    pub fn flatten(&self) -> (leaves: Vec<Self>)
        ensures
            models(leaves@) == self@.leaf_list(),
        decreases self,
    {
        match self {
            Self::Leaf(..) => {
                let mut leaves: Vec<Self> = Vec::new();
                leaves.push(self.clone());
                assert(models(leaves@) == seq![self@]);
                leaves
            },
            Self::Branch(left, right) => {
                let mut leaves = left.flatten();
                let mut right_leaves = right.flatten();
                let ghost left_part = leaves@;
                let ghost right_part = right_leaves@;
                leaves.append(&mut right_leaves);
                assert(models(leaves@) == models(left_part) + models(right_part));
                leaves
            },
        }
    }

    /// Whether this is a leaf that needs no more work.
    pub fn is_settled(&self) -> (settled: bool)
        ensures
            settled == self@.settled(),
    {
        match self {
            MergeTree::Branch(_, _) => false,
            MergeTree::Leaf(list, sorted) => *sorted || list.len() <= 1,
        }
    }

    /// The list of a leaf.
    fn segment(&self) -> (list: &Vec<usize>)
        requires
            self@ is Leaf,
        ensures
            list@ == self@.elements(),
    {
        match self {
            MergeTree::Branch(_, _) => unreached(),
            MergeTree::Leaf(list, _) => list,
        }
    }
}

/// Does the one step that is due in `tree`: see `TreeModel::step`. No
/// element is lost or added, and a well formed tree stays so.
pub fn recurse_down(tree: &mut MergeTree)
    ensures
        final(tree)@ == old(tree)@.step(),
        final(tree)@.elements().to_multiset() == old(tree)@.elements().to_multiset(),
        old(tree)@.wf() ==> final(tree)@.wf(),
    decreases *old(tree),
{
    proof {
        lemma_step_permutes(tree@);
        if tree@.wf() {
            lemma_step_keeps_wf(tree@);
        }
    }
    match tree {
        MergeTree::Leaf(list, sorted) => {
            if *sorted {
                return ;
            }
            if list.len() <= 1 {
                *sorted = true;
                return ;
            }
            let ghost whole = list@;
            let half: usize = list.len() / 2;
            let right = list.split_off(half);
            let mut left: Vec<usize> = Vec::new();
            std::mem::swap(list, &mut left);
            let left_leaf = MergeTree::Leaf(left, false);
            let right_leaf = MergeTree::Leaf(right, false);
            assert(left_leaf@ == TreeModel::Leaf(whole.take(half as int), false));
            assert(right_leaf@ == TreeModel::Leaf(whole.skip(half as int), false));
            *tree = MergeTree::Branch(Box::new(left_leaf), Box::new(right_leaf));
        },
        MergeTree::Branch(left, right) => {
            if left.is_settled() && right.is_settled() {
                let new_list = merge(left.segment(), right.segment());
                *tree = MergeTree::Leaf(new_list, true);
            } else if left.is_settled() {
                recurse_down(left);
                recurse_down(right);
            } else {
                recurse_down(left);
            }
        },
    }
}

/// The merge sort, one split or one merge per step.
pub struct MergeSort {
    merge_tree: MergeTree,
}

impl MergeSort {
    /// No leaf of the tree is marked sorted unless its segment is sorted.
    #[verifier::type_invariant]
    spec fn well_formed(self) -> bool {
        self.merge_tree@.wf()
    }
}

impl View for MergeSort {
    type V = TreeModel;

    closed spec fn view(&self) -> TreeModel {
        self.merge_tree@
    }
}

impl Clone for MergeSort {
    fn clone(&self) -> (copy: Self)
        ensures
            copy@ == self@,
            copy@.wf(),
    {
        proof {
            use_type_invariant(self);
        }
        Self { merge_tree: self.merge_tree.clone() }
    }
}

impl Default for MergeSort {
    fn default() -> (machine: Self)
        ensures
            machine@ == TreeModel::Leaf(identity(16), false),
            machine@.wf(),
    {
        Self { merge_tree: MergeTree::new(identity_list(16)) }
    }
}

impl SortingAlgorithm for MergeSort {
    open spec fn segments(&self) -> Seq<Seq<usize>> {
        self@.segments()
    }

    open spec fn label(&self) -> Seq<char> {
        "Merge Sort"@
    }

    open spec fn delay_millis(&self) -> u64 {
        120
    }

    /// The tree takes its step.
    open spec fn steps_to(&self, after: &Self) -> bool {
        after@ == self@.step()
    }

    fn get_name(&self) -> (name: &str) {
        "Merge Sort"
    }

    fn get_list(&self) -> (view: (Vec<Vec<usize>>, Vec<(usize, usize)>))
        ensures
            view.1@ == Seq::<(usize, usize)>::empty(),
            self@.wf(),
    {
        let leaves = self.merge_tree.flatten();
        proof {
            use_type_invariant(self);
            lemma_leaf_list(self@);
        }
        let mut lists: Vec<Vec<usize>> = Vec::new();
        let mut i: usize = 0;
        while i < leaves.len()
            invariant
                i <= leaves@.len(),
                models(leaves@) == self@.leaf_list(),
                self@.leaf_list().len() == self@.segments().len(),
                forall|k: int|
                    0 <= k < self@.leaf_list().len() ==> {
                        &&& (#[trigger] self@.leaf_list()[k]) is Leaf
                        &&& self@.leaf_list()[k].elements() == self@.segments()[k]
                    },
                leaves@.len() == self@.segments().len(),
                lists@.len() == i,
                partition(lists@) == self@.segments().take(i as int),
            decreases leaves@.len() - i,
        {
            assert(leaves@[i as int]@ == models(leaves@)[i as int]);
            let list = leaves[i].segment().clone();
            assert(list@ == self@.segments()[i as int]);
            let ghost before = lists@;
            let ghost segments = self@.segments();
            lists.push(list);
            i += 1;
            assert forall|k: int| 0 <= k < i implies partition(lists@)[k] == segments[k] by {
                if k < i - 1 {
                    assert(partition(before)[k] == segments.take(i - 1)[k]);
                }
            }
            assert(partition(lists@) == segments.take(i as int));
        }
        assert(self@.segments().take(i as int) == self@.segments());
        (lists, Vec::new())
    }

    fn set_list(&mut self, list: Vec<Vec<usize>>)
        ensures
            final(self)@ == TreeModel::Leaf(partition(list@).flatten(), false),
            final(self)@.wf(),
    {
        self.merge_tree = MergeTree::new(flatten_lists(&list));
    }

    fn get_delay(&self) -> (delay: Duration) {
        Duration::from_millis(120)
    }

    fn step(&mut self)
        ensures
            final(self)@ == old(self)@.step(),
            old(self)@.wf(),
            final(self)@.wf(),
    {
        proof {
            use_type_invariant(&*self);
            lemma_step_permutes(self@);
            lemma_step_keeps_wf(self@);
        }
        let mut tree = MergeTree::new(Vec::new());
        std::mem::swap(&mut self.merge_tree, &mut tree);
        recurse_down(&mut tree);
        self.merge_tree = tree;
    }
}

} // verus!
