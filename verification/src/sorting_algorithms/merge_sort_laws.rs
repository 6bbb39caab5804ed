//! What holds of merging and of every step of the merge sort.

use super::merge_sort::{merged, sorted, MergeSort, Transition, TreeModel};
use super::{reaches, SortingAlgorithm};
use vstd::prelude::*;
use vstd::seq_lib::{lemma_flatten_concat, lemma_multiset_commutative};

verus! {

/// Merging neither drops nor adds an element: the result has the elements of
/// `a` and of `b`, each as often as the two hold it together.
pub proof fn lemma_merged_permutes(a: Seq<usize>, b: Seq<usize>)
    ensures
        merged(a, b).len() == a.len() + b.len(),
        merged(a, b).to_multiset() == (a + b).to_multiset(),
    decreases a.len() + b.len(),
{
    if a.len() == 0 {
        assert(a + b == b);
    } else if b.len() == 0 {
        assert(a + b == a);
    } else if a[0] <= b[0] {
        let rest = merged(a.skip(1), b);
        lemma_merged_permutes(a.skip(1), b);
        assert(seq![a[0]] + (a.skip(1) + b) == a + b);
        lemma_multiset_commutative(seq![a[0]], rest);
        lemma_multiset_commutative(seq![a[0]], a.skip(1) + b);
    } else {
        let rest = merged(a, b.skip(1));
        lemma_merged_permutes(a, b.skip(1));
        assert(seq![b[0]] + b.skip(1) == b);
        lemma_multiset_commutative(seq![b[0]], rest);
        lemma_multiset_commutative(a, b.skip(1));
        lemma_multiset_commutative(seq![b[0]], b.skip(1));
        lemma_multiset_commutative(a, b);
        assert(seq![b[0]].to_multiset().add(a.to_multiset().add(b.skip(1).to_multiset()))
            == a.to_multiset().add(seq![b[0]].to_multiset().add(b.skip(1).to_multiset())));
    }
}

/// No element of a merge is below a bound that holds of both inputs.
pub proof fn lemma_merged_bounded_below(a: Seq<usize>, b: Seq<usize>, bound: usize)
    requires
        forall|i: int| 0 <= i < a.len() ==> bound <= a[i],
        forall|i: int| 0 <= i < b.len() ==> bound <= b[i],
    ensures
        forall|i: int| 0 <= i < merged(a, b).len() ==> bound <= merged(a, b)[i],
    decreases a.len() + b.len(),
{
    if a.len() == 0 || b.len() == 0 {
    } else if a[0] <= b[0] {
        let rest = merged(a.skip(1), b);
        lemma_merged_bounded_below(a.skip(1), b, bound);
        assert forall|i: int| 0 <= i < merged(a, b).len() implies bound <= merged(a, b)[i] by {
            if i > 0 {
                assert(merged(a, b)[i] == rest[i - 1]);
            }
        }
    } else {
        let rest = merged(a, b.skip(1));
        lemma_merged_bounded_below(a, b.skip(1), bound);
        assert forall|i: int| 0 <= i < merged(a, b).len() implies bound <= merged(a, b)[i] by {
            if i > 0 {
                assert(merged(a, b)[i] == rest[i - 1]);
            }
        }
    }
}

/// Merging two sorted segments gives a sorted segment.
pub proof fn lemma_merged_sorted(a: Seq<usize>, b: Seq<usize>)
    requires
        sorted(a),
        sorted(b),
    ensures
        sorted(merged(a, b)),
    decreases a.len() + b.len(),
{
    if a.len() == 0 || b.len() == 0 {
    } else if a[0] <= b[0] {
        lemma_merged_sorted(a.skip(1), b);
        lemma_merged_bounded_below(a.skip(1), b, a[0]);
    } else {
        lemma_merged_sorted(a, b.skip(1));
        lemma_merged_bounded_below(a, b.skip(1), b[0]);
    }
}

/// Where `a` followed by `b` is sorted already, merging changes nothing.
pub proof fn lemma_merged_of_sorted_whole(a: Seq<usize>, b: Seq<usize>)
    requires
        sorted(a + b),
    ensures
        merged(a, b) == a + b,
    decreases a.len(),
{
    if a.len() == 0 {
        assert(a + b == b);
    } else if b.len() == 0 {
        assert(a + b == a);
    } else {
        assert((a + b)[0] == a[0] && (a + b)[a.len() as int] == b[0]);
        assert(a.skip(1) + b == (a + b).skip(1));
        lemma_merged_of_sorted_whole(a.skip(1), b);
        assert(seq![a[0]] + (a.skip(1) + b) == a + b);
    }
}

/// The segments of a tree, one after the other, are its elements.
pub proof fn lemma_segments_flatten(tree: TreeModel)
    ensures
        tree.segments().flatten() == tree.elements(),
    decreases tree,
{
    match tree {
        TreeModel::Leaf(list, _) => {
            seq![list].lemma_flatten_one_element();
        },
        TreeModel::Branch(left, right) => {
            lemma_segments_flatten(*left);
            lemma_segments_flatten(*right);
            lemma_flatten_concat(left.segments(), right.segments());
        },
    }
}

/// The leaves of a tree are leaves, as many as it has segments, and each
/// holds the segment of its place.
pub proof fn lemma_leaf_list(tree: TreeModel)
    ensures
        tree.leaf_list().len() == tree.segments().len(),
        forall|k: int|
            0 <= k < tree.leaf_list().len() ==> {
                &&& (#[trigger] tree.leaf_list()[k]) is Leaf
                &&& tree.leaf_list()[k].elements() == tree.segments()[k]
            },
    decreases tree,
{
    match tree {
        TreeModel::Leaf(_, _) => {},
        TreeModel::Branch(left, right) => {
            lemma_leaf_list(*left);
            lemma_leaf_list(*right);
        },
    }
}

/// A step neither drops nor adds an element.
pub proof fn lemma_step_permutes(tree: TreeModel)
    ensures
        tree.step().elements().to_multiset() == tree.elements().to_multiset(),
        tree.step().segments().flatten().to_multiset() == tree.segments().flatten().to_multiset(),
    decreases tree,
{
    lemma_segments_flatten(tree);
    lemma_segments_flatten(tree.step());
    match tree {
        TreeModel::Leaf(list, _) => {
            let half = (list.len() / 2) as int;
            reveal_with_fuel(TreeModel::elements, 2);
            assert(list.take(half) + list.skip(half) == list);
        },
        TreeModel::Branch(left, right) => {
            if left.settled() && right.settled() {
                lemma_merged_permutes(left.elements(), right.elements());
            } else if left.settled() {
                lemma_step_permutes(*left);
                lemma_step_permutes(*right);
                lemma_multiset_commutative(left.elements(), right.elements());
                lemma_multiset_commutative(left.step().elements(), right.step().elements());
            } else {
                lemma_step_permutes(*left);
                lemma_multiset_commutative(left.elements(), right.elements());
                lemma_multiset_commutative(left.step().elements(), right.elements());
            }
        },
    }
}

/// Whatever steps are taken, the tree holds the elements it held at first.
pub proof fn lemma_steps_permute(tree: TreeModel, count: nat)
    ensures
        tree.steps(count).elements().to_multiset() == tree.elements().to_multiset(),
        tree.steps(count).segments().flatten().to_multiset()
            == tree.segments().flatten().to_multiset(),
    decreases count,
{
    if count > 0 {
        lemma_step_permutes(tree);
        lemma_steps_permute(tree.step(), (count - 1) as nat);
    }
}

/// A step keeps the tree well formed: what it marks sorted is sorted.
pub proof fn lemma_step_keeps_wf(tree: TreeModel)
    requires
        tree.wf(),
    ensures
        tree.step().wf(),
    decreases tree,
{
    match tree {
        TreeModel::Leaf(_, _) => {
            reveal_with_fuel(TreeModel::wf, 2);
        },
        TreeModel::Branch(left, right) => {
            if left.settled() && right.settled() {
                reveal_with_fuel(TreeModel::wf, 2);
                lemma_merged_sorted(left.elements(), right.elements());
            } else if left.settled() {
                lemma_step_keeps_wf(*left);
                lemma_step_keeps_wf(*right);
            } else {
                lemma_step_keeps_wf(*left);
            }
        },
    }
}

/// Steps keep the tree well formed.
pub proof fn lemma_steps_keep_wf(tree: TreeModel, count: nat)
    requires
        tree.wf(),
    ensures
        tree.steps(count).wf(),
    decreases count,
{
    if count > 0 {
        lemma_step_keeps_wf(tree);
        lemma_steps_keep_wf(tree.step(), (count - 1) as nat);
    }
}

/// Once the tree is a single leaf marked sorted, steps change nothing.
pub proof fn lemma_terminal_is_fixed(tree: TreeModel, count: nat)
    requires
        tree.terminal(),
    ensures
        tree.steps(count) == tree,
    decreases count,
{
    if count > 0 {
        lemma_terminal_is_fixed(tree, (count - 1) as nat);
    }
}

/// Once the elements are in non-decreasing order, a step leaves them so:
/// splitting never moves an element, and merging neighbours that are in order
/// puts them one after the other.
pub proof fn lemma_step_keeps_sorted_elements(tree: TreeModel)
    requires
        sorted(tree.elements()),
    ensures
        tree.step().elements() == tree.elements(),
    decreases tree,
{
    match tree {
        TreeModel::Leaf(list, _) => {
            let half = (list.len() / 2) as int;
            reveal_with_fuel(TreeModel::elements, 2);
            assert(list.take(half) + list.skip(half) == list);
        },
        TreeModel::Branch(left, right) => {
            let l = left.elements();
            let r = right.elements();
            assert(sorted(l)) by {
                assert forall|i: int, j: int| 0 <= i <= j < l.len() implies l[i] <= l[j] by {
                    assert((l + r)[i] == l[i] && (l + r)[j] == l[j]);
                }
            }
            assert(sorted(r)) by {
                assert forall|i: int, j: int| 0 <= i <= j < r.len() implies r[i] <= r[j] by {
                    assert((l + r)[l.len() + i] == r[i] && (l + r)[l.len() + j] == r[j]);
                }
            }
            if left.settled() && right.settled() {
                lemma_merged_of_sorted_whole(l, r);
            } else if left.settled() {
                lemma_step_keeps_sorted_elements(*left);
                lemma_step_keeps_sorted_elements(*right);
            } else {
                lemma_step_keeps_sorted_elements(*left);
            }
        },
    }
}

/// Once the elements are in non-decreasing order, no number of steps moves
/// one of them.
pub proof fn lemma_steps_keep_sorted_elements(tree: TreeModel, count: nat)
    requires
        sorted(tree.elements()),
    ensures
        tree.steps(count).elements() == tree.elements(),
    decreases count,
{
    if count > 0 {
        lemma_step_keeps_sorted_elements(tree);
        lemma_steps_keep_sorted_elements(tree.step(), (count - 1) as nat);
    }
}

/// A tree has a segment at least.
pub proof fn lemma_segments_nonempty(tree: TreeModel)
    ensures
        tree.segments().len() >= 1,
    decreases tree,
{
    match tree {
        TreeModel::Leaf(_, _) => {},
        TreeModel::Branch(left, right) => {
            lemma_segments_nonempty(*left);
            lemma_segments_nonempty(*right);
        },
    }
}

/// A step makes exactly one transition on the segments: none if the tree is a
/// settled leaf, else one split or one merge.
pub proof fn lemma_step_is_one_transition(tree: TreeModel)
    ensures
        tree.transition() is Idle <==> tree.settled(),
        tree.transition().fits(tree.segments()),
        tree.step().segments() == tree.transition().apply(tree.segments()),
    decreases tree,
{
    match tree {
        TreeModel::Leaf(list, _) => {
            if !tree.settled() {
                let half = (list.len() / 2) as int;
                reveal_with_fuel(TreeModel::segments, 2);
                let segments = tree.segments();
                assert(segments.take(0) + seq![list.take(half), list.skip(half)] + segments.skip(1)
                    == seq![list.take(half), list.skip(half)]);
            }
        },
        TreeModel::Branch(left, right) => {
            let l = left.segments();
            let r = right.segments();
            lemma_segments_nonempty(*left);
            lemma_segments_nonempty(*right);
            lemma_step_is_one_transition(*left);
            lemma_step_is_one_transition(*right);
            if left.settled() && right.settled() {
                assert((l + r).take(0) + seq![merged((l + r)[0], (l + r)[1])] + (l + r).skip(2)
                    == seq![merged(left.elements(), right.elements())]);
            } else if left.settled() {
                assert(left.step().segments() == l);
                lemma_shifted_apply(l, r, right.transition());
            } else {
                lemma_apply_on_prefix(l, r, left.transition());
            }
        },
    }
}

/// A transition within the first segments leaves those after them alone.
proof fn lemma_apply_on_prefix(
    front: Seq<Seq<usize>>,
    back: Seq<Seq<usize>>,
    transition: Transition,
)
    requires
        transition.fits(front),
    ensures
        transition.fits(front + back),
        transition.apply(front + back) == transition.apply(front) + back,
{
    let all = front + back;
    match transition {
        Transition::Idle => {},
        Transition::Split(at) => {
            assert(all.take(at) == front.take(at));
            assert(all.skip(at + 1) == front.skip(at + 1) + back);
            assert(all[at] == front[at]);
        },
        Transition::Merge(at) => {
            assert(all.take(at) == front.take(at));
            assert(all.skip(at + 2) == front.skip(at + 2) + back);
            assert(all[at] == front[at] && all[at + 1] == front[at + 1]);
        },
    }
}

/// A transition within the last segments, counted from the first of all,
/// leaves those before them alone.
proof fn lemma_shifted_apply(
    front: Seq<Seq<usize>>,
    back: Seq<Seq<usize>>,
    transition: Transition,
)
    requires
        transition.fits(back),
    ensures
        transition.shifted(front.len() as int).fits(front + back),
        transition.shifted(front.len() as int).apply(front + back) == front + transition.apply(
            back,
        ),
{
    let all = front + back;
    let by = front.len() as int;
    match transition {
        Transition::Idle => {},
        Transition::Split(at) => {
            assert(all.take(at + by) == front + back.take(at));
            assert(all.skip(at + by + 1) == back.skip(at + 1));
            assert(all[at + by] == back[at]);
        },
        Transition::Merge(at) => {
            assert(all.take(at + by) == front + back.take(at));
            assert(all.skip(at + by + 2) == back.skip(at + 2));
            assert(all[at + by] == back[at] && all[at + by + 1] == back[at + 1]);
        },
    }
}

/// A step changes the number of segments by one exactly, unless the tree is
/// a settled leaf: a split adds a segment and a merge takes one away.
pub proof fn lemma_step_changes_one_segment(tree: TreeModel)
    ensures
        tree.settled() ==> tree.step().segments() == tree.segments(),
        tree.transition() is Split ==> tree.step().segments().len() == tree.segments().len() + 1,
        tree.transition() is Merge ==> tree.step().segments().len() + 1 == tree.segments().len(),
{
    lemma_step_is_one_transition(tree);
}

/// Each step that splits or merges brings the end one step nearer.
pub proof fn lemma_step_counts_down(tree: TreeModel)
    requires
        !tree.settled(),
    ensures
        tree.step().remaining() + 1 == tree.remaining(),
    decreases tree,
{
    match tree {
        TreeModel::Leaf(list, _) => {
            let length = list.len() as int;
            let half = length / 2;
            let left = TreeModel::Leaf(list.take(half), false);
            let right = TreeModel::Leaf(list.skip(half), false);
            assert(length >= 2 && 1 <= half < length);
            assert(list.take(half).len() == half && list.skip(half).len() == length - half);
            assert(left.remaining() == 2 * half - 2);
            assert(right.remaining() == 2 * (length - half) - 2);
            assert(tree.step() == TreeModel::Branch(Box::new(left), Box::new(right)));
            assert(tree.step().remaining() == left.remaining() + right.remaining() + 1);
            assert(tree.remaining() == 2 * length - 2);
        },
        TreeModel::Branch(left, right) => {
            assert(tree.remaining() == left.remaining() + right.remaining() + 1);
            if left.settled() && right.settled() {
                assert(left.remaining() == 0 && right.remaining() == 0);
                assert(tree.step().remaining() == 0);
            } else if left.settled() {
                lemma_step_counts_down(*right);
                assert(left.remaining() == 0 && left.step().remaining() == 0);
                assert(tree.step() == TreeModel::Branch(
                    Box::new(left.step()),
                    Box::new(right.step()),
                ));
                assert(tree.step().remaining() == left.step().remaining()
                    + right.step().remaining() + 1);
            } else {
                lemma_step_counts_down(*left);
                assert(tree.step() == TreeModel::Branch(Box::new(left.step()), right));
                assert(tree.step().remaining() == left.step().remaining() + right.remaining() + 1);
            }
        },
    }
}

/// After the steps that remain the tree is a single settled leaf.
pub proof fn lemma_steps_settle(tree: TreeModel)
    ensures
        tree.steps(tree.remaining()).settled(),
    decreases tree.remaining(),
{
    if !tree.settled() {
        lemma_step_counts_down(tree);
        lemma_steps_settle(tree.step());
    } else {
        assert(tree.remaining() == 0);
    }
}

/// Steps after steps are as many steps at once.
pub proof fn lemma_steps_add(tree: TreeModel, first: nat, second: nat)
    ensures
        tree.steps(first).steps(second) == tree.steps(first + second),
    decreases first,
{
    if first > 0 {
        lemma_steps_add(tree.step(), (first - 1) as nat, second);
    }
}

/// A settled leaf stays a settled leaf with the same segment, and any step
/// marks it sorted.
pub proof fn lemma_settled_stays(tree: TreeModel, count: nat)
    requires
        tree.settled(),
    ensures
        tree.steps(count).settled(),
        tree.steps(count).elements() == tree.elements(),
        count > 0 ==> tree.steps(count).terminal(),
{
    if count > 0 {
        lemma_terminal_is_fixed(tree.step(), (count - 1) as nat);
    }
}

/// The sort ends, and ends right: once the steps that remain are taken, and
/// however many more, the tree is a single settled leaf that holds the
/// elements of the tree in non-decreasing order. With one step more it is
/// marked sorted.
pub proof fn lemma_sort_completes(tree: TreeModel, count: nat)
    requires
        tree.wf(),
        count >= tree.remaining(),
    ensures
        tree.steps(count).settled(),
        tree.steps(count).wf(),
        tree.steps(count).segments() == seq![tree.steps(count).elements()],
        sorted(tree.steps(count).elements()),
        tree.steps(count).elements().to_multiset() == tree.elements().to_multiset(),
        count > tree.remaining() ==> tree.steps(count).terminal(),
{
    let settled = tree.steps(tree.remaining());
    lemma_steps_settle(tree);
    lemma_steps_add(tree, tree.remaining(), (count - tree.remaining()) as nat);
    lemma_settled_stays(settled, (count - tree.remaining()) as nat);
    lemma_steps_keep_wf(tree, count);
    lemma_steps_permute(tree, count);
}

/// A merge sort that `count` steps lead to holds the tree after `count`
/// steps: its steps leave nothing open.
pub proof fn lemma_merge_sort_reaches(before: MergeSort, after: MergeSort, count: nat)
    requires
        reaches(before, after, count),
    ensures
        after@ == before@.steps(count),
    decreases count,
{
    if count > 0 {
        let middle = choose|middle: MergeSort|
            reaches(before, middle, (count - 1) as nat) && #[trigger] middle.steps_to(&after);
        lemma_merge_sort_reaches(before, middle, (count - 1) as nat);
        lemma_steps_add(before@, (count - 1) as nat, 1);
        assert(middle@.steps(1) == middle@.step()) by {
            reveal_with_fuel(TreeModel::steps, 2);
        }
    }
}

} // verus!
