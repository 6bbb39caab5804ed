use sorting_visualizer::sorting_algorithms::merge_sort::{recurse_down, MergeTree};

fn shape(tree: &MergeTree) -> String {
    format!("{:?}", tree)
}

fn leaf_count(tree: &MergeTree) -> usize {
    match tree {
        MergeTree::Leaf(..) => 1,
        MergeTree::Branch(left, right) => leaf_count(left) + leaf_count(right),
    }
}

fn elements(tree: &MergeTree) -> Vec<usize> {
    match tree {
        MergeTree::Leaf(list, _) => list.clone(),
        MergeTree::Branch(left, right) => {
            let mut all = elements(left);
            all.extend(elements(right));
            all
        }
    }
}

fn is_terminal(tree: &MergeTree) -> bool {
    matches!(tree, MergeTree::Leaf(_, true))
}

#[test]
fn new_tree_is_one_unsorted_leaf() {
    let tree = MergeTree::new(vec![3, 1, 2]);
    assert_eq!(shape(&tree), "Leaf([3, 1, 2], false)");
}

#[test]
fn split_of_seven_gives_three_and_four() {
    let mut tree = MergeTree::new(vec![7, 6, 5, 4, 3, 2, 1]);
    recurse_down(&mut tree);
    assert_eq!(shape(&tree), "Branch(Leaf([7, 6, 5], false), Leaf([4, 3, 2, 1], false))");
}

#[test]
fn split_of_two_gives_one_and_one() {
    let mut tree = MergeTree::new(vec![2, 1]);
    recurse_down(&mut tree);
    assert_eq!(shape(&tree), "Branch(Leaf([2], false), Leaf([1], false))");
}

#[test]
fn four_elements_are_sorted_in_six_steps() {
    let mut tree = MergeTree::new(vec![4, 3, 2, 1]);
    let expected = [
        "Branch(Leaf([4, 3], false), Leaf([2, 1], false))",
        "Branch(Branch(Leaf([4], false), Leaf([3], false)), Leaf([2, 1], false))",
        "Branch(Leaf([3, 4], true), Leaf([2, 1], false))",
        "Branch(Leaf([3, 4], true), Branch(Leaf([2], false), Leaf([1], false)))",
        "Branch(Leaf([3, 4], true), Leaf([1, 2], true))",
        "Leaf([1, 2, 3, 4], true)",
    ];
    for state in expected {
        recurse_down(&mut tree);
        assert_eq!(shape(&tree), state);
        let mut all = elements(&tree);
        all.sort_unstable();
        assert_eq!(all, vec![1, 2, 3, 4]);
    }
}

#[test]
fn single_leaves_are_marked_on_the_way_to_the_right() {
    let mut tree = MergeTree::new(vec![3, 2, 1]);
    recurse_down(&mut tree);
    assert_eq!(shape(&tree), "Branch(Leaf([3], false), Leaf([2, 1], false))");
    recurse_down(&mut tree);
    assert_eq!(
        shape(&tree),
        "Branch(Leaf([3], true), Branch(Leaf([2], false), Leaf([1], false)))"
    );
    recurse_down(&mut tree);
    assert_eq!(shape(&tree), "Branch(Leaf([3], true), Leaf([1, 2], true))");
    recurse_down(&mut tree);
    assert_eq!(shape(&tree), "Leaf([1, 2, 3], true)");
}

#[test]
fn every_step_splits_once_or_merges_once() {
    let mut tree = MergeTree::new(vec![5, 9, 1, 8, 2, 7, 3, 6, 4, 0, 11]);
    let mut steps = 0;
    while !is_terminal(&tree) {
        let before = leaf_count(&tree);
        recurse_down(&mut tree);
        let after = leaf_count(&tree);
        assert!(after == before + 1 || after + 1 == before);
        steps += 1;
        assert!(steps <= 2 * 11 - 2);
    }
    assert_eq!(steps, 2 * 11 - 2);
    assert_eq!(shape(&tree), "Leaf([0, 1, 2, 3, 4, 5, 6, 7, 8, 9, 11], true)");
}

#[test]
fn terminal_tree_stays_as_it_is() {
    let mut tree = MergeTree::new(vec![2, 1, 3]);
    while !is_terminal(&tree) {
        recurse_down(&mut tree);
    }
    for _ in 0..5 {
        recurse_down(&mut tree);
        assert_eq!(shape(&tree), "Leaf([1, 2, 3], true)");
    }
}

#[test]
fn step_on_an_empty_list_only_marks_it() {
    let mut tree = MergeTree::new(vec![]);
    recurse_down(&mut tree);
    assert_eq!(shape(&tree), "Leaf([], true)");
    recurse_down(&mut tree);
    assert_eq!(shape(&tree), "Leaf([], true)");
}

#[test]
fn step_on_a_single_element_only_marks_it() {
    let mut tree = MergeTree::new(vec![42]);
    recurse_down(&mut tree);
    assert_eq!(shape(&tree), "Leaf([42], true)");
}

#[test]
fn sorted_input_is_split_and_merged_back() {
    let mut tree = MergeTree::new(vec![1, 2, 3, 4]);
    for _ in 0..6 {
        recurse_down(&mut tree);
        assert_eq!(elements(&tree), vec![1, 2, 3, 4]);
    }
    assert_eq!(shape(&tree), "Leaf([1, 2, 3, 4], true)");
}

#[test]
fn leaf_marked_sorted_is_left_alone() {
    let mut tree = MergeTree::Leaf(vec![3, 1], true);
    recurse_down(&mut tree);
    assert_eq!(shape(&tree), "Leaf([3, 1], true)");
}

#[test]
fn branch_of_two_single_leaves_is_merged_at_once() {
    let mut tree = MergeTree::Branch(
        Box::new(MergeTree::Leaf(vec![4], false)),
        Box::new(MergeTree::Leaf(vec![3], false)),
    );
    recurse_down(&mut tree);
    assert_eq!(shape(&tree), "Leaf([3, 4], true)");
}

#[test]
fn flatten_lists_the_leaves_from_left_to_right() {
    let mut tree = MergeTree::new(vec![4, 3, 2, 1]);
    recurse_down(&mut tree);
    recurse_down(&mut tree);
    recurse_down(&mut tree);
    let leaves = tree.flatten();
    assert_eq!(leaves.len(), 2);
    assert_eq!(shape(&leaves[0]), "Leaf([3, 4], true)");
    assert_eq!(shape(&leaves[1]), "Leaf([2, 1], false)");
}

#[test]
fn flatten_of_a_leaf_is_the_leaf() {
    let tree = MergeTree::new(vec![1, 2]);
    let leaves = tree.flatten();
    assert_eq!(leaves.len(), 1);
    assert_eq!(shape(&leaves[0]), "Leaf([1, 2], false)");
}

#[test]
fn clone_copies_the_whole_tree() {
    let mut tree = MergeTree::new(vec![4, 3, 2, 1]);
    recurse_down(&mut tree);
    recurse_down(&mut tree);
    let copy = tree.clone();
    assert_eq!(shape(&copy), shape(&tree));
}

#[test]
fn settled_leaves_are_the_marked_and_the_short() {
    assert!(MergeTree::Leaf(vec![], false).is_settled());
    assert!(MergeTree::Leaf(vec![1], false).is_settled());
    assert!(MergeTree::Leaf(vec![1, 2], true).is_settled());
    assert!(!MergeTree::Leaf(vec![1, 2], false).is_settled());
    let branch = MergeTree::Branch(
        Box::new(MergeTree::Leaf(vec![1], true)),
        Box::new(MergeTree::Leaf(vec![2], true)),
    );
    assert!(!branch.is_settled());
}
