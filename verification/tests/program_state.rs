use sorting_visualizer::program_state::ProgramState;
use sorting_visualizer::sorting_algorithms::merge_sort::MergeSort;
use sorting_visualizer::sorting_algorithms::{
    get_available_algorithms, Algorithm, SortingAlgorithm,
};

fn merge_sort_on(list: Vec<usize>) -> Algorithm {
    let mut machine = MergeSort::default();
    machine.set_list(vec![list]);
    Algorithm::MergeSort(machine)
}

fn flat(state: &ProgramState) -> Vec<usize> {
    state.list().iter().flatten().copied().collect()
}

#[test]
fn fresh_state_shows_nothing_and_rests() {
    let state = ProgramState::default();
    assert!(state.list().is_empty());
    assert!(state.highlights().is_empty());
    assert!(state.algorithm().is_none());
    assert!(!state.is_running());
    assert!(!state.is_sorted());
}

#[test]
fn selected_algorithm_shows_its_list() {
    let mut state = ProgramState::default();
    state.select(merge_sort_on(vec![3, 1, 2]));
    assert_eq!(state.list(), &vec![vec![3, 1, 2]]);
    assert!(matches!(state.algorithm(), Some(Algorithm::MergeSort(_))));
    assert!(!state.is_running());
}

#[test]
fn play_and_pause_switch_the_animation() {
    let mut state = ProgramState::default();
    state.select(merge_sort_on(vec![3, 1, 2]));
    state.play();
    assert!(state.is_running());
    state.pause();
    assert!(!state.is_running());
}

#[test]
fn buttons_do_nothing_once_the_list_is_sorted() {
    let mut state = ProgramState::default();
    state.select(merge_sort_on(vec![1, 2, 3]));
    // The first frame takes the sorted list as the reference.
    assert!(!state.frame_update());
    // The second frame finds the list equal to it.
    assert!(state.frame_update());
    assert!(state.is_sorted());
    state.play();
    assert!(!state.is_running());
    state.step_once();
    assert_eq!(state.algorithm().as_ref().unwrap().get_list().0, vec![vec![1, 2, 3]]);
    state.pause();
    assert!(!state.is_running());
}

#[test]
fn step_button_takes_one_step_and_stops() {
    let mut state = ProgramState::default();
    state.select(merge_sort_on(vec![4, 3, 2, 1]));
    state.play();
    state.step_once();
    assert!(!state.is_running());
    assert_eq!(
        state.algorithm().as_ref().unwrap().get_list().0,
        vec![vec![4, 3], vec![2, 1]]
    );
    // The display follows with the next frame.
    assert_eq!(state.list(), &vec![vec![4, 3, 2, 1]]);
    state.frame_update();
    assert_eq!(state.list(), &vec![vec![4, 3], vec![2, 1]]);
}

#[test]
fn step_button_without_an_algorithm_only_stops() {
    let mut state = ProgramState::default();
    state.play();
    state.step_once();
    assert!(!state.is_running());
    assert!(state.algorithm().is_none());
}

#[test]
fn frame_takes_a_reference_when_the_length_changes() {
    let mut state = ProgramState::default();
    state.select(merge_sort_on(vec![4, 3, 2, 1]));
    assert!(!state.frame_update());
    assert!(!state.is_sorted());
    state.play();
    let mut frames = 0;
    while !state.is_sorted() {
        assert!(state.advance(true));
        let found = state.frame_update();
        assert_eq!(found, state.is_sorted());
        frames += 1;
        assert!(frames <= 6);
    }
    assert_eq!(frames, 6);
    assert_eq!(state.list(), &vec![vec![1, 2, 3, 4]]);
    assert!(!state.is_running());
    assert!(!state.advance(true));
}

#[test]
fn sorted_list_is_found_only_once() {
    let mut state = ProgramState::default();
    state.select(merge_sort_on(vec![1, 2]));
    assert!(!state.frame_update());
    assert!(state.frame_update());
    assert!(!state.frame_update());
    assert!(state.is_sorted());
}

#[test]
fn empty_display_counts_as_sorted_at_the_first_frame() {
    let mut state = ProgramState::default();
    assert!(state.frame_update());
    assert!(state.is_sorted());
}

#[test]
fn advance_steps_only_when_running_and_due() {
    let mut state = ProgramState::default();
    assert!(!state.advance(true));
    state.select(merge_sort_on(vec![2, 1]));
    assert!(!state.advance(true));
    state.play();
    assert!(!state.advance(false));
    assert_eq!(state.algorithm().as_ref().unwrap().get_list().0, vec![vec![2, 1]]);
    assert!(state.advance(true));
    assert_eq!(state.algorithm().as_ref().unwrap().get_list().0, vec![vec![2], vec![1]]);
    assert!(state.is_running());
}

#[test]
fn shuffle_keeps_the_elements_in_one_segment() {
    let mut state = ProgramState::default();
    state.select(merge_sort_on((1..=50).collect()));
    state.advance(false);
    state.step_once();
    state.frame_update();
    assert_eq!(state.list().len(), 2);
    state.shuffle();
    assert_eq!(state.list().len(), 1);
    let mut all = flat(&state);
    all.sort_unstable();
    assert_eq!(all, (1..=50).collect::<Vec<usize>>());
    assert_eq!(&state.algorithm().as_ref().unwrap().get_list().0, state.list());
    assert!(!state.is_sorted());
}

#[test]
fn shuffle_moves_elements() {
    let mut state = ProgramState::default();
    state.select(merge_sort_on((1..=100).collect()));
    let mut moved = false;
    for _ in 0..20 {
        state.shuffle();
        if flat(&state) != (1..=100).collect::<Vec<usize>>() {
            moved = true;
        }
    }
    assert!(moved);
}

#[test]
fn shuffle_makes_a_sorted_state_playable_again() {
    let mut state = ProgramState::default();
    state.select(merge_sort_on(vec![1, 2, 3]));
    state.frame_update();
    state.frame_update();
    assert!(state.is_sorted());
    state.shuffle();
    assert!(!state.is_sorted());
    state.play();
    assert!(state.is_running());
}

#[test]
fn shuffle_without_an_algorithm_shows_one_segment() {
    let mut state = ProgramState::default();
    state.shuffle();
    assert_eq!(state.list(), &vec![Vec::<usize>::new()]);
    assert!(state.algorithm().is_none());
}

#[test]
fn resize_counts_from_one() {
    let mut state = ProgramState::default();
    state.select(merge_sort_on(vec![3, 1, 2]));
    state.resize(5);
    assert_eq!(state.list(), &vec![vec![1, 2, 3, 4, 5]]);
    assert_eq!(
        state.algorithm().as_ref().unwrap().get_list().0,
        vec![vec![1, 2, 3, 4, 5]]
    );
}

#[test]
fn resize_to_the_same_length_changes_nothing() {
    let mut state = ProgramState::default();
    state.select(merge_sort_on(vec![3, 1, 2]));
    state.resize(3);
    assert_eq!(state.list(), &vec![vec![3, 1, 2]]);
}

#[test]
fn resize_to_nothing_leaves_an_empty_segment() {
    let mut state = ProgramState::default();
    state.select(merge_sort_on(vec![3, 1, 2]));
    state.resize(0);
    assert_eq!(state.list(), &vec![Vec::<usize>::new()]);
}

#[test]
fn new_reference_is_the_sorted_display() {
    let mut state = ProgramState::default();
    state.select(merge_sort_on(vec![3, 1, 2]));
    assert!(!state.frame_update());
    state.resize(4);
    // The length differs now: this frame sorts a new reference.
    assert!(!state.frame_update());
    // 1, 2, 3, 4 is in order, so the next frame finds it sorted.
    assert!(state.frame_update());
}

#[test]
fn restart_hands_the_display_back_to_the_algorithm() {
    let mut state = ProgramState::default();
    state.select(merge_sort_on(vec![4, 3, 2, 1]));
    state.step_once();
    state.step_once();
    assert_eq!(state.list(), &vec![vec![4, 3, 2, 1]]);
    state.restart();
    assert_eq!(
        state.algorithm().as_ref().unwrap().get_list().0,
        vec![vec![4, 3, 2, 1]]
    );
}

#[test]
fn every_algorithm_can_be_driven() {
    for algorithm in get_available_algorithms() {
        let mut state = ProgramState::default();
        let expected = algorithm.get_list().0;
        state.select(algorithm);
        assert_eq!(state.list(), &expected);
        state.play();
        state.advance(true);
        state.frame_update();
        let mut all = flat(&state);
        all.sort_unstable();
        assert_eq!(all, (1..=all.len()).collect::<Vec<usize>>());
        assert!(state.highlights().is_empty());
    }
}
