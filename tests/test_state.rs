use ratatui_tree::TreeIndex;
use ratatui_tree::TreeNode;
use ratatui_tree::TreeState;

fn node(label: &'static str, children: Vec<TreeNode<&'static str>>) -> TreeNode<&'static str> {
    TreeNode::new(label, children)
}

fn example() -> TreeNode<&'static str> {
    node(
        "root",
        vec![
            node("a", vec![node("b", vec![]), node("c", vec![])]),
            node("x", vec![node("y", vec![]), node("z", vec![])]),
        ],
    )
}

fn at(indices: &[usize]) -> TreeIndex {
    TreeIndex::new(indices).unwrap()
}

fn selected(state: &TreeState) -> Option<Vec<usize>> {
    state.selected().as_ref().map(|i| i.as_slice().to_vec())
}

#[test]
fn new_state_is_empty() {
    let state = TreeState::new();
    assert_eq!(state.offset, 0);
    assert!(state.selected().is_none());
    let state = TreeState::new().with_selected(at(&[1, 0]));
    assert_eq!(selected(&state), Some(vec![1, 0]));
}

#[test]
fn select_and_selected_mut() {
    let mut state = TreeState::default();
    state.select(Some(at(&[1])));
    assert_eq!(selected(&state), Some(vec![1]));
    *state.selected_mut() = None;
    assert!(state.selected().is_none());
}

#[test]
fn moving_down_and_up() {
    let t = example();
    let mut state = TreeState::new().with_selected(at(&[0]));
    t.select_down_state(&mut state);
    assert_eq!(selected(&state), Some(vec![0, 0]));
    t.select_down_state(&mut state);
    t.select_down_state(&mut state);
    assert_eq!(selected(&state), Some(vec![1]));
    t.select_up_state(&mut state);
    assert_eq!(selected(&state), Some(vec![0, 1]));
    let mut state = TreeState::new().with_selected(at(&[1, 1]));
    t.select_down_state(&mut state);
    assert_eq!(selected(&state), Some(vec![1, 1]));
    let mut state = TreeState::new().with_selected(at(&[0]));
    t.select_up_state(&mut state);
    assert_eq!(selected(&state), Some(vec![0]));
}

#[test]
fn moving_without_selection() {
    let t = example();
    let mut state = TreeState::new();
    t.select_up_state(&mut state);
    assert_eq!(selected(&state), Some(vec![0]));
    let mut state = TreeState::new();
    t.select_down_state(&mut state);
    assert_eq!(selected(&state), Some(vec![1, 1]));
    let mut state = TreeState::new();
    t.select_parent_state(&mut state);
    assert_eq!(selected(&state), Some(vec![0]));
    let empty = node("root", vec![]);
    let mut state = TreeState::new();
    empty.select_down_state(&mut state);
    assert!(state.selected().is_none());
}

#[test]
fn moving_to_parent() {
    let t = example();
    let mut state = TreeState::new().with_selected(at(&[1, 0]));
    t.select_parent_state(&mut state);
    assert_eq!(selected(&state), Some(vec![1]));
    t.select_parent_state(&mut state);
    assert_eq!(selected(&state), Some(vec![1]));
}

#[test]
fn render_window_repairs_selection_and_scrolls() {
    let t = example();
    let heights = vec![1; 6];
    let mut state = TreeState::new().with_selected(at(&[1, 7]));
    let window = t.compute_visible_window(&mut state, &heights, 3, 0);
    assert_eq!(selected(&state), Some(vec![1, 1]));
    assert_eq!(window, (3, 6));
    assert_eq!(state.offset, 3);
}

#[test]
fn render_window_on_empty_tree_clears_selection() {
    let t = node("root", vec![]);
    let mut state = TreeState::new().with_selected(at(&[0]));
    state.offset = 4;
    assert_eq!(t.compute_visible_window(&mut state, &[], 3, 1), (0, 0));
    assert!(state.selected().is_none());
    assert_eq!(state.offset, 4);
}

#[test]
fn render_window_without_selection_keeps_offset() {
    let t = example();
    let heights = vec![1; 6];
    let mut state = TreeState::new();
    state.offset = 2;
    assert_eq!(t.compute_visible_window(&mut state, &heights, 3, 1), (2, 5));
    assert_eq!(state.offset, 2);
}

#[test]
fn render_window_scrolls_to_the_last_of_ten_lines() {
    let t = node("root", (0..10).map(|_| node("line", vec![])).collect());
    let heights = vec![1; 10];
    let mut state = TreeState::new().with_selected(at(&[9]));
    assert_eq!(t.compute_visible_window(&mut state, &heights, 4, 1), (6, 10));
    assert_eq!(state.offset, 6);
    assert_eq!(selected(&state), Some(vec![9]));
}
