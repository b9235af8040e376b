use ratatui_tree::get_items_bounds;
use ratatui_tree::window::apply_scroll_padding_to_selected_index;

#[test]
fn selection_at_the_end_scrolls_with_padding() {
    let heights = vec![1; 10];
    assert_eq!(get_items_bounds(&heights, Some(9), 0, 4, 1), (6, 10));
}

#[test]
fn no_selection_shows_what_fits_from_the_offset() {
    let heights = vec![1; 10];
    assert_eq!(get_items_bounds(&heights, None, 3, 4, 1), (3, 7));
    assert_eq!(get_items_bounds(&heights, None, 50, 4, 1), (9, 10));
}

#[test]
fn empty_list_shows_nothing() {
    assert_eq!(get_items_bounds(&[], Some(0), 5, 4, 1), (0, 0));
    assert_eq!(get_items_bounds(&[], None, 0, 4, 0), (0, 0));
}

#[test]
fn selection_above_the_window_scrolls_back() {
    let heights = vec![1; 10];
    assert_eq!(get_items_bounds(&heights, Some(2), 6, 4, 1), (1, 5));
    assert_eq!(get_items_bounds(&heights, Some(0), 6, 4, 1), (0, 4));
}

#[test]
fn selection_inside_the_window_keeps_it() {
    let heights = vec![1; 10];
    assert_eq!(get_items_bounds(&heights, Some(4), 3, 4, 1), (3, 7));
}

#[test]
fn tall_items_reduce_the_padding() {
    let heights = vec![1, 3, 1, 3, 1];
    assert_eq!(apply_scroll_padding_to_selected_index(&heights, 2, 4, 1, 0, 2), 2);
    assert_eq!(apply_scroll_padding_to_selected_index(&heights, 2, 10, 1, 0, 2), 3);
    assert_eq!(get_items_bounds(&heights, Some(2), 0, 4, 1), (1, 3));
}

#[test]
fn item_taller_than_the_viewport_gives_an_empty_window_at_it() {
    let heights = vec![1, 9, 1];
    assert_eq!(get_items_bounds(&heights, Some(1), 0, 4, 0), (1, 1));
    assert_eq!(get_items_bounds(&heights, Some(1), 2, 4, 0), (1, 1));
}

#[test]
fn window_holds_selection_when_padding_fits() {
    let heights = vec![1, 2, 1, 1, 3, 1, 2, 1];
    for selected in 0..heights.len() {
        for offset in 0..heights.len() {
            let (first, last) = get_items_bounds(&heights, Some(selected), offset, 5, 1);
            let low = selected.saturating_sub(1);
            let high = (selected + 1).min(heights.len() - 1);
            if heights[low..=high].iter().sum::<usize>() <= 5 {
                assert!(first <= selected && selected < last);
            }
        }
    }
}

#[test]
fn rerun_from_own_offset_keeps_a_full_window() {
    let heights = vec![1; 10];
    let (first, last) = get_items_bounds(&heights, Some(9), 0, 4, 1);
    assert_eq!(get_items_bounds(&heights, Some(9), first, 4, 1), (first, last));
}

#[test]
fn rerun_from_own_offset_may_fill_the_window() {
    let heights = vec![2, 1, 1, 1];
    assert_eq!(get_items_bounds(&heights, Some(2), 0, 3, 0), (1, 3));
    assert_eq!(get_items_bounds(&heights, Some(2), 1, 3, 0), (1, 4));
    assert_eq!(get_items_bounds(&heights, Some(2), 1, 3, 0), (1, 4));
}
