use sorting_tutor::display::{heap_node_look, slider_index, NodeLook};
use sorting_tutor::display::{
    bar_heights, bar_pixel_height, canvas_dimension, delay_at, delays, heap_canvas_size,
    heap_node_position, heap_parent, history_indices, is_swapped, slider_position, DEFAULT_SIZE,
};

#[test]
fn bars_run_from_zero_to_hundred() {
    assert_eq!(bar_heights(&[10, 20, 30]), vec![(0, 0), (1, 50), (2, 100)]);
    assert_eq!(bar_heights(&[7, 3, 4]), vec![(0, 100), (1, 0), (2, 25)]);
}

#[test]
fn bar_pixels() {
    assert_eq!(bar_pixel_height(0), 15);
    assert_eq!(bar_pixel_height(100), 81);
}

#[test]
fn swapped_positions() {
    assert!(is_swapped(2, Some((2, 5))));
    assert!(is_swapped(5, Some((2, 5))));
    assert!(!is_swapped(3, Some((2, 5))));
    assert!(!is_swapped(0, None));
}

#[test]
fn canvas_grows_with_size() {
    assert_eq!(canvas_dimension(4), "100");
    assert_eq!(canvas_dimension(8), "150");
    assert_eq!(canvas_dimension(DEFAULT_SIZE), "150");
    assert_eq!(canvas_dimension(24), "220");
    assert_eq!(canvas_dimension(25), "320");
    assert_eq!(canvas_dimension(48), "400");
}

#[test]
fn delay_slider() {
    let d = delays();
    assert_eq!(d.len(), 18);
    assert_eq!(d[0], 0);
    assert_eq!(d[17], 2048);
    assert_eq!(delay_at(5), 64);
    assert_eq!(slider_position(64), 5);
    assert_eq!(slider_position(65), 0);
    for k in 0..d.len() {
        assert_eq!(slider_position(delay_at(k)), k);
    }
}

#[test]
fn history_shows_kept_steps_latest_first() {
    assert!(history_indices(&[]).is_empty());
    assert!(history_indices(&[true]).is_empty());
    assert_eq!(history_indices(&[true, false, true, true]), vec![2, 0]);
    let many = vec![true; 40];
    let shown = history_indices(&many);
    assert_eq!(shown.len(), 32);
    assert_eq!(shown[0], 38);
    assert_eq!(shown[31], 7);
}

#[test]
fn heap_drawing_geometry() {
    assert_eq!(heap_canvas_size(14), (224, 120));
    assert_eq!(heap_canvas_size(1), (28, 36));
    assert_eq!(heap_node_position(0, 224), (112, 8));
    assert_eq!(heap_node_position(1, 224), (74, 36));
    assert_eq!(heap_node_position(2, 224), (148, 36));
    assert_eq!(heap_parent(1), 0);
    assert_eq!(heap_parent(2), 0);
    assert_eq!(heap_parent(5), 2);
    assert_eq!(heap_parent(6), 2);
}

#[test]
fn slider_text_is_clamped() {
    let n = delays().len();
    assert_eq!(slider_index(Some(2)), 2);
    assert_eq!(slider_index(None), 4);
    assert_eq!(slider_index(Some(n + 5)), n);
}

#[test]
fn heap_node_fills() {
    assert_eq!(heap_node_look(5, 4, Some((0, 3))), NodeLook::Abandoned);
    assert_eq!(heap_node_look(3, 4, Some((0, 3))), NodeLook::Swapped);
    assert_eq!(heap_node_look(2, 4, Some((0, 3))), NodeLook::Member);
    assert_eq!(heap_node_look(0, 4, None), NodeLook::Member);
}
