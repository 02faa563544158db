use feg::layout::GridLayout;

fn layout() -> GridLayout {
    GridLayout::new(1280, 800)
}

#[test]
fn the_layout_fills_the_height() {
    let l = layout();
    assert_eq!(l.window_width, 1280);
    assert_eq!(l.window_height, 800);
    assert_eq!(l.horizontal_padding, 270);
    assert_eq!(l.vertical_padding, 30);
    assert_eq!(l.grid_line_width, 2);
    assert_eq!(l.grid_n_cell_width, 10);
    assert_eq!(l.grid_n_cell_height, 10);
    assert_eq!(l.grid_cell_dim, 74);
    assert_eq!(l.path_line_width, 10);
}

#[test]
fn pixels_in_the_padding_have_no_cell() {
    let l = layout();
    assert_eq!(l.screen_to_grid_coord((0, 0)), None);
    assert_eq!(l.screen_to_grid_coord((269, 400)), None);
    assert_eq!(l.screen_to_grid_coord((1011, 400)), None);
    assert_eq!(l.screen_to_grid_coord((400, 29)), None);
    assert_eq!(l.screen_to_grid_coord((400, 771)), None);
}

#[test]
fn pixels_on_the_grid_have_a_cell() {
    let l = layout();
    assert_eq!(l.screen_to_grid_coord((270, 30)), Some((0, 0)));
    assert_eq!(l.screen_to_grid_coord((343, 103)), Some((0, 0)));
    assert_eq!(l.screen_to_grid_coord((344, 104)), Some((1, 1)));
    assert_eq!(l.screen_to_grid_coord((500, 700)), Some((3, 9)));
    assert_eq!(l.screen_to_grid_coord((1010, 770)), Some((10, 10)));
}

#[test]
fn cells_have_a_corner_and_a_centre() {
    let l = layout();
    assert_eq!(l.grid_to_screen_coord((0, 0)), (271, 31));
    assert_eq!(l.grid_to_screen_coord((3, 3)), (493, 253));
    assert_eq!(l.grid_to_screen_coord_center((0, 0)), (307, 67));
    assert_eq!(l.grid_to_screen_coord_center((3, 3)), (529, 289));
}

#[test]
fn short_paths_have_no_segments() {
    let l = layout();
    assert_eq!(l.cpath_to_segments(vec![]), vec![]);
    assert_eq!(l.cpath_to_segments(vec![(3, 3)]), vec![(529, 289)]);
}

#[test]
fn a_straight_path_is_one_segment() {
    let l = layout();
    assert_eq!(
        l.cpath_to_segments(vec![(0, 0), (2, 0)]),
        vec![(307, 67), (455, 67)]
    );
}

#[test]
fn corners_are_filled() {
    let l = layout();
    let segments = l.cpath_to_segments(vec![(1, 0), (6, 0), (6, 2), (4, 2)]);
    assert_eq!(
        segments,
        vec![
            (381, 67),
            (756, 67),
            (751, 67),
            (751, 220),
            (751, 215),
            (603, 215),
        ]
    );
    let back = l.cpath_to_segments(vec![(6, 2), (6, 0), (1, 0)]);
    assert_eq!(back, vec![(751, 215), (751, 62), (751, 67), (381, 67)]);
    let left_then_down = l.cpath_to_segments(vec![(3, 0), (1, 0), (1, 1)]);
    assert_eq!(
        left_then_down,
        vec![(529, 67), (376, 67), (381, 67), (381, 141)]
    );
}

#[test]
fn grid_lines_run_between_the_paddings() {
    let l = layout();
    let lines = l.grid_lines().unwrap();
    assert_eq!(lines.len(), 22);
    for i in 0..11u32 {
        assert_eq!(
            lines[i as usize],
            ((270 + 74 * i, 30), (270 + 74 * i, 770))
        );
        assert_eq!(
            lines[11 + i as usize],
            ((270, 30 + 74 * i), (1010, 30 + 74 * i))
        );
    }
}

#[test]
fn grid_lines_need_room() {
    let mut l = layout();
    l.window_height = 20;
    assert_eq!(l.grid_lines(), None);
    let mut l = layout();
    l.window_width = 200;
    assert_eq!(l.grid_lines(), None);
    let mut l = layout();
    l.grid_cell_dim = u32::MAX / 10 + 1;
    assert_eq!(l.grid_lines(), None);
    let mut l = layout();
    l.grid_n_cell_width = u32::MAX;
    assert_eq!(l.grid_lines(), None);
    let mut l = layout();
    l.grid_n_cell_height = 0;
    l.grid_n_cell_width = 0;
    assert_eq!(
        l.grid_lines(),
        Some(vec![((270, 30), (270, 770)), ((270, 30), (1010, 30))])
    );
}

#[test]
fn labels_stand_beside_the_grid() {
    let l = layout();
    let labels = l.label_positions(10).unwrap();
    assert_eq!(labels.len(), 20);
    for i in 0..10u32 {
        assert_eq!(labels[i as usize], (304 + 74 * i, 10));
        assert_eq!(labels[10 + i as usize], (250, 65 + 74 * i));
    }
    assert_eq!(l.label_positions(0), Some(vec![]));
}

#[test]
fn labels_need_room() {
    let mut l = layout();
    l.vertical_padding = 19;
    assert_eq!(l.label_positions(10), None);
    let mut l = layout();
    l.horizontal_padding = 19;
    assert_eq!(l.label_positions(10), None);
    let mut l = layout();
    l.grid_cell_dim = u32::MAX / 9;
    assert_eq!(l.label_positions(10), None);
    assert_eq!(l.label_positions(1).map(|at| at.len()), Some(2));
}

#[test]
fn the_library_says_what_can_be_drawn() {
    let l = layout();
    assert!(l.has_corner((9, 9)));
    assert!(l.cell_has_center((9, 9)));
    assert!(l.can_draw(&vec![(0, 0), (9, 9)]));
    assert!(!l.has_corner((u32::MAX, 0)));
    assert!(!l.cell_has_center((0, u32::MAX)));
    assert!(!l.can_draw(&vec![(0, 0), (u32::MAX, 0)]));
    let mut tight = layout();
    tight.grid_line_width = 100;
    assert!(tight.has_corner((1, 1)));
    assert!(!tight.cell_has_center((1, 1)));
    let mut wide = layout();
    wide.horizontal_padding = 0;
    wide.vertical_padding = 0;
    wide.path_line_width = 200;
    assert!(wide.cell_has_center((0, 0)));
    assert!(!wide.can_draw(&vec![(0, 0)]));
    assert!(wide.can_draw(&vec![(1, 1)]));
}
