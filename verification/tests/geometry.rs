use app_shell::drop_handler::calculate_drop_position;
use app_shell::geometry::{Point, Rect};
use app_shell::ids::{
    dec_string, footer_panel_id_string, footer_panel_index_from_id, panel_id_string,
    panel_index_from_id, str_eq,
};
use app_shell::panel_grid::PanelGrid;

fn container() -> Rect {
    Rect { x: 0, y: 0, width: 900, height: 300 }
}

#[test]
fn drop_position_picks_row_and_column() {
    let counts = vec![3usize, 3, 3];
    let map = vec![0usize, 1, 2];
    let dp = calculate_drop_position(Point { x: 450, y: 50 }, container(), &counts, &map).unwrap();
    assert_eq!(dp.row, 0);
    assert_eq!(dp.col, 1);
    assert_eq!(dp.rect, Rect { x: 300, y: 0, width: 300, height: 100 });

    let dp = calculate_drop_position(Point { x: 899, y: 299 }, container(), &counts, &map)
        .unwrap();
    assert_eq!(dp.row, 2);
    assert_eq!(dp.col, 2);
}

#[test]
fn drop_position_outside_container_is_none() {
    let counts = vec![3usize, 3, 3];
    let map = vec![0usize, 1, 2];
    assert!(calculate_drop_position(Point { x: 901, y: 50 }, container(), &counts, &map).is_none());
    assert!(
        calculate_drop_position(Point { x: 50, y: -1 }, container(), &counts, &map).is_none()
    );
}

#[test]
fn drop_position_no_rows_is_none() {
    let counts: Vec<usize> = vec![];
    let map: Vec<usize> = vec![];
    assert!(calculate_drop_position(Point { x: 10, y: 10 }, container(), &counts, &map).is_none());
}

#[test]
fn drop_position_maps_hidden_rows() {
    // rows 0 and 2 hold panels; the lower visual half maps back to row 2
    let counts = vec![3usize, 2];
    let map = vec![0usize, 2];
    let dp = calculate_drop_position(Point { x: 800, y: 200 }, container(), &counts, &map)
        .unwrap();
    assert_eq!(dp.row, 2);
    assert_eq!(dp.col, 1);
}

#[test]
fn drop_position_right_edge_means_insert_at_end() {
    let counts = vec![3usize];
    let map = vec![0usize];
    let dp = calculate_drop_position(Point { x: 900, y: 10 }, container(), &counts, &map)
        .unwrap();
    assert_eq!(dp.col, 3);
    // the preview rectangle stays on the last existing cell
    assert_eq!(dp.rect.x, 600);
}

#[test]
fn drop_position_is_repeatable() {
    let counts = vec![2usize, 3];
    let map = vec![0usize, 1];
    let p = Point { x: 123, y: 234 };
    let a = calculate_drop_position(p, container(), &counts, &map);
    let b = calculate_drop_position(p, container(), &counts, &map);
    assert_eq!(a, b);
}

#[test]
fn panel_tokens_round_trip() {
    assert_eq!(panel_id_string(7), "panel_7");
    assert_eq!(panel_id_string(12), "panel_12");
    assert_eq!(footer_panel_id_string(0), "footer_panel_0");
    assert_eq!(dec_string(0), "0");
    assert_eq!(dec_string(1234), "1234");
    assert_eq!(panel_index_from_id("panel_7"), 7);
    assert_eq!(panel_index_from_id("panel_12"), 12);
    assert_eq!(footer_panel_index_from_id("footer_panel_3"), 3);
}

#[test]
fn malformed_tokens_fall_into_buckets() {
    assert!(panel_index_from_id("console") < 9);
    assert!(panel_index_from_id("panel_") < 9);
    assert!(panel_index_from_id("panel_x1") < 9);
    assert!(footer_panel_index_from_id("panel_3") < 7);
    // the bucket is a pure function of the token
    assert_eq!(panel_index_from_id("console"), panel_index_from_id("console"));
}

#[test]
fn str_eq_compares_characters() {
    assert!(str_eq("panel_3", "panel_3"));
    assert!(!str_eq("panel_3", "panel_30"));
    assert!(!str_eq("panel_3", "panel_4"));
    assert!(str_eq("", ""));
}

#[test]
fn grid_controller_drag_moves_panel() {
    let mut g = PanelGrid::new();
    g.start_drag("panel_0");
    // drop into the middle row, at its right edge: insert at the end
    g.end_drag(container(), Point { x: 900, y: 150 });
    let s = g.layout_state();
    assert_eq!(s.row_assignments[0], vec!["panel_1", "panel_2"]);
    assert_eq!(s.row_assignments[1], vec!["panel_3", "panel_4", "panel_5", "panel_0"]);
    assert!(s.is_well_formed());
}

#[test]
fn grid_controller_release_outside_cancels() {
    let mut g = PanelGrid::new();
    let before = g.layout_state().clone();
    g.start_drag("panel_0");
    g.end_drag(container(), Point { x: 2000, y: 2000 });
    assert_eq!(*g.layout_state(), before);
}

#[test]
fn grid_controller_validates_loaded_state() {
    let mut g = PanelGrid::new();
    let good = g.layout_state().clone();
    let mut bad = good.clone();
    bad.row_assignments[0][0] = "panel_5".to_string();
    assert!(!g.set_layout_state(bad));
    assert_eq!(*g.layout_state(), good);

    let mut other = good.clone();
    other.close_panel("panel_3");
    assert!(g.set_layout_state(other.clone()));
    assert_eq!(*g.layout_state(), other);
}

#[test]
fn grid_directives_bind_rows() {
    let g = PanelGrid::new();
    let dirs = g.layout_state().compute_directives();
    assert_eq!(dirs.len(), 3);
    for r in 0..3 {
        assert!(dirs[r].visible);
        assert_eq!(dirs[r].slots.len(), 9);
        for j in 0..3 {
            assert!(dirs[r].slots[j].visible);
            assert_eq!(
                dirs[r].slots[j].panel_id.as_deref(),
                Some(format!("panel_{}", 3 * r + j).as_str())
            );
            assert!(!dirs[r].slots[j].maximized);
        }
        for j in 3..9 {
            assert!(!dirs[r].slots[j].visible);
        }
    }
}

#[test]
fn grid_directives_maximized_panel_fills_its_row() {
    let mut g = PanelGrid::new();
    g.toggle_maximize("panel_4");
    let dirs = g.layout_state().compute_directives();
    assert!(!dirs[0].visible);
    assert!(dirs[1].visible);
    assert!(!dirs[2].visible);
    assert!(dirs[1].slots[0].visible);
    assert_eq!(dirs[1].slots[0].panel_id.as_deref(), Some("panel_4"));
    assert!(dirs[1].slots[0].maximized);
    for j in 1..9 {
        assert!(!dirs[1].slots[j].visible);
    }
}

#[test]
fn auto_maximize_when_one_panel_left() {
    let mut g = PanelGrid::new();
    for id in [
        "panel_0", "panel_1", "panel_2", "panel_3", "panel_5", "panel_6", "panel_7", "panel_8",
    ] {
        g.close_panel(id);
    }
    assert!(g.layout_state().maximized_panel.is_none());
    assert_eq!(g.layout_state().visible_count(), 1);
    let dirs = g.layout_state().compute_directives();
    // a single full-bleed slot: one row shown, one slot bound
    assert!(!dirs[0].visible);
    assert!(dirs[1].visible);
    assert!(!dirs[2].visible);
    assert!(dirs[1].slots[0].visible);
    assert_eq!(dirs[1].slots[0].panel_id.as_deref(), Some("panel_4"));
    for j in 1..9 {
        assert!(!dirs[1].slots[j].visible);
    }
}

#[test]
fn empty_grid_has_no_drop_target() {
    let s = app_shell::layout_state::LayoutState::with_panel_count(0);
    assert!(s.is_well_formed());
    assert_eq!(s.visible_count(), 0);
    assert!(s.row_assignments.iter().all(|r| r.is_empty()));
    let mut g = PanelGrid::new();
    assert!(g.set_layout_state(s));
    g.start_drag("panel_0");
    let before = g.layout_state().clone();
    g.end_drag(container(), Point { x: 10, y: 10 });
    assert_eq!(*g.layout_state(), before);
}

#[test]
fn empty_row_counts_as_one_column() {
    // a row reported with zero panels is divided as a single column
    let counts = vec![0usize];
    let map = vec![2usize];
    let dp = calculate_drop_position(Point { x: 10, y: 10 }, container(), &counts, &map).unwrap();
    assert_eq!(dp.row, 2);
    assert_eq!(dp.col, 0);
    assert_eq!(dp.rect.width, 900);
}
