use app_shell::layout_state::{LayoutMode, LayoutState};

fn default_state() -> LayoutState {
    LayoutState::default()
}

#[test]
fn default_grid_is_three_rows_of_three() {
    let s = default_state();
    assert_eq!(s.row_assignments.len(), 3);
    assert_eq!(s.row_assignments[0], vec!["panel_0", "panel_1", "panel_2"]);
    assert_eq!(s.row_assignments[1], vec!["panel_3", "panel_4", "panel_5"]);
    assert_eq!(s.row_assignments[2], vec!["panel_6", "panel_7", "panel_8"]);
    assert_eq!(s.visible_count(), 9);
    assert!(s.maximized_panel.is_none());
    assert_eq!(s.layout_mode, LayoutMode::AutoGrid);
    assert_eq!(s.selected_tab, 0);
    assert!(s.is_well_formed());
}

#[test]
fn with_panel_count_spreads_panels() {
    let s = LayoutState::with_panel_count(5);
    // ceiling division: two panels per row
    assert_eq!(s.row_assignments[0], vec!["panel_0", "panel_1"]);
    assert_eq!(s.row_assignments[1], vec!["panel_2", "panel_3"]);
    assert_eq!(s.row_assignments[2], vec!["panel_4"]);
    assert_eq!(s.visible_count(), 5);
    assert!(s.is_well_formed());
}

#[test]
fn close_removes_from_row_and_visible() {
    let mut s = default_state();
    s.close_panel("panel_1");
    assert_eq!(s.row_assignments[0], vec!["panel_0", "panel_2"]);
    assert!(!s.is_visible("panel_1"));
    assert_eq!(s.visible_count(), 8);
    assert!(s.is_well_formed());
}

#[test]
fn close_then_drop_scenario() {
    let mut s = default_state();
    s.close_panel("panel_1");
    assert_eq!(s.row_assignments[0], vec!["panel_0", "panel_2"]);
    assert!(!s.is_visible("panel_1"));

    s.move_panel("panel_0", 1, 3);
    assert_eq!(s.row_assignments[0], vec!["panel_2"]);
    assert_eq!(s.row_assignments[1], vec!["panel_3", "panel_4", "panel_5", "panel_0"]);
    assert_eq!(s.row_assignments[2], vec!["panel_6", "panel_7", "panel_8"]);
    assert!(s.is_well_formed());
}

#[test]
fn drop_on_own_position_is_noop() {
    let mut s = default_state();
    let saved = s.clone();
    s.move_panel("panel_4", 1, 1);
    assert_eq!(s, saved);
}

#[test]
fn same_row_shift_lands_between() {
    let mut s = default_state();
    // row 0 is [panel_0, panel_1, panel_2]; dragging the first panel to
    // column 2 must give [panel_1, panel_0, panel_2], not rotate it to
    // the end
    s.move_panel("panel_0", 0, 2);
    assert_eq!(s.row_assignments[0], vec!["panel_1", "panel_0", "panel_2"]);
    assert!(s.is_well_formed());
}

#[test]
fn move_between_rows() {
    let mut s = default_state();
    s.move_panel("panel_8", 0, 0);
    assert_eq!(s.row_assignments[0], vec!["panel_8", "panel_0", "panel_1", "panel_2"]);
    assert_eq!(s.row_assignments[2], vec!["panel_6", "panel_7"]);
    assert!(s.is_well_formed());
}

#[test]
fn move_unknown_panel_is_noop() {
    let mut s = default_state();
    let saved = s.clone();
    s.move_panel("panel_77", 1, 0);
    assert_eq!(s, saved);
}

#[test]
fn move_to_row_outside_grid_is_noop() {
    let mut s = default_state();
    let saved = s.clone();
    s.move_panel("panel_0", 3, 0);
    assert_eq!(s, saved);
}

#[test]
fn closing_maximized_panel_clears_maximize() {
    let mut s = default_state();
    s.toggle_maximize("panel_4");
    assert_eq!(s.maximized_panel.as_deref(), Some("panel_4"));
    s.close_panel("panel_4");
    assert!(s.maximized_panel.is_none());
    assert!(s.is_well_formed());
}

#[test]
fn toggle_maximize_toggles_and_replaces() {
    let mut s = default_state();
    s.toggle_maximize("panel_2");
    assert_eq!(s.maximized_panel.as_deref(), Some("panel_2"));
    s.toggle_maximize("panel_5");
    assert_eq!(s.maximized_panel.as_deref(), Some("panel_5"));
    s.toggle_maximize("panel_5");
    assert!(s.maximized_panel.is_none());
    // a panel the grid does not hold is ignored
    s.toggle_maximize("panel_77");
    assert!(s.maximized_panel.is_none());
}

#[test]
fn find_panel_row_and_visible_in_row() {
    let s = default_state();
    assert_eq!(s.find_panel_row("panel_4"), Some((1, 1)));
    assert_eq!(s.find_panel_row("panel_77"), None);
    assert_eq!(s.visible_in_row(1), vec!["panel_3", "panel_4", "panel_5"]);
    assert!(s.visible_in_row(3).is_empty());
}

#[test]
fn layout_mode_names() {
    assert_eq!(LayoutMode::AutoGrid.name(), "Auto Grid");
    assert_eq!(LayoutMode::HStack.name(), "Horizontal");
    assert_eq!(LayoutMode::VStack.name(), "Vertical");
    assert_eq!(LayoutMode::Tabbed.name(), "Tabbed");
    assert_eq!(LayoutMode::default(), LayoutMode::AutoGrid);
}

#[test]
fn well_formedness_check_rejects_corrupt_states() {
    // a panel in two rows
    let mut s = default_state();
    s.row_assignments[1][0] = "panel_0".to_string();
    assert!(!s.is_well_formed());

    // a row panel missing from the visible set
    let mut s = default_state();
    s.visible_panels.retain(|id| id != "panel_3");
    assert!(!s.is_well_formed());

    // a maximized panel that is not alive
    let mut s = default_state();
    s.maximized_panel = Some("panel_77".to_string());
    assert!(!s.is_well_formed());

    // duplicate within a row
    let mut s = default_state();
    s.row_assignments[2][0] = "panel_8".to_string();
    assert!(!s.is_well_formed());
}

#[test]
fn invariants_hold_under_operation_sequences() {
    let mut s = default_state();
    s.close_panel("panel_2");
    s.move_panel("panel_0", 2, 1);
    s.toggle_maximize("panel_7");
    s.move_panel("panel_7", 0, 0);
    s.close_panel("panel_7");
    s.move_panel("panel_3", 1, 2);
    s.close_panel("panel_0");
    assert!(s.is_well_formed());
    // a closed panel is gone from every row
    for row in &s.row_assignments {
        assert!(!row.contains(&"panel_7".to_string()));
        assert!(!row.contains(&"panel_0".to_string()));
    }
}
