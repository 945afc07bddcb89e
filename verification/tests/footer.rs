use app_shell::footer_grid::{get_slot_drop_rect, FooterGrid, FooterLayoutState};
use app_shell::geometry::{Point, Rect};

fn slot_ids(s: &FooterLayoutState, i: usize) -> Vec<String> {
    s.slots[i].panel_ids.clone()
}

#[test]
fn default_footer_is_seven_single_slots() {
    let s = FooterLayoutState::default();
    assert_eq!(s.slots.len(), 7);
    for i in 0..7 {
        assert!(s.slots[i].visible);
        assert_eq!(s.slots[i].panel_ids, vec![format!("footer_panel_{}", i)]);
    }
    assert!(s.fullscreen_panel.is_none());
    assert!(s.is_well_formed());
}

#[test]
fn drop_to_later_slot_compacts() {
    let mut s = FooterLayoutState::default();
    s.handle_drop("footer_panel_2", 5, true);
    // the emptied slot is compacted away and the target, shifted one
    // left, stacks its occupant above the dropped panel
    assert_eq!(slot_ids(&s, 0), vec!["footer_panel_0"]);
    assert_eq!(slot_ids(&s, 1), vec!["footer_panel_1"]);
    assert_eq!(slot_ids(&s, 2), vec!["footer_panel_3"]);
    assert_eq!(slot_ids(&s, 3), vec!["footer_panel_4"]);
    assert_eq!(slot_ids(&s, 4), vec!["footer_panel_5", "footer_panel_2"]);
    assert_eq!(slot_ids(&s, 5), vec!["footer_panel_6"]);
    assert!(slot_ids(&s, 6).is_empty());
    assert!(!s.slots[6].visible);
    assert!(s.is_well_formed());
}

#[test]
fn drop_on_top_half_inserts_above() {
    let mut s = FooterLayoutState::default();
    s.handle_drop("footer_panel_2", 5, false);
    assert_eq!(slot_ids(&s, 4), vec!["footer_panel_2", "footer_panel_5"]);
}

#[test]
fn capacity_ceiling_rejects_sixth_panel() {
    let mut s = FooterLayoutState::default();
    // stack five panels into the leftmost slot
    s.handle_drop("footer_panel_1", 0, true);
    s.handle_drop("footer_panel_2", 0, true);
    s.handle_drop("footer_panel_3", 0, true);
    s.handle_drop("footer_panel_4", 0, true);
    assert_eq!(
        slot_ids(&s, 0),
        vec![
            "footer_panel_0",
            "footer_panel_1",
            "footer_panel_2",
            "footer_panel_3",
            "footer_panel_4"
        ]
    );
    let saved = s.clone();
    // a sixth panel bounces off, with no state change at all
    s.handle_drop("footer_panel_5", 0, true);
    assert_eq!(s, saved);
    assert_eq!(slot_ids(&s, 0).len(), 5);
    assert!(s.is_well_formed());
}

#[test]
fn drop_on_own_slot_is_noop() {
    let mut s = FooterLayoutState::default();
    let saved = s.clone();
    s.handle_drop("footer_panel_3", 3, true);
    assert_eq!(s, saved);
}

#[test]
fn compact_is_idempotent() {
    let mut s = FooterLayoutState::default();
    s.close_panel("footer_panel_1");
    s.close_panel("footer_panel_4");
    s.compact_slots();
    let once = s.clone();
    s.compact_slots();
    assert_eq!(s, once);
}

#[test]
fn close_empties_and_compacts() {
    let mut s = FooterLayoutState::default();
    s.close_panel("footer_panel_0");
    assert_eq!(slot_ids(&s, 0), vec!["footer_panel_1"]);
    assert_eq!(slot_ids(&s, 5), vec!["footer_panel_6"]);
    assert!(slot_ids(&s, 6).is_empty());
    assert!(!s.slots[6].visible);
    assert!(s.is_well_formed());
}

#[test]
fn closing_fullscreen_panel_leaves_fullscreen() {
    let mut s = FooterLayoutState::default();
    s.toggle_fullscreen("footer_panel_3");
    assert_eq!(s.fullscreen_panel.as_deref(), Some("footer_panel_3"));
    s.close_panel("footer_panel_3");
    assert!(s.fullscreen_panel.is_none());
    s.toggle_fullscreen("footer_panel_5");
    s.toggle_fullscreen("footer_panel_5");
    assert!(s.fullscreen_panel.is_none());
}

#[test]
fn set_visible_panels_hides_tail() {
    let mut s = FooterLayoutState::default();
    s.set_visible_panels(3);
    for i in 0..7 {
        assert_eq!(s.slots[i].visible, i < 3);
    }
    assert!(s.is_well_formed());
}

#[test]
fn footer_directives_stack_panels() {
    let mut s = FooterLayoutState::default();
    s.handle_drop("footer_panel_1", 3, true);
    // slot 2 (shifted left) now stacks two panels
    let dirs = s.compute_directives();
    assert_eq!(dirs.len(), 7);
    assert!(dirs[2].visible);
    assert_eq!(dirs[2].panels[0].panel_id.as_deref(), Some("footer_panel_3"));
    assert_eq!(dirs[2].panels[1].panel_id.as_deref(), Some("footer_panel_1"));
    assert!(dirs[2].panels[0].visible && dirs[2].panels[1].visible);
    assert!(!dirs[2].panels[2].visible);
    assert!(!dirs[6].visible);
}

#[test]
fn footer_directives_fullscreen_shows_one_panel() {
    let mut s = FooterLayoutState::default();
    s.handle_drop("footer_panel_1", 3, true);
    s.toggle_fullscreen("footer_panel_1");
    let dirs = s.compute_directives();
    for i in 0..7 {
        if i == 2 {
            assert!(dirs[i].visible);
            assert!(dirs[i].panels[0].visible);
            assert_eq!(dirs[i].panels[0].panel_id.as_deref(), Some("footer_panel_1"));
            assert!(dirs[i].panels[0].fullscreen);
            assert!(!dirs[i].panels[1].visible);
        } else {
            assert!(!dirs[i].visible);
        }
    }
}

#[test]
fn footer_controller_drag_lifecycle() {
    let mut g = FooterGrid::new(7);
    // seven slot rectangles side by side, 100 wide and 80 tall
    let rects: Vec<Rect> = (0..7)
        .map(|i: i64| Rect { x: i * 100, y: 0, width: 100, height: 80 })
        .collect();
    g.start_drag("footer_panel_0");
    // hover over the bottom half of slot 4
    g.update_drop_target(Point { x: 450, y: 70 }, &rects);
    g.end_drag(Point { x: 450, y: 70 }, &rects);
    let state = g.get_layout_state();
    assert_eq!(slot_ids(&state, 3), vec!["footer_panel_4", "footer_panel_0"]);
    assert!(state.is_well_formed());
}

#[test]
fn footer_controller_release_outside_cancels() {
    let mut g = FooterGrid::new(7);
    let rects: Vec<Rect> = (0..7)
        .map(|i: i64| Rect { x: i * 100, y: 0, width: 100, height: 80 })
        .collect();
    let before = g.get_layout_state();
    g.start_drag("footer_panel_0");
    g.end_drag(Point { x: 5000, y: 5000 }, &rects);
    let after = g.get_layout_state();
    assert_eq!(before, after);
}

#[test]
fn footer_set_layout_state_validates() {
    let mut g = FooterGrid::new(3);
    let good = FooterLayoutState::default();
    assert!(g.set_layout_state(good.clone()));
    assert_eq!(g.get_layout_state(), good);

    // a state with one panel in two slots is refused
    let mut bad = FooterLayoutState::default();
    bad.slots[1].panel_ids = vec!["footer_panel_0".to_string()];
    assert!(!g.set_layout_state(bad));
    assert_eq!(g.get_layout_state(), good);
}

#[test]
fn footer_reset_restores_initial_slots() {
    let mut g = FooterGrid::new(3);
    g.close_panel("footer_panel_0");
    g.reset_layout();
    let state = g.get_layout_state();
    for i in 0..7 {
        assert_eq!(state.slots[i].visible, i < 3);
        assert_eq!(state.slots[i].panel_ids, vec![format!("footer_panel_{}", i)]);
    }
}

#[test]
fn hover_skips_own_slot() {
    let mut g = FooterGrid::new(7);
    let rects: Vec<Rect> = (0..7)
        .map(|i: i64| Rect { x: i * 100, y: 0, width: 100, height: 80 })
        .collect();
    g.start_drag("footer_panel_2");
    // hovering over the dragged panel's own slot finds no target, so
    // dropping there changes nothing
    g.end_drag(Point { x: 250, y: 40 }, &rects);
    let state = g.get_layout_state();
    assert_eq!(slot_ids(&state, 2), vec!["footer_panel_2"]);
}

#[test]
fn slot_drop_rect_halves() {
    let rect = Rect { x: 100, y: 600, width: 150, height: 100 };
    let top = get_slot_drop_rect(rect, false).unwrap();
    assert_eq!(top, Rect { x: 100, y: 600, width: 150, height: 50 });
    let bottom = get_slot_drop_rect(rect, true).unwrap();
    assert_eq!(bottom, Rect { x: 100, y: 650, width: 150, height: 50 });
    let degenerate = Rect { x: 0, y: 0, width: 0, height: 100 };
    assert!(get_slot_drop_rect(degenerate, true).is_none());
}
