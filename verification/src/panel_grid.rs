//! The main panel grid's controller: the drag lifecycle around the
//! layout state, and the derived slot-visibility directives a renderer
//! applies.
//!
//! Pointer events reach the controller as plain values — panel tokens,
//! cursor points and the container rectangle — and every gesture ends
//! back in the idle drag state, so a release over a dead zone simply
//! cancels the drag.

use vstd::prelude::*;
use crate::drop_handler::{
    calculate_drop_position,
    spec_actual_row,
    spec_col,
    spec_cols_in,
    spec_geometry_in_range,
    spec_visual_row,
    DropPosition,
};
use crate::geometry::{Point, Rect};
use crate::layout_state::{spec_after_move, spec_is_default_grid, LayoutState};

verus! {

/// What one of a row's nine display slots shows.
#[derive(Clone, Debug, PartialEq, Eq)]
pub struct SlotDirective {
    /// Whether the slot is shown.
    pub visible: bool,
    /// The panel bound to the slot, when shown.
    pub panel_id: Option<String>,
    /// Whether the bound panel fills the whole grid.
    pub maximized: bool,
}

impl SlotDirective {
    /// The directive's abstract value.
    pub open spec fn triple(self) -> (bool, Option<Seq<char>>, bool) {
        (
            self.visible,
            match self.panel_id {
                Some(p) => Some(p@),
                None => None,
            },
            self.maximized,
        )
    }
}

/// What one grid row shows: the row itself and its nine slots, for the
/// renderer to apply as given.
#[derive(Clone, Debug, PartialEq, Eq)]
pub struct RowDirective {
    /// Whether the row is shown.
    pub visible: bool,
    /// The nine display slots, left to right.
    pub slots: Vec<SlotDirective>,
}

/// Whether row `r` is shown: with a maximized panel only its own row,
/// otherwise every row that holds panels; an empty row collapses.
pub open spec fn spec_grid_row_shown(s: LayoutState, r: int) -> bool {
    match s.maximized() {
        Some(m) => s.rows()[r].contains(m),
        None => s.rows()[r].len() > 0,
    }
}

/// What slot `j` of row `r` shows: with a maximized panel that panel
/// alone in the first slot of its row, otherwise the row's panels bound
/// left to right.
pub open spec fn spec_grid_slot_triple(s: LayoutState, r: int, j: int) -> (
    bool,
    Option<Seq<char>>,
    bool,
) {
    match s.maximized() {
        Some(m) => if s.rows()[r].contains(m) && j == 0 {
            (true, Some(m), true)
        } else {
            (false, None::<Seq<char>>, false)
        },
        None => if 0 <= j < s.rows()[r].len() && j < 9 {
            (true, Some(s.rows()[r][j]), false)
        } else {
            (false, None::<Seq<char>>, false)
        },
    }
}

impl LayoutState {
    /// The renderer directives derived from the grid: which of the three
    /// rows are shown and what each of their nine slots binds. Never
    /// mutates the grid. With exactly one panel left alive, the result is
    /// a single shown row with a single bound slot, with no maximize
    /// needed.
    pub fn compute_directives(&self) -> (r: Vec<RowDirective>)
        requires
            self.wf(),
        ensures
            r@.len() == 3,
            forall|k: int|
                0 <= k < 3 ==> (#[trigger] r@[k]).visible == spec_grid_row_shown(*self, k),
            forall|k: int| 0 <= k < 3 ==> (#[trigger] r@[k]).slots@.len() == 9,
            forall|k: int, j: int|
                0 <= k < 3 && 0 <= j < 9 ==> (#[trigger] r@[k].slots@[j]).triple()
                    == spec_grid_slot_triple(*self, k, j),
    {
        let mut out: Vec<RowDirective> = Vec::new();
        let mut k: usize = 0;
        while k < 3
            invariant
                self.wf(),
                k <= 3,
                out@.len() == k,
                forall|q: int|
                    0 <= q < k ==> (#[trigger] out@[q]).visible == spec_grid_row_shown(*self, q),
                forall|q: int| 0 <= q < k ==> (#[trigger] out@[q]).slots@.len() == 9,
                forall|q: int, j: int|
                    0 <= q < k && 0 <= j < 9 ==> (#[trigger] out@[q].slots@[j]).triple()
                        == spec_grid_slot_triple(*self, q, j),
            decreases 3 - k,
        {
            let row = &self.row_assignments[k];
            let mut slots: Vec<SlotDirective> = Vec::new();
            let shown: bool;
            match &self.maximized_panel {
                Some(m) => {
                    let here = crate::layout_state::holds_id(row, m.as_str());
                    shown = here;
                    let mut j: usize = 0;
                    while j < 9
                        invariant
                            0 <= k < 3,
                            self.wf(),
                            j <= 9,
                            slots@.len() == j,
                            self.maximized_panel == Some(*m),
                            here == self.rows()[k as int].contains(m@),
                            forall|q: int|
                                0 <= q < j ==> (#[trigger] slots@[q]).triple()
                                    == spec_grid_slot_triple(*self, k as int, q),
                        decreases 9 - j,
                    {
                        if here && j == 0 {
                            slots.push(
                                SlotDirective {
                                    visible: true,
                                    panel_id: Some(m.clone()),
                                    maximized: true,
                                },
                            );
                        } else {
                            slots.push(
                                SlotDirective { visible: false, panel_id: None, maximized: false },
                            );
                        }
                        j = j + 1;
                    }
                },
                None => {
                    shown = row.len() > 0;
                    let mut j: usize = 0;
                    while j < 9
                        invariant
                            0 <= k < 3,
                            self.wf(),
                            j <= 9,
                            slots@.len() == j,
                            self.maximized_panel is None,
                            forall|q: int|
                                0 <= q < j ==> (#[trigger] slots@[q]).triple()
                                    == spec_grid_slot_triple(*self, k as int, q),
                        decreases 9 - j,
                    {
                        if j < row.len() {
                            let id: String = row[j].clone();
                            proof {
                                assert(id@ == self.rows()[k as int][j as int]);
                            }
                            slots.push(
                                SlotDirective {
                                    visible: true,
                                    panel_id: Some(id),
                                    maximized: false,
                                },
                            );
                        } else {
                            slots.push(
                                SlotDirective { visible: false, panel_id: None, maximized: false },
                            );
                        }
                        j = j + 1;
                    }
                },
            }
            out.push(RowDirective { visible: shown, slots });
            k = k + 1;
        }
        out
    }
}

/// Auto-maximize: with nothing maximized and exactly one panel left
/// alive, the derived directives already show a single full-bleed slot —
/// exactly one row is shown, its first slot binds the surviving panel,
/// and every other slot is hidden — without any maximize action.
pub proof fn lemma_auto_maximize(s: LayoutState)
    requires
        s.wf(),
        s.maximized() is None,
        s.visible().len() == 1,
    ensures
        exists|r: int| 0 <= r < 3 && #[trigger] spec_grid_row_shown(s, r),
        forall|r1: int, r2: int|
            0 <= r1 < 3 && 0 <= r2 < 3 && #[trigger] spec_grid_row_shown(s, r1) && #[trigger]
            spec_grid_row_shown(s, r2) ==> r1 == r2,
        forall|r: int|
            0 <= r < 3 && #[trigger] spec_grid_row_shown(s, r) ==> s.rows()[r].len() == 1
                && spec_grid_slot_triple(s, r, 0) == (true, Some(s.visible()[0]), false),
        forall|r: int, j: int|
            0 <= r < 3 && 1 <= j < 9 ==> #[trigger] spec_grid_slot_triple(s, r, j) == (
                false,
                None::<Seq<char>>,
                false,
            ),
{
    let x = s.visible()[0];
    assert(s.visible().contains(x));
    assert(s.in_rows(x));
    let r0 = choose|r: int| 0 <= r < s.rows().len() && #[trigger] s.rows()[r].contains(x);
    assert forall|r: int, c: int|
        0 <= r < 3 && 0 <= c < s.rows()[r].len() implies #[trigger] s.rows()[r][c] == x by {
        assert(s.rows()[r].contains(s.rows()[r][c]));
        assert(s.in_rows(s.rows()[r][c]));
        assert(s.visible().contains(s.rows()[r][c]));
        let i = choose|i: int| 0 <= i < s.visible().len() && s.visible()[i] == s.rows()[r][c];
    }
    assert forall|r: int| 0 <= r < 3 && r != r0 implies s.rows()[r].len() == 0 by {
        if s.rows()[r].len() > 0 {
            assert(s.rows()[r][0] == x);
            assert(s.rows()[r].contains(x));
            if r < r0 {
                assert(!(s.rows()[r].contains(x) && s.rows()[r0].contains(x)));
            } else {
                assert(!(s.rows()[r0].contains(x) && s.rows()[r].contains(x)));
            }
        }
    }
    assert(s.rows()[r0].len() >= 1);
    if s.rows()[r0].len() > 1 {
        assert(s.rows()[r0][0] == x && s.rows()[r0][1] == x);
        assert(s.rows()[r0].no_duplicates());
        assert(false);
    }
    assert(s.rows()[r0][0] == x);
    assert(spec_grid_row_shown(s, r0));
}

/// The actual indices of the rows that hold panels, scanning from row
/// `r`: hidden empty rows are skipped but keep their index.
pub open spec fn spec_visible_row_indices_from(s: LayoutState, r: int) -> Seq<usize>
    decreases 3 - r,
{
    if r < 0 || r >= 3 {
        Seq::empty()
    } else if s.rows()[r].len() > 0 {
        seq![r as usize] + spec_visible_row_indices_from(s, r + 1)
    } else {
        spec_visible_row_indices_from(s, r + 1)
    }
}

/// The actual indices of the rows that hold panels, in order.
pub open spec fn spec_visible_row_indices(s: LayoutState) -> Seq<usize> {
    spec_visible_row_indices_from(s, 0)
}

/// The panel count of each row that holds panels, in row order.
pub open spec fn spec_visible_row_counts(s: LayoutState) -> Seq<usize> {
    spec_visible_row_indices(s).map_values(|r: usize| s.rows()[r as int].len() as usize)
}

/// The main grid's drag-and-drop controller: the layout state plus the
/// transient drag bookkeeping.
pub struct PanelGrid {
    /// The grid state.
    layout_state: LayoutState,
    /// The panel being dragged, while a drag is under way.
    dragging_panel: Option<String>,
    /// The drop position the drag last hovered over, for preview.
    drop_state: Option<DropPosition>,
}

impl PanelGrid {
    /// The grid state.
    pub closed spec fn state(self) -> LayoutState {
        self.layout_state
    }

    /// The token being dragged, if a drag is under way.
    pub closed spec fn dragging(self) -> Option<Seq<char>> {
        match self.dragging_panel {
            Some(p) => Some(p@),
            None => None,
        }
    }

    /// The hovered drop position, if any.
    pub closed spec fn preview(self) -> Option<DropPosition> {
        self.drop_state
    }

    /// The controller is well formed when its grid is.
    pub open spec fn wf(self) -> bool {
        self.state().wf()
    }

    /// A fresh controller over the default nine-panel grid, no drag under
    /// way.
    pub fn new() -> (r: Self)
        ensures
            r.wf(),
            spec_is_default_grid(r.state()),
            r.dragging() is None,
            r.preview() is None,
    {
        PanelGrid { layout_state: LayoutState::default(), dragging_panel: None, drop_state: None }
    }

    /// The current layout state, for persistence or inspection.
    pub fn layout_state(&self) -> (r: &LayoutState)
        ensures
            *r == self.state(),
    {
        &self.layout_state
    }

    /// Replaces the grid with a state from outside, a persisted snapshot
    /// for instance, after vetting it; an ill-formed state is refused and
    /// nothing changes.
    pub fn set_layout_state(&mut self, state: LayoutState) -> (accepted: bool)
        ensures
            accepted == state.wf(),
            accepted ==> final(self).state() == state,
            !accepted ==> *final(self) == *old(self),
            final(self).wf() == (accepted || old(self).wf()),
            final(self).dragging() == old(self).dragging(),
            final(self).preview() == old(self).preview(),
    {
        if state.is_well_formed() {
            self.layout_state = state;
            true
        } else {
            false
        }
    }

    /// Returns to the default grid and cancels any drag.
    pub fn reset_layout(&mut self)
        ensures
            final(self).wf(),
            spec_is_default_grid(final(self).state()),
            final(self).dragging() is None,
            final(self).preview() is None,
    {
        self.layout_state = LayoutState::default();
        self.dragging_panel = None;
        self.drop_state = None;
    }

    /// Closes a panel in the grid.
    pub fn close_panel(&mut self, panel_id: &str)
        requires
            old(self).wf(),
        ensures
            final(self).wf(),
            final(self).state().rows().len() == 3,
            forall|k: int|
                0 <= k < 3 ==> final(self).state().rows()[k] == old(
                    self,
                ).state().rows()[k].remove_value(panel_id@),
            final(self).state().visible() == old(self).state().visible().remove_value(panel_id@),
            final(self).state().maximized() == (if old(self).state().maximized() == Some(
                panel_id@,
            ) {
                None::<Seq<char>>
            } else {
                old(self).state().maximized()
            }),
            final(self).dragging() == old(self).dragging(),
    {
        self.layout_state.close_panel(panel_id);
    }

    /// Toggles maximize for a panel in the grid.
    pub fn toggle_maximize(&mut self, panel_id: &str)
        requires
            old(self).wf(),
        ensures
            final(self).wf(),
            final(self).state().rows() == old(self).state().rows(),
            final(self).state().visible() == old(self).state().visible(),
            final(self).state().maximized() == (if old(self).state().maximized() == Some(
                panel_id@,
            ) {
                None::<Seq<char>>
            } else if old(self).state().visible().contains(panel_id@) {
                Some(panel_id@)
            } else {
                old(self).state().maximized()
            }),
            final(self).dragging() == old(self).dragging(),
    {
        self.layout_state.toggle_maximize(panel_id);
    }

    /// Begins a drag of a visible panel; an unknown panel leaves the
    /// controller idle.
    pub fn start_drag(&mut self, panel_id: &str)
        requires
            old(self).wf(),
        ensures
            final(self).wf(),
            final(self).state() == old(self).state(),
            final(self).dragging() == (if old(self).state().visible().contains(panel_id@) {
                Some(panel_id@)
            } else {
                old(self).dragging()
            }),
            final(self).preview() == old(self).preview(),
    {
        if self.layout_state.is_visible(panel_id) {
            self.dragging_panel = Some(String::from_str(panel_id));
        }
    }

    /// The drop position under the cursor: the visible rows share the
    /// container's height evenly, the hovered row's panels share its
    /// width, and the hovered row maps back to its actual index.
    pub fn find_drop_position(&self, container: Rect, abs: Point) -> (r: Option<DropPosition>)
        requires
            self.wf(),
            0 < container.width <= 0x4000_0000,
            0 < container.height <= 0x4000_0000,
            -0x4000_0000 <= container.x <= 0x4000_0000,
            -0x4000_0000 <= container.y <= 0x4000_0000,
            forall|k: int| 0 <= k < 3 ==> (#[trigger] self.state().rows()[k]).len() <= 0x1000_0000,
        ensures
            r is Some <==> (spec_visible_row_counts(self.state()).len() > 0
                && container.spec_contains(abs)),
            match r {
                Some(dp) => {
                    let counts = spec_visible_row_counts(self.state());
                    let map = spec_visible_row_indices(self.state());
                    let n = counts.len() as int;
                    let vr = spec_visual_row(abs, container, n);
                    let cols = spec_cols_in(counts, vr);
                    let col = spec_col(abs, container, cols);
                    &&& dp.row == spec_actual_row(map, vr)
                    &&& dp.col == col
                },
                None => true,
            },
    {
        let ghost s = self.state();
        let mut counts: Vec<usize> = Vec::new();
        let mut map: Vec<usize> = Vec::new();
        let mut r: usize = 0;
        proof {
            crate::layout_state::lemma_visible_in_row_full(s);
        }
        while r < 3
            invariant
                self.wf(),
                s == self.state(),
                r <= 3,
                forall|k: int| 0 <= k < 3 ==> (#[trigger] s.rows()[k]).len() <= 0x1000_0000,
                map@.len() == counts@.len(),
                map@.len() <= r,
                spec_visible_row_indices(s) == map@ + spec_visible_row_indices_from(s, r as int),
                forall|t: int|
                    0 <= t < counts@.len() ==> #[trigger] counts@[t] == s.rows()[map@[t] as int].len(),
                forall|t: int| 0 <= t < map@.len() ==> #[trigger] map@[t] < 3,
            decreases 3 - r,
        {
            let vir = self.layout_state.visible_in_row(r);
            proof {
                assert(vir.deep_view() == s.rows()[r as int]);
                assert(vir@.len() == vir.deep_view().len());
            }
            if vir.len() > 0 {
                let ghost map_pre = map@;
                counts.push(vir.len());
                map.push(r);
                proof {
                    assert(spec_visible_row_indices_from(s, r as int) == seq![r as usize]
                        + spec_visible_row_indices_from(s, r + 1));
                    assert(map_pre + spec_visible_row_indices_from(s, r as int) =~= map@
                        + spec_visible_row_indices_from(s, r + 1));
                }
            } else {
                proof {
                    assert(spec_visible_row_indices_from(s, r as int)
                        == spec_visible_row_indices_from(s, r + 1));
                }
            }
            r = r + 1;
        }
        proof {
            assert(spec_visible_row_indices_from(s, 3) =~= Seq::<usize>::empty());
            assert(spec_visible_row_indices(s) =~= map@);
            assert(counts@ =~= spec_visible_row_counts(s)) by {
                assert(spec_visible_row_counts(s).len() == map@.len());
                assert forall|t: int|
                    0 <= t < counts@.len() implies counts@[t] == spec_visible_row_counts(
                    s,
                )[t] by {
                    assert(spec_visible_row_counts(s)[t] == s.rows()[map@[t] as int].len() as usize);
                    assert(s.rows()[map@[t] as int].len() <= 0x1000_0000);
                }
            }
            assert(spec_geometry_in_range(container, counts@)) by {
                assert forall|i: int| 0 <= i < counts@.len() implies #[trigger] counts@[i]
                    <= 0x1000_0000 by {
                    assert(counts@[i] == s.rows()[map@[i] as int].len());
                }
            }
        }
        calculate_drop_position(abs, container, &counts, &map)
    }

    /// Updates the hovered drop preview from the cursor; pure feedback,
    /// the grid itself never changes here.
    pub fn update_drag(&mut self, container: Rect, abs: Point)
        requires
            old(self).wf(),
            0 < container.width <= 0x4000_0000,
            0 < container.height <= 0x4000_0000,
            -0x4000_0000 <= container.x <= 0x4000_0000,
            -0x4000_0000 <= container.y <= 0x4000_0000,
            forall|k: int|
                0 <= k < 3 ==> (#[trigger] old(self).state().rows()[k]).len() <= 0x1000_0000,
        ensures
            final(self).wf(),
            final(self).state() == old(self).state(),
            final(self).dragging() == old(self).dragging(),
            old(self).dragging() is None ==> final(self).preview() == old(self).preview(),
            old(self).dragging() is Some ==> (final(self).preview() is Some <==> (
            spec_visible_row_counts(old(self).state()).len() > 0 && container.spec_contains(abs))),
            old(self).dragging() is Some ==> match final(self).preview() {
                Some(dp) => {
                    let counts = spec_visible_row_counts(old(self).state());
                    let map = spec_visible_row_indices(old(self).state());
                    let n = counts.len() as int;
                    let vr = spec_visual_row(abs, container, n);
                    let cols = spec_cols_in(counts, vr);
                    &&& dp.row == spec_actual_row(map, vr)
                    &&& dp.col == spec_col(abs, container, cols)
                },
                None => true,
            },
    {
        if self.dragging_panel.is_some() {
            self.drop_state = self.find_drop_position(container, abs);
        }
    }

    /// Ends a drag at the cursor: moves the dragged panel when the cursor
    /// picks a drop position, and in every case returns to the idle drag
    /// state, so a release over a dead zone simply cancels.
    pub fn end_drag(&mut self, container: Rect, abs: Point)
        requires
            old(self).wf(),
            0 < container.width <= 0x4000_0000,
            0 < container.height <= 0x4000_0000,
            -0x4000_0000 <= container.x <= 0x4000_0000,
            -0x4000_0000 <= container.y <= 0x4000_0000,
            forall|k: int|
                0 <= k < 3 ==> (#[trigger] old(self).state().rows()[k]).len() <= 0x1000_0000,
        ensures
            final(self).wf(),
            final(self).dragging() is None,
            final(self).preview() is None,
            match old(self).dragging() {
                None => final(self).state() == old(self).state(),
                Some(p) => {
                    let o = old(self).state();
                    let counts = spec_visible_row_counts(o);
                    let map = spec_visible_row_indices(o);
                    if counts.len() > 0 && container.spec_contains(abs) {
                        let n = counts.len() as int;
                        let vr = spec_visual_row(abs, container, n);
                        let cols = spec_cols_in(counts, vr);
                        spec_after_move(
                            o,
                            final(self).state(),
                            p,
                            spec_actual_row(map, vr),
                            spec_col(abs, container, cols),
                        )
                    } else {
                        final(self).state() == o
                    }
                },
            },
    {
        let dragging = match &self.dragging_panel {
            Some(d) => Some(d.clone()),
            None => None,
        };
        if let Some(d) = dragging {
            match self.find_drop_position(container, abs) {
                Some(dp) => {
                    self.layout_state.move_panel(d.as_str(), dp.row, dp.col);
                },
                None => {
                },
            }
        }
        self.dragging_panel = None;
        self.drop_state = None;
    }
}

} // verus!
