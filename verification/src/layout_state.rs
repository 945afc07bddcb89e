//! Authoritative state of the main panel grid.
//!
//! Three ordered rows of panel tokens, the set of panels still alive, an
//! optional maximized panel, and the layout-mode bookkeeping a tabbed
//! variant needs. Every mutation keeps the state well formed: a panel sits
//! in at most one row, the visible set matches row membership exactly, and
//! a maximized panel is always alive.

use vstd::prelude::*;
use crate::ids::{str_eq, panel_id_seq, panel_id_string};

verus! {

/// How the grid arranges its panels.
#[derive(Clone, Copy, Debug, PartialEq, Eq, Structural)]
pub enum LayoutMode {
    /// Automatic grid based on panel count.
    AutoGrid,
    /// All panels in one row.
    HStack,
    /// All panels in one column.
    VStack,
    /// One panel visible at a time.
    Tabbed,
}

impl LayoutMode {
    /// The display name of each mode.
    pub open spec fn spec_name(self) -> Seq<char> {
        match self {
            LayoutMode::AutoGrid => "Auto Grid"@,
            LayoutMode::HStack => "Horizontal"@,
            LayoutMode::VStack => "Vertical"@,
            LayoutMode::Tabbed => "Tabbed"@,
        }
    }

    /// Display name for this layout mode.
    pub fn name(&self) -> (r: &'static str)
        ensures
            r@ == self.spec_name(),
    {
        match self {
            LayoutMode::AutoGrid => "Auto Grid",
            LayoutMode::HStack => "Horizontal",
            LayoutMode::VStack => "Vertical",
            LayoutMode::Tabbed => "Tabbed",
        }
    }
}

impl Default for LayoutMode {
    /// The grid starts in the automatic arrangement.
    fn default() -> (r: Self)
        ensures
            r == LayoutMode::AutoGrid,
    {
        LayoutMode::AutoGrid
    }
}

/// Position of the first occurrence of `id` in `v`, if any.
pub(crate) fn find_in(v: &Vec<String>, id: &str) -> (r: Option<usize>)
    ensures
        match r {
            Some(c) => v.deep_view().index_of_first(id@) == Some(c as int),
            None => !v.deep_view().contains(id@),
        },
{
    let ghost d = v.deep_view();
    let mut i: usize = 0;
    while i < v.len()
        invariant
            i <= v.len(),
            forall|j: int| 0 <= j < i ==> d[j] != id@,
        decreases v.len() - i,
    {
        if str_eq(v[i].as_str(), id) {
            proof {
                assert(d[i as int] == id@);
                d.index_of_first_ensures(id@);
                let k = d.index_of_first(id@)->Some_0;
                if k < i {
                    assert(d[k] != id@);
                } else if k > i {
                    assert(d[i as int] != id@);
                }
            }
            return Some(i);
        }
        i = i + 1;
    }
    None
}

/// Whether `v` holds `id`.
pub(crate) fn holds_id(v: &Vec<String>, id: &str) -> (r: bool)
    ensures
        r == v.deep_view().contains(id@),
{
    match find_in(v, id) {
        Some(c) => {
            proof {
                v.deep_view().index_of_first_ensures(id@);
            }
            true
        },
        None => false,
    }
}

/// Removes the first occurrence of `id` from `v`; reports whether one was there.
pub(crate) fn remove_first(v: &mut Vec<String>, id: &str) -> (r: bool)
    ensures
        final(v).deep_view() == old(v).deep_view().remove_value(id@),
        r == old(v).deep_view().contains(id@),
        !r ==> *final(v) == *old(v),
{
    let ghost d = old(v).deep_view();
    match find_in(v, id) {
        Some(c) => {
            proof {
                d.index_of_first_ensures(id@);
            }
            let _removed: String = v.remove(c);
            proof {
                assert(v.deep_view() =~= d.remove(c as int)) by {
                    assert(v@ == old(v)@.remove(c as int));
                    assert forall|k: int| 0 <= k < v.deep_view().len() implies v.deep_view()[k]
                        == d.remove(c as int)[k] by {
                        assert(v.deep_view()[k] == v@[k]@);
                        if k < c {
                            assert(v@[k] == old(v)@[k]);
                        } else {
                            assert(v@[k] == old(v)@[k + 1]);
                        }
                    }
                }
            }
            true
        },
        None => {
            proof {
                d.index_of_first_ensures(id@);
            }
            false
        },
    }
}

/// Persistable state of the main grid.
#[derive(Clone, Debug, PartialEq, Eq)]
pub struct LayoutState {
    /// Panel tokens assigned to each of the three rows, in display order.
    pub row_assignments: Vec<Vec<String>>,
    /// Panels that are alive, in the order they were created.
    pub visible_panels: Vec<String>,
    /// The maximized panel, if any.
    pub maximized_panel: Option<String>,
    /// Current layout mode.
    pub layout_mode: LayoutMode,
    /// Selected tab index, used only by the tabbed mode.
    pub selected_tab: usize,
}

impl LayoutState {
    /// The rows as sequences of tokens.
    pub open spec fn rows(self) -> Seq<Seq<Seq<char>>> {
        self.row_assignments.deep_view()
    }

    /// The visible set as the sequence backing it.
    pub open spec fn visible(self) -> Seq<Seq<char>> {
        self.visible_panels.deep_view()
    }

    /// The maximized token, if any.
    pub open spec fn maximized(self) -> Option<Seq<char>> {
        match self.maximized_panel {
            Some(p) => Some(p@),
            None => None,
        }
    }

    /// Whether some row holds `id`.
    pub open spec fn in_rows(self, id: Seq<char>) -> bool {
        exists|r: int| 0 <= r < self.rows().len() && #[trigger] self.rows()[r].contains(id)
    }

    /// Within each row, every token appears once.
    pub open spec fn rows_distinct(self) -> bool {
        forall|r: int| 0 <= r < self.rows().len() ==> (#[trigger] self.rows()[r]).no_duplicates()
    }

    /// No token is a member of two different rows.
    pub open spec fn rows_disjoint(self) -> bool {
        forall|r1: int, r2: int, id: Seq<char>|
            0 <= r1 < r2 < self.rows().len() ==> !(#[trigger] self.rows()[r1].contains(id)
                && #[trigger] self.rows()[r2].contains(id))
    }

    /// Well-formedness: three rows, each token in at most one place, the
    /// visible set duplicate-free and equal to row membership, and any
    /// maximized panel alive.
    pub open spec fn wf(self) -> bool {
        &&& self.rows().len() == 3
        &&& self.rows_distinct()
        &&& self.rows_disjoint()
        &&& self.visible().no_duplicates()
        &&& forall|id: Seq<char>| #[trigger] self.visible().contains(id) ==> self.in_rows(id)
        &&& forall|id: Seq<char>| #[trigger] self.in_rows(id) ==> self.visible().contains(id)
        &&& match self.maximized() {
            Some(p) => self.in_rows(p),
            None => true,
        }
    }

    /// Total number of visible panels.
    pub fn visible_count(&self) -> (r: usize)
        ensures
            r == self.visible().len(),
    {
        self.visible_panels.len()
    }

    /// Whether a panel is alive.
    pub fn is_visible(&self, panel_id: &str) -> (r: bool)
        ensures
            r == self.visible().contains(panel_id@),
    {
        holds_id(&self.visible_panels, panel_id)
    }

    /// Row and column of a panel: the first row holding it, and the first
    /// position within that row.
    pub fn find_panel_row(&self, panel_id: &str) -> (r: Option<(usize, usize)>)
        ensures
            match r {
                Some((row, col)) => {
                    &&& 0 <= row < self.rows().len()
                    &&& self.rows()[row as int].index_of_first(panel_id@) == Some(col as int)
                    &&& forall|q: int| 0 <= q < row ==> !#[trigger] self.rows()[q].contains(
                        panel_id@,
                    )
                },
                None => !self.in_rows(panel_id@),
            },
{
        let mut r: usize = 0;
        while r < self.row_assignments.len()
            invariant
                r <= self.rows().len(),
                forall|q: int| 0 <= q < r ==> !#[trigger] self.rows()[q].contains(panel_id@),
            decreases self.rows().len() - r,
        {
            proof {
                assert(self.rows()[r as int] == self.row_assignments@[r as int].deep_view());
            }
            if let Some(c) = find_in(&self.row_assignments[r], panel_id) {
                return Some((r, c));
            }
            r = r + 1;
        }
        None
    }

    /// The visible panels of a row, in row order, as owned tokens.
    ///
    /// Rows beyond the grid yield nothing.
    pub fn visible_in_row(&self, row: usize) -> (r: Vec<String>)
        ensures
            row < self.rows().len() ==> r.deep_view() == self.rows()[row as int].filter(
                |id: Seq<char>| self.visible().contains(id),
            ),
            row >= self.rows().len() ==> r.deep_view() == Seq::<Seq<char>>::empty(),
    {
        let mut out: Vec<String> = Vec::new();
        if row >= self.row_assignments.len() {
            proof {
                assert(out.deep_view() =~= Seq::<Seq<char>>::empty());
            }
            return out;
        }
        let ghost pred = |id: Seq<char>| self.visible().contains(id);
        let ghost rowseq = self.rows()[row as int];
        let n = self.row_assignments[row].len();
        proof {
            assert(rowseq == self.row_assignments@[row as int].deep_view());
            assert(rowseq.subrange(0, 0) =~= Seq::<Seq<char>>::empty());
            reveal(Seq::filter);
        }
        let mut i: usize = 0;
        while i < n
            invariant
                i <= n,
                n == rowseq.len(),
                out.deep_view() == rowseq.subrange(0, i as int).filter(pred),
            decreases n - i,
        {
            let id_ref: &String = &self.row_assignments[row][i];
            proof {
                assert(id_ref@ == rowseq[i as int]);
            }
            let ghost prev = out.deep_view();
            if holds_id(&self.visible_panels, id_ref.as_str()) {
                let copy: String = id_ref.clone();
                out.push(copy);
                proof {
                    assert(out.deep_view() =~= prev.push(rowseq[i as int]));
                }
            }
            proof {
                reveal(Seq::filter);
                let sub1 = rowseq.subrange(0, i + 1 as int);
                assert(sub1.drop_last() =~= rowseq.subrange(0, i as int));
                assert(sub1.last() == rowseq[i as int]);
                assert(out.deep_view() == sub1.filter(pred));
            }
            i = i + 1;
        }
        proof {
            assert(rowseq.subrange(0, n as int) =~= rowseq);
        }
        out
    }

    /// Closes a panel: removes it from the visible set and from its row,
    /// and leaves maximize mode if the closed panel was the maximized one.
    /// Closing a panel the grid does not hold changes nothing.
    pub fn close_panel(&mut self, panel_id: &str)
        requires
            old(self).wf(),
        ensures
            final(self).wf(),
            final(self).rows().len() == 3,
            forall|k: int|
                0 <= k < 3 ==> final(self).rows()[k] == old(self).rows()[k].remove_value(
                    panel_id@,
                ),
            final(self).visible() == old(self).visible().remove_value(panel_id@),
            final(self).maximized() == (if old(self).maximized() == Some(panel_id@) {
                None::<Seq<char>>
            } else {
                old(self).maximized()
            }),
            final(self).layout_mode == old(self).layout_mode,
            final(self).selected_tab == old(self).selected_tab,
    {
        remove_first(&mut self.visible_panels, panel_id);
        let mut r: usize = 0;
        while r < 3
            invariant
                self.row_assignments@.len() == 3,
                r <= 3,
                forall|k: int|
                    0 <= k < r ==> self.rows()[k] == old(self).rows()[k].remove_value(panel_id@),
                forall|k: int| r <= k < 3 ==> self.rows()[k] == old(self).rows()[k],
                self.visible() == old(self).visible().remove_value(panel_id@),
                self.maximized_panel == old(self).maximized_panel,
                self.layout_mode == old(self).layout_mode,
                self.selected_tab == old(self).selected_tab,
            decreases 3 - r,
        {
            let ghost pre = self.row_assignments@;
            proof {
                assert forall|k: int| 0 <= k < 3 implies pre[k].deep_view() == (if k < r as int {
                    old(self).rows()[k].remove_value(panel_id@)
                } else {
                    old(self).rows()[k]
                }) by {
                    assert(pre[k].deep_view() == self.rows()[k]);
                }
            }
            let mut row = self.row_assignments.remove(r);
            remove_first(&mut row, panel_id);
            self.row_assignments.insert(r, row);
            proof {
                pre.remove_ensures(r as int);
                pre.remove(r as int).insert_ensures(r as int, row);
                assert(self.row_assignments@ == pre.remove(r as int).insert(r as int, row));
                assert forall|k: int| 0 <= k < 3 implies self.row_assignments@[k] == (if k
                    == r as int {
                    row
                } else {
                    pre[k]
                }) by {
                    if k > r as int {
                        assert(pre.remove(r as int)[k - 1] == pre[k]);
                        assert(self.row_assignments@[k] == pre.remove(r as int)[k - 1]);
                    }
                }
                assert forall|k: int| 0 <= k < 3 implies #[trigger] self.rows()[k]
                    == self.row_assignments@[k].deep_view() by {}
                assert(row.deep_view() == pre[r as int].deep_view().remove_value(panel_id@));
                assert forall|k: int| 0 <= k < r + 1 implies self.rows()[k] == old(
                    self,
                ).rows()[k].remove_value(panel_id@) by {
                    if k < r as int {
                        assert(self.row_assignments@[k] == pre[k]);
                        assert(self.rows()[k] == pre[k].deep_view());
                        assert(pre[k].deep_view() == old(self).rows()[k].remove_value(panel_id@));
                    } else {
                        assert(self.rows()[k] == row.deep_view());
                        assert(row.deep_view() == pre[r as int].deep_view().remove_value(
                            panel_id@,
                        ));
                        assert(pre[r as int].deep_view() == old(self).rows()[r as int]);
                    }
                }
            }
            r = r + 1;
        }
        proof {
            assert(r == 3);
            assert(self.rows()[0] == old(self).rows()[0].remove_value(panel_id@));
            assert(forall|k: int|
                0 <= k < 3 ==> self.rows()[k] == old(self).rows()[k].remove_value(panel_id@));
        }
        let clear: bool = match &self.maximized_panel {
            Some(m) => str_eq(m.as_str(), panel_id),
            None => false,
        };
        if clear {
            self.maximized_panel = None;
        }
        proof {
            lemma_close_preserves_wf(*old(self), *self, panel_id@);
        }
    }
    /// Whether the state satisfies the grid's invariants; used to vet
    /// states that arrive from outside, such as persisted snapshots.
    pub fn is_well_formed(&self) -> (r: bool)
        ensures
            r == self.wf(),
    {
        if self.row_assignments.len() != 3 {
            return false;
        }
        // every row duplicate-free, rows pairwise disjoint, members visible
        let mut i: usize = 0;
        while i < 3
            invariant
                self.rows().len() == 3,
                i <= 3,
                forall|k: int| 0 <= k < i ==> (#[trigger] self.rows()[k]).no_duplicates(),
                forall|k1: int, k2: int, id: Seq<char>|
                    0 <= k1 < k2 < 3 && k1 < i ==> !(#[trigger] self.rows()[k1].contains(id)
                        && #[trigger] self.rows()[k2].contains(id)),
                forall|k: int, c: int|
                    0 <= k < i && 0 <= c < self.rows()[k].len() ==> self.visible().contains(
                        #[trigger] self.rows()[k][c],
                    ),
            decreases 3 - i,
        {
            let ghost row = self.rows()[i as int];
            let n = self.row_assignments[i].len();
            let mut a: usize = 0;
            while a < n
                invariant
                    self.rows().len() == 3,
                    i < 3,
                    n == self.rows()[i as int].len(),
                    a <= n,
                    forall|a1: int, a2: int|
                        0 <= a1 < a2 < n && a1 < a ==> #[trigger] self.rows()[i as int][a1]
                            != #[trigger] self.rows()[i as int][a2],
                    forall|a1: int|
                        0 <= a1 < a ==> self.visible().contains(
                            #[trigger] self.rows()[i as int][a1],
                        ),
                decreases n - a,
            {
                let mut b: usize = a + 1;
                while b < n
                    invariant
                        self.rows().len() == 3,
                        i < 3,
                        a < n == self.rows()[i as int].len(),
                        a < b <= n,
                        forall|a2: int|
                            a < a2 < b ==> self.rows()[i as int][a as int]
                                != #[trigger] self.rows()[i as int][a2],
                    decreases n - b,
                {
                    if str_eq(
                        self.row_assignments[i][a].as_str(),
                        self.row_assignments[i][b].as_str(),
                    ) {
                        proof {
                            assert(self.rows()[i as int][a as int]
                                == self.rows()[i as int][b as int]);
                            assert(!self.rows()[i as int].no_duplicates());
                        }
                        return false;
                    }
                    b = b + 1;
                }
                if !holds_id(&self.visible_panels, self.row_assignments[i][a].as_str()) {
                    proof {
                        assert(self.rows()[i as int].contains(self.rows()[i as int][a as int]));
                        assert(self.in_rows(self.rows()[i as int][a as int]));
                    }
                    return false;
                }
                a = a + 1;
            }
            let mut j: usize = i + 1;
            while j < 3
                invariant
                    self.rows().len() == 3,
                    i < 3,
                    n == self.rows()[i as int].len(),
                    i < j <= 3,
                    forall|q: int, id: Seq<char>|
                        i < q < j ==> !(#[trigger] self.rows()[i as int].contains(id)
                            && #[trigger] self.rows()[q].contains(id)),
                decreases 3 - j,
            {
                let mut a: usize = 0;
                while a < n
                    invariant
                        self.rows().len() == 3,
                        i < 3,
                        i < j < 3,
                        n == self.rows()[i as int].len(),
                        a <= n,
                        forall|a1: int|
                            0 <= a1 < a ==> !#[trigger] self.rows()[j as int].contains(
                                self.rows()[i as int][a1],
                            ),
                    decreases n - a,
                {
                    if holds_id(&self.row_assignments[j], self.row_assignments[i][a].as_str()) {
                        proof {
                            assert(self.rows()[i as int].contains(
                                self.rows()[i as int][a as int],
                            ));
                        }
                        return false;
                    }
                    a = a + 1;
                }
                proof {
                    assert forall|id: Seq<char>|
                        !(#[trigger] self.rows()[i as int].contains(id) && self.rows()[j as int].contains(id)) by {
                        if self.rows()[i as int].contains(id) {
                            let a1 = choose|a1: int|
                                0 <= a1 < n && self.rows()[i as int][a1] == id;
                            assert(!self.rows()[j as int].contains(self.rows()[i as int][a1]));
                        }
                    }
                }
                j = j + 1;
            }
            i = i + 1;
        }
        // the visible set duplicate-free and contained in the rows
        let vn = self.visible_panels.len();
        let mut a: usize = 0;
        while a < vn
            invariant
                self.rows().len() == 3,
                vn == self.visible().len(),
                a <= vn,
                forall|a1: int, a2: int|
                    0 <= a1 < a2 < vn && a1 < a ==> #[trigger] self.visible()[a1]
                        != #[trigger] self.visible()[a2],
                forall|a1: int| 0 <= a1 < a ==> self.in_rows(#[trigger] self.visible()[a1]),
            decreases vn - a,
        {
            let mut b: usize = a + 1;
            while b < vn
                invariant
                    vn == self.visible().len(),
                    a < vn,
                    a < b <= vn,
                    forall|a2: int|
                        a < a2 < b ==> self.visible()[a as int] != #[trigger] self.visible()[a2],
                decreases vn - b,
            {
                if str_eq(self.visible_panels[a].as_str(), self.visible_panels[b].as_str()) {
                    proof {
                        assert(self.visible()[a as int] == self.visible()[b as int]);
                        assert(!self.visible().no_duplicates());
                    }
                    return false;
                }
                b = b + 1;
            }
            match self.find_panel_row(self.visible_panels[a].as_str()) {
                Some((row, _col)) => {
                    proof {
                        self.rows()[row as int].index_of_first_ensures(self.visible()[a as int]);
                        assert(self.rows()[row as int].contains(self.visible()[a as int]));
                    }
                },
                None => {
                    proof {
                        assert(self.visible().contains(self.visible()[a as int]));
                    }
                    return false;
                },
            }
            a = a + 1;
        }
        // any maximized panel must be alive
        let max_ok: bool = match &self.maximized_panel {
            Some(m) => match self.find_panel_row(m.as_str()) {
                Some((row, _col)) => {
                    proof {
                        self.rows()[row as int].index_of_first_ensures(m@);
                        assert(self.rows()[row as int].contains(m@));
                    }
                    true
                },
                None => false,
            },
            None => true,
        };
        if !max_ok {
            return false;
        }
        proof {
            assert forall|id: Seq<char>| #[trigger] self.visible().contains(
                id,
            ) implies self.in_rows(id) by {
                let a1 = choose|a1: int| 0 <= a1 < self.visible().len() && self.visible()[a1] == id;
            }
            assert forall|id: Seq<char>| #[trigger] self.in_rows(id) implies self.visible().contains(
                id,
            ) by {
                let k = choose|k: int|
                    0 <= k < self.rows().len() && #[trigger] self.rows()[k].contains(id);
                let c = choose|c: int| 0 <= c < self.rows()[k].len() && self.rows()[k][c] == id;
                assert(self.visible().contains(self.rows()[k][c]));
            }
        }
        true
    }

    /// Moves a panel to a target row and column.
    ///
    /// The panel leaves its source position first; the requested column is
    /// then clamped to the shortened target row, and a move rightwards
    /// within one row steps one slot back to compensate for the removal.
    /// A target column at or past the row's end appends. Moves of unknown
    /// panels, to rows outside the grid, or onto the panel's own position
    /// change nothing.
    #[verifier::rlimit(100)]
    pub fn move_panel(&mut self, panel_id: &str, target_row: usize, target_col: usize)
        requires
            old(self).wf(),
        ensures
            final(self).wf(),
            spec_after_move(
                *old(self),
                *final(self),
                panel_id@,
                target_row as int,
                target_col as int,
            ),
    {
        let found = self.find_panel_row(panel_id);
        let ghost rows0 = self.rows();
        proof {
            lemma_unique_position(*self, panel_id@);
        }
        match found {
            None => {
                proof {
                    assert forall|sr: int, sc: int|
                        0 <= sr < 3 && 0 <= sc < rows0[sr].len() implies #[trigger] rows0[sr][sc]
                        != panel_id@ by {
                        assert(rows0[sr].contains(rows0[sr][sc]));
                    }
                }
            },
            Some((sr, sc)) => {
                proof {
                    rows0[sr as int].index_of_first_ensures(panel_id@);
                }
                if target_row >= self.row_assignments.len() {
                    return;
                }
                if sr == target_row && sc == target_col {
                    return;
                }
                let ghost pre = self.row_assignments@;
                let mut src_row = self.row_assignments.remove(sr);
                let moved: String = src_row.remove(sc);
                self.row_assignments.insert(sr, src_row);
                proof {
                    pre.remove_ensures(sr as int);
                    pre.remove(sr as int).insert_ensures(sr as int, src_row);
                    assert forall|k: int| 0 <= k < 3 implies self.row_assignments@[k] == (if k
                        == sr as int {
                        src_row
                    } else {
                        pre[k]
                    }) by {
                        if k > sr as int {
                            assert(pre.remove(sr as int)[k - 1] == pre[k]);
                        }
                    }
                    assert forall|k: int| 0 <= k < 3 implies #[trigger] self.rows()[k] == (if k
                        == sr as int {
                        rows0[sr as int].remove(sc as int)
                    } else {
                        rows0[k]
                    }) by {
                        assert(self.rows()[k] == self.row_assignments@[k].deep_view());
                        assert(pre[k].deep_view() == rows0[k]);
                        if k == sr as int {
                            assert(src_row.deep_view() =~= rows0[sr as int].remove(sc as int));
                        }
                    }
                }
                let ghost mid = self.rows();
                let tlen = self.row_assignments[target_row].len();
                let mut icol: usize = if target_col < tlen {
                    target_col
                } else {
                    tlen
                };
                if sr == target_row && target_col > sc {
                    if icol > 0 {
                        icol = icol - 1;
                    }
                }
                let ghost pre2 = self.row_assignments@;
                let mut tgt_row = self.row_assignments.remove(target_row);
                tgt_row.insert(icol, moved);
                self.row_assignments.insert(target_row, tgt_row);
                proof {
                    pre2.remove_ensures(target_row as int);
                    pre2.remove(target_row as int).insert_ensures(target_row as int, tgt_row);
                    assert forall|k: int| 0 <= k < 3 implies self.row_assignments@[k] == (if k
                        == target_row as int {
                        tgt_row
                    } else {
                        pre2[k]
                    }) by {
                        if k > target_row as int {
                            assert(pre2.remove(target_row as int)[k - 1] == pre2[k]);
                        }
                    }
                    assert forall|k: int| 0 <= k < 3 implies #[trigger] self.rows()[k] == (if k
                        == target_row as int {
                        mid[target_row as int].insert(icol as int, panel_id@)
                    } else {
                        mid[k]
                    }) by {
                        assert(self.rows()[k] == self.row_assignments@[k].deep_view());
                        assert(pre2[k].deep_view() == mid[k]);
                        if k == target_row as int {
                            mid[target_row as int].insert_ensures(icol as int, panel_id@);
                            assert(tgt_row.deep_view() =~= mid[target_row as int].insert(
                                icol as int,
                                panel_id@,
                            ));
                        }
                    }
                    assert(self.rows() =~= spec_moved_rows(
                        rows0,
                        sr as int,
                        sc as int,
                        target_row as int,
                        target_col as int,
                        panel_id@,
                    )) by {
                        let expect = spec_moved_rows(
                            rows0,
                            sr as int,
                            sc as int,
                            target_row as int,
                            target_col as int,
                            panel_id@,
                        );
                        let removed = rows0.update(sr as int, rows0[sr as int].remove(sc as int));
                        assert forall|k: int| 0 <= k < 3 implies mid[k] == removed[k] by {}
                        assert(mid =~= removed);
                        assert(tlen == removed[target_row as int].len());
                        assert forall|k: int| 0 <= k < 3 implies self.rows()[k] == expect[k] by {}
                    }
                    lemma_move_preserves_wf(
                        *old(self),
                        *self,
                        panel_id@,
                        sr as int,
                        sc as int,
                        target_row as int,
                        icol as int,
                    );
                }
            },
        }
    }
    /// A grid freshly numbered with `count` panels: `panel_0` up to
    /// `panel_{count-1}`, all alive, spread over the three rows by ceiling
    /// division, nothing maximized.
    pub fn with_panel_count(count: usize) -> (r: Self)
        requires
            count <= usize::MAX - 2,
        ensures
            r.wf(),
            r.rows().len() == 3,
            forall|k: int| 0 <= k < 3 ==> r.rows()[k] == spec_default_row(count as int, k),
            r.visible() == Seq::new(count as nat, |i: int| panel_id_seq(i as nat)),
            r.maximized() == None::<Seq<char>>,
            r.layout_mode == LayoutMode::AutoGrid,
            r.selected_tab == 0,
    {
        let panels_per_row = (count + 2) / 3;
        let ghost ppr = panels_per_row as int;
        let mut rows: Vec<Vec<String>> = Vec::new();
        rows.push(Vec::new());
        rows.push(Vec::new());
        rows.push(Vec::new());
        let mut visible: Vec<String> = Vec::new();
        proof {
            assert forall|k: int| 0 <= k < 3 implies rows@[k].deep_view() == spec_default_row_upto(
                count as int,
                0,
                k,
            ) by {
                assert(rows@[k].deep_view() =~= spec_default_row_upto(count as int, 0, k));
            }
            assert(visible.deep_view() =~= Seq::new(0nat, |i: int| panel_id_seq(i as nat)));
        }
        let mut i: usize = 0;
        while i < count
            invariant
                panels_per_row == (count + 2) / 3,
                i <= count,
                rows@.len() == 3,
                forall|k: int|
                    0 <= k < 3 ==> rows@[k].deep_view() == spec_default_row_upto(
                        count as int,
                        i as int,
                        k,
                    ),
                visible.deep_view() == Seq::new(i as nat, |j: int| panel_id_seq(j as nat)),
            decreases count - i,
        {
            let id = panel_id_string(i);
            let row = i / panels_per_row;
            let ghost q = row as int;
            proof {
                assert(3 * ppr >= count) by (nonlinear_arith)
                    requires
                        ppr == (count + 2) / 3,
                ;
                assert(q * ppr <= i < (q + 1) * ppr) by (nonlinear_arith)
                    requires
                        q == i as int / ppr,
                        ppr > 0,
                        i >= 0,
                ;
                assert(q < 3) by (nonlinear_arith)
                    requires
                        q * ppr <= i,
                        i < count <= 3 * ppr,
                        ppr > 0,
                        q >= 0,
                ;
            }
            if row < 3 {
                let ghost pre = rows@;
                let mut target = rows.remove(row);
                target.push(id.clone());
                rows.insert(row, target);
                proof {
                    pre.remove_ensures(q);
                    pre.remove(q).insert_ensures(q, target);
                    assert forall|k: int| 0 <= k < 3 implies rows@[k] == (if k == q {
                        target
                    } else {
                        pre[k]
                    }) by {
                        if k > q {
                            assert(pre.remove(q)[k - 1] == pre[k]);
                        }
                    }
                    assert forall|k: int| 0 <= k < 3 implies rows@[k].deep_view()
                        == spec_default_row_upto(count as int, i + 1, k) by {
                        let upto_old = spec_default_row_upto(count as int, i as int, k);
                        let upto_new = spec_default_row_upto(count as int, i + 1, k);
                        let start = k * ppr;
                        if k == q {
                            assert((q + 1) * ppr == q * ppr + ppr) by (nonlinear_arith);
                            assert(upto_new =~= upto_old.push(panel_id_seq(i as nat)));
                            assert(rows@[k].deep_view() =~= pre[k].deep_view().push(id@));
                        } else if k < q {
                            assert((k + 1) * ppr <= q * ppr) by (nonlinear_arith)
                                requires
                                    k + 1 <= q,
                                    ppr > 0,
                            ;
                            assert((k + 1) * ppr == k * ppr + ppr) by (nonlinear_arith);
                            assert(upto_new =~= upto_old);
                        } else {
                            assert(k * ppr >= (q + 1) * ppr) by (nonlinear_arith)
                                requires
                                    k >= q + 1,
                                    ppr > 0,
                            ;
                            assert((q + 1) * ppr == q * ppr + ppr) by (nonlinear_arith);
                            assert((k + 1) * ppr == k * ppr + ppr) by (nonlinear_arith);
                            assert(upto_new =~= upto_old);
                        }
                    }
                }
            }
            let ghost vis_pre = visible.deep_view();
            visible.push(id);
            proof {
                assert(visible.deep_view() =~= vis_pre.push(panel_id_seq(i as nat)));
                assert(visible.deep_view() =~= Seq::new((i + 1) as nat, |j: int| panel_id_seq(j as nat)));
            }
            i = i + 1;
        }
        let state = LayoutState {
            row_assignments: rows,
            visible_panels: visible,
            maximized_panel: None,
            layout_mode: LayoutMode::AutoGrid,
            selected_tab: 0,
        };
        proof {
            lemma_default_state_wf(state, count as int);
        }
        state
    }

    /// Toggles maximize: a second toggle on the maximized panel restores
    /// the grid, toggling any other visible panel replaces the maximized
    /// one, and a panel the grid does not hold is ignored.
    pub fn toggle_maximize(&mut self, panel_id: &str)
        requires
            old(self).wf(),
        ensures
            final(self).wf(),
            final(self).rows() == old(self).rows(),
            final(self).visible() == old(self).visible(),
            final(self).layout_mode == old(self).layout_mode,
            final(self).selected_tab == old(self).selected_tab,
            final(self).maximized() == (if old(self).maximized() == Some(panel_id@) {
                None::<Seq<char>>
            } else if old(self).visible().contains(panel_id@) {
                Some(panel_id@)
            } else {
                old(self).maximized()
            }),
    {
        let clear: bool = match &self.maximized_panel {
            Some(m) => str_eq(m.as_str(), panel_id),
            None => false,
        };
        if clear {
            self.maximized_panel = None;
        } else if self.is_visible(panel_id) {
            self.maximized_panel = Some(String::from_str(panel_id));
        }
        proof {
            lemma_same_rows_wf(*old(self), *self);
        }
    }
}

/// The freshly numbered nine-panel grid: three rows of three, all alive,
/// nothing maximized.
pub open spec fn spec_is_default_grid(s: LayoutState) -> bool {
    &&& s.rows().len() == 3
    &&& forall|k: int| 0 <= k < 3 ==> s.rows()[k] == spec_default_row(9, k)
    &&& s.visible() == Seq::new(9, |i: int| panel_id_seq(i as nat))
    &&& s.maximized() == None::<Seq<char>>
    &&& s.layout_mode == LayoutMode::AutoGrid
    &&& s.selected_tab == 0
}

impl Default for LayoutState {
    /// Nine panels in three rows of three, all alive, nothing maximized.
    fn default() -> (r: Self)
        ensures
            r.wf(),
            spec_is_default_grid(r),
    {
        LayoutState::with_panel_count(9)
    }
}

/// What moving a panel leaves behind: an unknown panel, a target row
/// outside the grid, or the panel's own position change nothing; any
/// other target yields the rows of `spec_moved_rows`, with everything
/// else untouched.
pub open spec fn spec_after_move(o: LayoutState, n: LayoutState, id: Seq<char>, tr: int, tc: int) -> bool {
    &&& n.rows().len() == 3
    &&& n.visible() == o.visible()
    &&& n.maximized() == o.maximized()
    &&& n.layout_mode == o.layout_mode
    &&& n.selected_tab == o.selected_tab
    &&& (!o.in_rows(id) ==> n == o)
    &&& (tr >= 3 ==> n == o)
    &&& forall|sr: int, sc: int|
        #![trigger o.rows()[sr][sc]]
        0 <= sr < 3 && 0 <= sc < o.rows()[sr].len() && o.rows()[sr][sc] == id && tr < 3 ==> if sr
            == tr && sc == tc {
            n == o
        } else {
            n.rows() == spec_moved_rows(o.rows(), sr, sc, tr, tc, id)
        }
}

/// Where a dragged panel lands: it leaves its source position, the
/// requested column is clamped to the shortened target row, and a move
/// rightwards within one row steps one slot back.
pub open spec fn spec_moved_rows(
    rows: Seq<Seq<Seq<char>>>,
    sr: int,
    sc: int,
    tr: int,
    tc: int,
    id: Seq<char>,
) -> Seq<Seq<Seq<char>>> {
    let removed = rows.update(sr, rows[sr].remove(sc));
    let tlen = removed[tr].len() as int;
    let clamped = if tc <= tlen {
        tc
    } else {
        tlen
    };
    let icol = if sr == tr && tc > sc && clamped > 0 {
        clamped - 1
    } else {
        clamped
    };
    removed.update(tr, removed[tr].insert(icol, id))
}

/// Row `k` of a freshly numbered grid of `count` panels after the first
/// `done` panels have been placed: the panel numbers from `k * ppr` up to
/// the lesser of `done` and the row's capacity, where `ppr` is the ceiling
/// third of `count`.
pub open spec fn spec_default_row_upto(count: int, done: int, k: int) -> Seq<Seq<char>> {
    let ppr = (count + 2) / 3;
    let start = k * ppr;
    let end = if done < start + ppr {
        done
    } else {
        start + ppr
    };
    let len = if end <= start {
        0
    } else {
        end - start
    };
    Seq::new(len as nat, |j: int| panel_id_seq((start + j) as nat))
}

/// Row `k` of the freshly numbered grid of `count` panels.
pub open spec fn spec_default_row(count: int, k: int) -> Seq<Seq<char>> {
    spec_default_row_upto(count, count, k)
}

/// A freshly numbered grid is well formed.
proof fn lemma_default_state_wf(state: LayoutState, count: int)
    requires
        count >= 0,
        state.rows().len() == 3,
        forall|k: int| 0 <= k < 3 ==> state.rows()[k] == spec_default_row(count, k),
        state.visible() == Seq::new(count as nat, |i: int| panel_id_seq(i as nat)),
        state.maximized() == None::<Seq<char>>,
    ensures
        state.wf(),
{
    let ppr = (count + 2) / 3;
    assert(3 * ppr >= count && ppr >= 0) by (nonlinear_arith)
        requires
            ppr == (count + 2) / 3,
            count >= 0,
    ;
    assert forall|k: int| 0 <= k < 3 implies (#[trigger] state.rows()[k]).no_duplicates() by {
        let row = spec_default_row(count, k);
        assert forall|a: int, b: int| 0 <= a < b < row.len() implies row[a] != row[b] by {
            crate::ids::lemma_numbered_id_injective(
                "panel_"@,
                (k * ppr + a) as nat,
                (k * ppr + b) as nat,
            );
        }
    }
    assert forall|r1: int, r2: int, x: Seq<char>| 0 <= r1 < r2 < 3 implies !(#[trigger]
    state.rows()[r1].contains(x) && #[trigger] state.rows()[r2].contains(x)) by {
        if state.rows()[r1].contains(x) && state.rows()[r2].contains(x) {
            let row1 = spec_default_row(count, r1);
            let row2 = spec_default_row(count, r2);
            let j1 = choose|j: int| 0 <= j < row1.len() && row1[j] == x;
            let j2 = choose|j: int| 0 <= j < row2.len() && row2[j] == x;
            assert((r1 + 1) * ppr <= r2 * ppr) by (nonlinear_arith)
                requires
                    r1 + 1 <= r2,
                    ppr >= 0,
            ;
            assert((r1 + 1) * ppr == r1 * ppr + ppr) by (nonlinear_arith);
            crate::ids::lemma_numbered_id_injective(
                "panel_"@,
                (r1 * ppr + j1) as nat,
                (r2 * ppr + j2) as nat,
            );
        }
    }
    assert(state.visible().no_duplicates()) by {
        assert forall|a: int, b: int|
            0 <= a < b < state.visible().len() implies state.visible()[a] != state.visible()[b] by {
            crate::ids::lemma_numbered_id_injective("panel_"@, a as nat, b as nat);
        }
    }
    assert forall|x: Seq<char>| #[trigger] state.visible().contains(x) implies state.in_rows(x) by {
        let i = choose|i: int| 0 <= i < count && state.visible()[i] == x;
        assert(count > 0);
        assert(ppr > 0) by (nonlinear_arith)
            requires
                ppr == (count + 2) / 3,
                count > 0,
        ;
        let k = i / ppr;
        assert(k * ppr <= i < (k + 1) * ppr) by (nonlinear_arith)
            requires
                k == i / ppr,
                ppr > 0,
                i >= 0,
        ;
        assert(k < 3) by (nonlinear_arith)
            requires
                k * ppr <= i,
                i < count <= 3 * ppr,
                ppr > 0,
                k >= 0,
        ;
        assert((k + 1) * ppr == k * ppr + ppr) by (nonlinear_arith);
        let row = spec_default_row(count, k);
        let j = i - k * ppr;
        assert(row[j] == panel_id_seq(i as nat));
        assert(state.rows()[k].contains(x));
    }
    assert forall|x: Seq<char>| #[trigger] state.in_rows(x) implies state.visible().contains(
        x,
    ) by {
        let k = choose|r: int|
            0 <= r < state.rows().len() && #[trigger] state.rows()[r].contains(x);
        let row = spec_default_row(count, k);
        let j = choose|j: int| 0 <= j < row.len() && row[j] == x;
        assert(state.visible()[k * ppr + j] == x);
    }
}

/// A state with the same rows and visible set as a well-formed one, and a
/// maximized panel that is alive, is well formed.
proof fn lemma_same_rows_wf(o: LayoutState, n: LayoutState)
    requires
        o.wf(),
        n.rows() == o.rows(),
        n.visible() == o.visible(),
        match n.maximized() {
            Some(p) => n.visible().contains(p),
            None => true,
        },
    ensures
        n.wf(),
{
    assert forall|x: Seq<char>| #[trigger] n.visible().contains(x) implies n.in_rows(x) by {
        assert(o.visible().contains(x));
        let r = choose|r: int| 0 <= r < o.rows().len() && #[trigger] o.rows()[r].contains(x);
        assert(n.rows()[r].contains(x));
    }
    assert forall|x: Seq<char>| #[trigger] n.in_rows(x) implies n.visible().contains(x) by {
        let r = choose|r: int| 0 <= r < n.rows().len() && #[trigger] n.rows()[r].contains(x);
        assert(o.rows()[r].contains(x));
        assert(o.in_rows(x));
    }
    match n.maximized() {
        Some(p) => {
            assert(n.in_rows(p));
        },
        None => {
        },
    }
}

/// The visible set matches row membership quantitatively as well: in a
/// well-formed grid the number of panels alive equals the number of
/// panels sitting in the three rows.
pub proof fn lemma_visible_count_matches_rows(s: LayoutState)
    requires
        s.wf(),
    ensures
        s.visible().len() == s.rows()[0].len() + s.rows()[1].len() + s.rows()[2].len(),
{
    let r0 = s.rows()[0];
    let r1 = s.rows()[1];
    let r2 = s.rows()[2];
    let f = r0 + r1 + r2;
    assert forall|i: int, j: int| 0 <= i < r0.len() && 0 <= j < r1.len() implies r0[i] != r1[j] by {
        if r0[i] == r1[j] {
            assert(r0.contains(r0[i]) && r1.contains(r0[i]));
        }
    }
    vstd::seq_lib::lemma_no_dup_in_concat(r0, r1);
    assert forall|i: int, j: int|
        0 <= i < (r0 + r1).len() && 0 <= j < r2.len() implies (r0 + r1)[i] != r2[j] by {
        if (r0 + r1)[i] == r2[j] {
            assert(r2.contains(r2[j]));
            if i < r0.len() {
                assert(r0.contains(r2[j]));
            } else {
                assert(r1.contains(r2[j]));
            }
        }
    }
    vstd::seq_lib::lemma_no_dup_in_concat(r0 + r1, r2);
    assert forall|x: Seq<char>| #[trigger] f.contains(x) implies s.visible().contains(x) by {
        let i = choose|i: int| 0 <= i < f.len() && f[i] == x;
        if i < r0.len() {
            assert(r0.contains(x));
        } else if i < r0.len() + r1.len() {
            assert(r1.contains(x));
        } else {
            assert(r2.contains(x));
        }
        assert(s.in_rows(x));
    }
    assert forall|x: Seq<char>| #[trigger] s.visible().contains(x) implies f.contains(x) by {
        assert(s.in_rows(x));
        let r = choose|r: int| 0 <= r < s.rows().len() && #[trigger] s.rows()[r].contains(x);
        let c = choose|c: int| 0 <= c < s.rows()[r].len() && s.rows()[r][c] == x;
        if r == 0 {
            assert(f[c] == x);
        } else if r == 1 {
            assert(f[r0.len() + c] == x);
        } else {
            assert(f[r0.len() + r1.len() + c] == x);
        }
    }
    assert(f.to_set() =~= s.visible().to_set());
    f.unique_seq_to_set();
    s.visible().unique_seq_to_set();
}

/// Same-row shift correctness: dragging the first panel of a three-panel
/// row to column two lands it between the other two, so the row
/// `[a, b, c]` becomes `[b, a, c]` — the removal-compensation step keeps
/// the drop from overshooting to `[b, c, a]`.
pub proof fn lemma_same_row_shift(
    o: LayoutState,
    n: LayoutState,
    r: int,
    a: Seq<char>,
    b: Seq<char>,
    c: Seq<char>,
)
    requires
        o.wf(),
        0 <= r < 3,
        o.rows()[r] == seq![a, b, c],
        spec_after_move(o, n, a, r, 2),
    ensures
        n.rows()[r] == seq![b, a, c],
{
    assert(o.rows()[r][0] == a);
    assert(n.rows() == spec_moved_rows(o.rows(), r, 0, r, 2, a));
    let removed = o.rows().update(r, o.rows()[r].remove(0));
    assert(o.rows()[r].remove(0) =~= seq![b, c]);
    let inserted = seq![b, c].insert(1, a);
    assert(inserted =~= seq![b, a, c]);
    assert(n.rows()[r] == removed.update(r, inserted)[r]);
}

/// In a well-formed grid every panel of a row is alive, so filtering a
/// row by visibility gives the row back.
pub proof fn lemma_visible_in_row_full(s: LayoutState)
    requires
        s.wf(),
    ensures
        forall|r: int|
            0 <= r < 3 ==> (#[trigger] s.rows()[r]).filter(
                |id: Seq<char>| s.visible().contains(id),
            ) == s.rows()[r],
{
    assert forall|r: int| 0 <= r < 3 implies (#[trigger] s.rows()[r]).filter(
        |id: Seq<char>| s.visible().contains(id),
    ) == s.rows()[r] by {
        let row = s.rows()[r];
        let pred = |id: Seq<char>| s.visible().contains(id);
        assert forall|c: int| 0 <= c < row.len() implies pred(#[trigger] row[c]) by {
            assert(row.contains(row[c]));
            assert(s.in_rows(row[c]));
        }
        crate::seq_facts::lemma_filter_all(row, pred);
    }
}

/// In a well-formed state a token determines its position: a panel is a
/// member of at most one row, at one column.
pub proof fn lemma_unique_position(o: LayoutState, id: Seq<char>)
    requires
        o.wf(),
    ensures
        forall|r1: int, c1: int, r2: int, c2: int|
            0 <= r1 < 3 && 0 <= c1 < o.rows()[r1].len() && 0 <= r2 < 3 && 0 <= c2
                < o.rows()[r2].len() && #[trigger] o.rows()[r1][c1] == id && #[trigger]
            o.rows()[r2][c2] == id ==> r1 == r2 && c1 == c2,
{
    assert forall|r1: int, c1: int, r2: int, c2: int|
        0 <= r1 < 3 && 0 <= c1 < o.rows()[r1].len() && 0 <= r2 < 3 && 0 <= c2
            < o.rows()[r2].len() && #[trigger] o.rows()[r1][c1] == id && #[trigger]
        o.rows()[r2][c2] == id implies r1 == r2 && c1 == c2 by {
        assert(o.rows()[r1].contains(id));
        assert(o.rows()[r2].contains(id));
        if r1 != r2 {
            if r1 < r2 {
                assert(!(o.rows()[r1].contains(id) && o.rows()[r2].contains(id)));
            } else {
                assert(!(o.rows()[r2].contains(id) && o.rows()[r1].contains(id)));
            }
        }
    }
}

/// Moving preserves well-formedness.
proof fn lemma_move_preserves_wf(
    o: LayoutState,
    n: LayoutState,
    id: Seq<char>,
    sr: int,
    sc: int,
    tr: int,
    icol: int,
)
    requires
        o.wf(),
        0 <= sr < 3,
        0 <= tr < 3,
        0 <= sc < o.rows()[sr].len(),
        o.rows()[sr].index_of_first(id) == Some(sc),
        n.rows().len() == 3,
        sr != tr ==> 0 <= icol <= o.rows()[tr].len() && n.rows()[sr] == o.rows()[sr].remove(sc)
            && n.rows()[tr] == o.rows()[tr].insert(icol, id),
        sr == tr ==> 0 <= icol <= o.rows()[sr].len() - 1 && n.rows()[sr] == o.rows()[sr].remove(
            sc,
        ).insert(icol, id),
        forall|k: int| 0 <= k < 3 && k != sr && k != tr ==> n.rows()[k] == o.rows()[k],
        n.visible() == o.visible(),
        n.maximized() == o.maximized(),
    ensures
        n.wf(),
{
    o.rows()[sr].index_of_first_ensures(id);
    // membership of every row after the move
    assert forall|k: int, x: Seq<char>| 0 <= k < 3 implies (#[trigger] n.rows()[k].contains(x)
        <==> (if k == tr {
        o.rows()[k].contains(x) || x == id
    } else {
        o.rows()[k].contains(x) && !(k == sr && x == id)
    })) by {
        let src = o.rows()[sr];
        if k == sr && k == tr {
            crate::seq_facts::lemma_remove_value_contains(src, id, x);
            crate::seq_facts::lemma_insert_contains(src.remove(sc), icol, id, x);
            assert(src.remove_value(id) == src.remove(sc));
            assert(src.contains(id));
        } else if k == sr {
            crate::seq_facts::lemma_remove_value_contains(src, id, x);
            assert(src.remove_value(id) == src.remove(sc));
        } else if k == tr {
            crate::seq_facts::lemma_insert_contains(o.rows()[tr], icol, id, x);
        }
    }
    // each row stays duplicate-free
    assert forall|k: int| 0 <= k < 3 implies (#[trigger] n.rows()[k]).no_duplicates() by {
        let src = o.rows()[sr];
        assert(src.remove_value(id) == src.remove(sc));
        if k == sr && k == tr {
            crate::seq_facts::lemma_remove_value_no_dup(src, id);
            crate::seq_facts::lemma_remove_value_contains(src, id, id);
            crate::seq_facts::lemma_insert_no_dup(src.remove(sc), icol, id);
        } else if k == sr {
            crate::seq_facts::lemma_remove_value_no_dup(src, id);
        } else if k == tr {
            assert(src.contains(id));
            if sr < tr {
                assert(!(o.rows()[sr].contains(id) && o.rows()[tr].contains(id)));
            } else {
                assert(!(o.rows()[tr].contains(id) && o.rows()[sr].contains(id)));
            }
            crate::seq_facts::lemma_insert_no_dup(o.rows()[tr], icol, id);
        }
    }
    // rows stay pairwise disjoint
    assert forall|r1: int, r2: int, x: Seq<char>| 0 <= r1 < r2 < 3 implies !(#[trigger]
    n.rows()[r1].contains(x) && #[trigger] n.rows()[r2].contains(x)) by {
        if n.rows()[r1].contains(x) && n.rows()[r2].contains(x) {
            if x == id {
                assert(o.rows()[sr].contains(id));
                if r1 != tr {
                    assert(o.rows()[r1].contains(id));
                    if r1 < sr {
                        assert(!(o.rows()[r1].contains(id) && o.rows()[sr].contains(id)));
                    } else if r1 > sr {
                        assert(!(o.rows()[sr].contains(id) && o.rows()[r1].contains(id)));
                    }
                }
                if r2 != tr {
                    assert(o.rows()[r2].contains(id));
                    if r2 < sr {
                        assert(!(o.rows()[r2].contains(id) && o.rows()[sr].contains(id)));
                    } else if r2 > sr {
                        assert(!(o.rows()[sr].contains(id) && o.rows()[r2].contains(id)));
                    }
                }
            } else {
                assert(o.rows()[r1].contains(x) && o.rows()[r2].contains(x));
            }
        }
    }
    // the visible set still matches row membership
    assert forall|x: Seq<char>| #[trigger] n.visible().contains(x) implies n.in_rows(x) by {
        assert(o.visible().contains(x));
        assert(o.in_rows(x));
        if x == id {
            assert(n.rows()[tr].contains(x));
        } else {
            let r = choose|r: int| 0 <= r < o.rows().len() && #[trigger] o.rows()[r].contains(x);
            assert(n.rows()[r].contains(x));
        }
    }
    assert forall|x: Seq<char>| #[trigger] n.in_rows(x) implies n.visible().contains(x) by {
        let r = choose|r: int| 0 <= r < n.rows().len() && #[trigger] n.rows()[r].contains(x);
        if x == id {
            assert(o.rows()[sr].contains(x));
            assert(o.in_rows(x));
        } else {
            assert(o.rows()[r].contains(x));
            assert(o.in_rows(x));
        }
    }
    match n.maximized() {
        Some(p) => {
            assert(o.in_rows(p));
            assert(o.visible().contains(p));
            assert(n.visible().contains(p));
        },
        None => {
        },
    }
}

/// Closing preserves well-formedness.
proof fn lemma_close_preserves_wf(o: LayoutState, n: LayoutState, id: Seq<char>)
    requires
        o.wf(),
        n.rows().len() == 3,
        forall|k: int| 0 <= k < 3 ==> n.rows()[k] == o.rows()[k].remove_value(id),
        n.visible() == o.visible().remove_value(id),
        n.maximized() == (if o.maximized() == Some(id) {
            None::<Seq<char>>
        } else {
            o.maximized()
        }),
    ensures
        n.wf(),
{
    assert forall|k: int, x: Seq<char>| 0 <= k < 3 implies (#[trigger] n.rows()[k].contains(x)
        <==> (o.rows()[k].contains(x) && x != id)) by {
        crate::seq_facts::lemma_remove_value_contains(o.rows()[k], id, x);
    }
    assert forall|k: int| 0 <= k < 3 implies (#[trigger] n.rows()[k]).no_duplicates() by {
        crate::seq_facts::lemma_remove_value_no_dup(o.rows()[k], id);
    }
    assert forall|x: Seq<char>| #![trigger n.visible().contains(x)] (n.visible().contains(x) <==> (
    o.visible().contains(x) && x != id)) by {
        crate::seq_facts::lemma_remove_value_contains(o.visible(), id, x);
    }
    crate::seq_facts::lemma_remove_value_no_dup(o.visible(), id);
    assert forall|x: Seq<char>| #[trigger] n.visible().contains(x) implies n.in_rows(x) by {
        assert(o.visible().contains(x));
        assert(o.in_rows(x));
        let r = choose|r: int| 0 <= r < o.rows().len() && #[trigger] o.rows()[r].contains(x);
        assert(n.rows()[r].contains(x));
    }
    assert forall|x: Seq<char>| #[trigger] n.in_rows(x) implies n.visible().contains(x) by {
        let r = choose|r: int| 0 <= r < n.rows().len() && #[trigger] n.rows()[r].contains(x);
        assert(o.rows()[r].contains(x));
        assert(o.in_rows(x));
    }
    match n.maximized() {
        Some(p) => {
            assert(o.in_rows(p));
            let r = choose|r: int| 0 <= r < o.rows().len() && #[trigger] o.rows()[r].contains(p);
            assert(o.visible().contains(p));
            assert(n.rows()[r].contains(p));
        },
        None => {
        },
    }
}

} // verus!
