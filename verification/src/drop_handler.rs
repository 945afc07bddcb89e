//! Drop-position calculation for the main panel grid.
//!
//! A pure function from a cursor point, the container rectangle and the
//! per-row panel counts to a target row and column with a preview
//! rectangle. It mutates nothing, and its result is pinned exactly by its
//! contract, so repeated calls on the same inputs agree.

use vstd::prelude::*;
use crate::geometry::{Point, Rect};

verus! {

/// Coordinates and sizes the calculator accepts, a generous bound far
/// beyond any screen, which keeps every intermediate product within `i64`.
pub open spec fn spec_geometry_in_range(container: Rect, counts: Seq<usize>) -> bool {
    &&& 0 < container.width <= 0x4000_0000
    &&& 0 < container.height <= 0x4000_0000
    &&& -0x4000_0000 <= container.x <= 0x4000_0000
    &&& -0x4000_0000 <= container.y <= 0x4000_0000
    &&& counts.len() <= 0x1000_0000
    &&& forall|i: int| 0 <= i < counts.len() ==> #[trigger] counts[i] <= 0x1000_0000
}

/// The visible row under the cursor: the container's height is divided
/// evenly over `n` rows, and the result clamped to the last row.
pub open spec fn spec_visual_row(abs: Point, container: Rect, n: int) -> int {
    let raw = (abs.y - container.y) * n / (container.height as int);
    if raw < n - 1 {
        raw
    } else {
        n - 1
    }
}

/// Number of columns the row under the cursor is divided into: its panel
/// count, at least one.
pub open spec fn spec_cols_in(counts: Seq<usize>, vr: int) -> int {
    let c = if 0 <= vr < counts.len() {
        counts[vr] as int
    } else {
        1
    };
    if c < 1 {
        1
    } else {
        c
    }
}

/// The column under the cursor, clamped to `cols` but not to `cols - 1`:
/// a result equal to the panel count means "insert at the end".
pub open spec fn spec_col(abs: Point, container: Rect, cols: int) -> int {
    let raw = (abs.x - container.x) * cols / (container.width as int);
    if raw < cols {
        raw
    } else {
        cols
    }
}

/// The actual row index a visible row maps back to: hidden rows are
/// skipped visually but keep their index in the three-row model.
pub open spec fn spec_actual_row(map: Seq<usize>, vr: int) -> int {
    if vr < map.len() {
        map[vr] as int
    } else {
        vr
    }
}

/// Drop position calculated during drag operations: the target row and
/// column, and a rectangle for the visual drop preview.
#[derive(Clone, Copy, Debug, PartialEq, Eq, Structural)]
pub struct DropPosition {
    /// Target row index in the three-row model.
    pub row: usize,
    /// Target column within the row; equal to the panel count when the
    /// drop lands past the last panel.
    pub col: usize,
    /// Rectangle for drawing the drop preview overlay.
    pub rect: Rect,
}

impl DropPosition {
    /// Create a new drop position.
    pub fn new(row: usize, col: usize, rect: Rect) -> (r: Self)
        ensures
            r == (DropPosition { row, col, rect }),
    {
        Self { row, col, rect }
    }
}

/// Calculate the drop position for a cursor location.
///
/// `None` when the cursor lies outside the container or no row is
/// visible; otherwise the visible row under the cursor, mapped back to
/// its actual index through `row_to_actual`, the column under the cursor,
/// and the cell rectangle for preview drawing.
pub fn calculate_drop_position(
    abs: Point,
    container: Rect,
    row_panel_counts: &Vec<usize>,
    row_to_actual: &Vec<usize>,
) -> (r: Option<DropPosition>)
    requires
        spec_geometry_in_range(container, row_panel_counts@),
    ensures
        r is Some <==> (row_panel_counts@.len() > 0 && container.spec_contains(abs)),
        match r {
            Some(dp) => {
                let n = row_panel_counts@.len() as int;
                let vr = spec_visual_row(abs, container, n);
                let cols = spec_cols_in(row_panel_counts@, vr);
                let col = spec_col(abs, container, cols);
                let rh = container.height as int / n;
                let cw = container.width as int / cols;
                let pc = if col < cols - 1 {
                    col
                } else {
                    cols - 1
                };
                &&& dp.row == spec_actual_row(row_to_actual@, vr)
                &&& dp.col == col
                &&& dp.rect.x == container.x + pc * cw
                &&& dp.rect.y == container.y + vr * rh
                &&& dp.rect.width == cw
                &&& dp.rect.height == rh
            },
            None => true,
        },
{
    let num_rows = row_panel_counts.len();
    if num_rows == 0 {
        return None;
    }
    if !container.contains(abs) {
        return None;
    }
    let n: i64 = num_rows as i64;
    let ghost nn = num_rows as int;

    let rel_y = abs.y - container.y;
    let row_height = container.height / n;
    proof {
        assert(0 <= rel_y * nn <= 0x4000_0000 * 0x1000_0000) by (nonlinear_arith)
            requires
                0 <= rel_y <= 0x4000_0000,
                0 < nn <= 0x1000_0000,
        ;
    }
    let raw_row = (rel_y * n) / container.height;
    let visual_row: i64 = if raw_row < n - 1 {
        raw_row
    } else {
        n - 1
    };
    proof {
        assert(rel_y * nn / container.height as int >= 0);
        assert(visual_row == spec_visual_row(abs, container, nn));
        assert(0 <= visual_row < nn);
    }
    let visual_row_us: usize = visual_row as usize;

    let actual_row: usize = if visual_row_us < row_to_actual.len() {
        row_to_actual[visual_row_us]
    } else {
        visual_row_us
    };

    let count = row_panel_counts[visual_row_us];
    let cols: usize = if count < 1 {
        1
    } else {
        count
    };
    let cols_i: i64 = cols as i64;
    let ghost cc = cols as int;
    proof {
        assert(cc == spec_cols_in(row_panel_counts@, visual_row as int));
    }

    let rel_x = abs.x - container.x;
    let col_width = container.width / cols_i;
    proof {
        assert(0 <= rel_x * cc <= 0x4000_0000 * 0x1000_0000) by (nonlinear_arith)
            requires
                0 <= rel_x <= 0x4000_0000,
                0 < cc <= 0x1000_0000,
        ;
    }
    let raw_col = (rel_x * cols_i) / container.width;
    let col: i64 = if raw_col < cols_i {
        raw_col
    } else {
        cols_i
    };
    proof {
        assert(rel_x * cc / container.width as int >= 0);
        assert(col == spec_col(abs, container, cc));
        assert(0 <= col <= cc);
    }

    let preview_col: i64 = if col < cols_i - 1 {
        col
    } else {
        cols_i - 1
    };
    proof {
        assert(0 <= preview_col * col_width <= container.width) by (nonlinear_arith)
            requires
                0 <= preview_col < cc,
                col_width == container.width as int / cc,
                0 < cc,
                0 < container.width,
        ;
        assert(0 <= visual_row * row_height <= container.height) by (nonlinear_arith)
            requires
                0 <= visual_row < nn,
                row_height == container.height as int / nn,
                0 < nn,
                0 < container.height,
        ;
    }
    let rect = Rect {
        x: container.x + preview_col * col_width,
        y: container.y + visual_row * row_height,
        width: col_width,
        height: row_height,
    };
    Some(DropPosition::new(actual_row, col as usize, rect))
}

} // verus!
