//! The mathematical model of the transform.
//!
//! Grids are modelled row-major as sequences of length `rows * cols`;
//! the cell `(r, c)` sits at index `r * cols + c`. Squared distances
//! are modelled as `Option<nat>`, where `None` stands for positive
//! infinity ("no target known yet").

use vstd::prelude::*;
use crate::grid::Cell;

verus! {

/// Ghost model of an input grid: dimensions and the row-major cell classes.
pub ghost struct GridModel {
    pub rows: nat,
    pub cols: nat,
    pub cells: Seq<Cell>,
}

impl GridModel {
    /// The model holds one cell class per grid cell.
    pub open spec fn wf(self) -> bool {
        self.cells.len() == self.rows * self.cols
    }

    /// Bounded read: coordinates outside the grid read as missing data,
    /// so a neighbour probe past the border means "no target this way".
    pub open spec fn cell_at(self, r: int, c: int) -> Cell {
        if 0 <= r < self.rows && 0 <= c < self.cols {
            self.cells[r * self.cols + c]
        } else {
            Cell::Missing
        }
    }
}

/// The two scan directions. The backward scan is the forward scan with
/// the traversal reversed and every neighbour offset negated.
#[derive(Clone, Copy, PartialEq, Eq, Structural, Debug)]
pub enum ScanDir {
    /// Top-left to bottom-right; neighbours west, northwest, north,
    /// northeast, in that evaluation order.
    Forward,
    /// Bottom-right to top-left; neighbours east, southeast, south,
    /// southwest, in that evaluation order.
    Backward,
}

/// Ghost model of the three working grids of one transform invocation.
pub ghost struct ScanState {
    pub rows: nat,
    pub cols: nat,
    /// Best known squared distance per cell; `None` is positive infinity.
    pub sq: Seq<Option<nat>>,
    /// Accumulated horizontal step count toward the nearest known target.
    pub rx: Seq<nat>,
    /// Accumulated vertical step count toward the nearest known target.
    pub ry: Seq<nat>,
}

impl ScanState {
    /// All three working grids hold one value per cell.
    pub open spec fn wf(self) -> bool {
        &&& self.sq.len() == self.rows * self.cols
        &&& self.rx.len() == self.rows * self.cols
        &&& self.ry.len() == self.rows * self.cols
    }

    pub open spec fn len(self) -> nat {
        self.rows * self.cols
    }

    pub open spec fn in_bounds(self, r: int, c: int) -> bool {
        0 <= r < self.rows && 0 <= c < self.cols
    }

    pub open spec fn idx(self, r: int, c: int) -> int {
        r * self.cols + c
    }
}

/// `a < b` on squared distances where `None` is positive infinity.
pub open spec fn sq_lt(a: Option<nat>, b: Option<nat>) -> bool {
    match (a, b) {
        (Some(x), Some(y)) => x < y,
        (Some(_), None) => true,
        (None, _) => false,
    }
}

/// `a <= b` on squared distances where `None` is positive infinity.
pub open spec fn sq_le(a: Option<nat>, b: Option<nat>) -> bool {
    match (a, b) {
        (Some(x), Some(y)) => x <= y,
        (_, None) => true,
        (None, Some(_)) => false,
    }
}

/// Row offset of neighbour slot `i` in the forward scan.
pub open spec fn slot_dr(i: int) -> int {
    if i == 0 {
        0  // west
    } else {
        -1  // northwest, north, northeast
    }
}

/// Column offset of neighbour slot `i` in the forward scan.
pub open spec fn slot_dc(i: int) -> int {
    if i == 2 {
        0  // north
    } else if i == 3 {
        1  // northeast
    } else {
        -1  // west, northwest
    }
}

/// Row of the neighbour probed by slot `i` of direction `d`: the
/// backward scan probes the point-reflected neighbours.
pub open spec fn neighbor_r(d: ScanDir, i: int, r: int) -> int {
    match d {
        ScanDir::Forward => r + slot_dr(i),
        ScanDir::Backward => r - slot_dr(i),
    }
}

/// Column of the neighbour probed by slot `i` of direction `d`.
pub open spec fn neighbor_c(d: ScanDir, i: int, c: int) -> int {
    match d {
        ScanDir::Forward => c + slot_dc(i),
        ScanDir::Backward => c - slot_dc(i),
    }
}

/// Horizontal unit step toward neighbour slot `i`: every slot but the
/// vertical one moves one column.
pub open spec fn step_x(i: int) -> nat {
    if i == 2 {
        0
    } else {
        1
    }
}

/// Vertical unit step toward neighbour slot `i`: every slot but the
/// horizontal one moves one row.
pub open spec fn step_y(i: int) -> nat {
    if i == 0 {
        0
    } else {
        1
    }
}

/// Cost of stepping from the neighbour at grid index `j` through slot
/// `i`: `2*o + 1` along an axis, `2*(ox + oy + 1)` along a diagonal.
/// Growing an offset component `o` by one grows its square by exactly
/// this amount, so finite squared distances stay the squared norm of
/// their offset vector.
pub open spec fn step_cost(st: ScanState, j: int, i: int) -> nat {
    if i == 0 {
        2 * st.rx[j] + 1
    } else if i == 2 {
        2 * st.ry[j] + 1
    } else {
        2 * (st.rx[j] + st.ry[j] + 1)
    }
}

/// Candidate squared distance offered to cell `(r, c)` by neighbour
/// slot `i`: the neighbour's squared distance plus the step cost, or
/// infinity when the neighbour is out of range or itself infinite.
pub open spec fn candidate(st: ScanState, d: ScanDir, r: int, c: int, i: int) -> Option<nat> {
    let nr = neighbor_r(d, i, r);
    let nc = neighbor_c(d, i, c);
    if st.in_bounds(nr, nc) {
        match st.sq[st.idx(nr, nc)] {
            Some(z2) => Some(z2 + step_cost(st, st.idx(nr, nc), i)),
            None => None,
        }
    } else {
        None
    }
}

/// Minimum candidate over neighbour slots `[0, n)` together with the
/// winning slot. A later slot wins only strictly, so on a tie the
/// first minimum found is kept.
pub open spec fn best_upto(st: ScanState, d: ScanDir, r: int, c: int, n: int) -> (Option<
    nat,
>, int)
    decreases n,
{
    if n <= 0 {
        (None, 0)
    } else {
        let (zmin, w) = best_upto(st, d, r, c, n - 1);
        let cnd = candidate(st, d, r, c, n - 1);
        if sq_lt(cnd, zmin) {
            (cnd, n - 1)
        } else {
            (zmin, w)
        }
    }
}

/// One cell visit of a scan: if the cell is not a target and the best
/// of the four neighbour candidates strictly improves on its current
/// squared distance, record the candidate and extend the winning
/// neighbour's offset vector by that direction's unit step.
pub open spec fn scan_step(st: ScanState, d: ScanDir, r: int, c: int) -> ScanState {
    let k = st.idx(r, c);
    if st.sq[k] == Some(0nat) {
        st
    } else {
        let (zmin, w) = best_upto(st, d, r, c, 4);
        if sq_lt(zmin, st.sq[k]) {
            let j = st.idx(neighbor_r(d, w, r), neighbor_c(d, w, c));
            ScanState {
                sq: st.sq.update(k, zmin),
                rx: st.rx.update(k, st.rx[j] + step_x(w)),
                ry: st.ry.update(k, st.ry[j] + step_y(w)),
                ..st
            }
        } else {
            st
        }
    }
}

/// Row visited at position `t` of the traversal: row-major from the
/// top-left going forward, row-major from the bottom-right going
/// backward.
pub open spec fn order_r(st: ScanState, d: ScanDir, t: int) -> int {
    match d {
        ScanDir::Forward => t / (st.cols as int),
        ScanDir::Backward => st.rows - 1 - t / (st.cols as int),
    }
}

/// Column visited at position `t` of the traversal.
pub open spec fn order_c(st: ScanState, d: ScanDir, t: int) -> int {
    match d {
        ScanDir::Forward => t % (st.cols as int),
        ScanDir::Backward => st.cols - 1 - t % (st.cols as int),
    }
}

/// The state after the first `t` cell visits of one scan.
pub open spec fn scan_upto(st0: ScanState, d: ScanDir, t: nat) -> ScanState
    decreases t,
{
    if t == 0 {
        st0
    } else {
        let prev = scan_upto(st0, d, (t - 1) as nat);
        scan_step(prev, d, order_r(st0, d, t - 1), order_c(st0, d, t - 1))
    }
}

/// One whole scan: every cell visited once in traversal order.
pub open spec fn scan_pass(st0: ScanState, d: ScanDir) -> ScanState {
    scan_upto(st0, d, (st0.rows * st0.cols) as nat)
}

/// The starting state: squared distance 0 for target cells, infinity
/// for every other cell, and all offset vectors zero.
pub open spec fn init_state(g: GridModel) -> ScanState {
    ScanState {
        rows: g.rows,
        cols: g.cols,
        sq: Seq::new(
            (g.rows * g.cols) as nat,
            |k: int|
                if g.cells[k] == Cell::Target {
                    Some(0nat)
                } else {
                    None
                },
        ),
        rx: Seq::new((g.rows * g.cols) as nat, |k: int| 0nat),
        ry: Seq::new((g.rows * g.cols) as nat, |k: int| 0nat),
    }
}

/// The final pass: re-impose the missing-data mask of the input and
/// hand every other cell its squared distance, infinite where no
/// target was reachable.
pub open spec fn finalize_model(g: GridModel, st: ScanState) -> Seq<OutModel> {
    Seq::new(
        (g.rows * g.cols) as nat,
        |k: int|
            if g.cells[k] == Cell::Missing {
                OutModel::Missing
            } else {
                match st.sq[k] {
                    Some(v) => OutModel::Finite(v),
                    None => OutModel::Infinite,
                }
            },
    )
}

/// The whole transform: initialize, forward scan, backward scan,
/// finalize.
pub open spec fn transform_model(g: GridModel) -> Seq<OutModel> {
    finalize_model(
        g,
        scan_pass(scan_pass(init_state(g), ScanDir::Forward), ScanDir::Backward),
    )
}

/// Ghost model of one output cell.
pub ghost enum OutModel {
    /// The input cell was missing data; the mask is re-imposed.
    Missing,
    /// Squared distance to the nearest known target, in cell units.
    Finite(nat),
    /// No target was reachable: positive infinity.
    Infinite,
}

} // verus!
