//! Executable grid containers.
//!
//! `CellGrid` classifies the input raster into targets, background and
//! missing data; `OutGrid` carries the finished squared distances with
//! the missing-data mask re-imposed. Both are row-major vectors with a
//! boundary-safe read, mirrored by the ghost models in [`crate::model`].

use vstd::prelude::*;
use crate::model::{GridModel, OutModel};

verus! {

/// The largest number of cells a grid may hold. The scans accumulate
/// per-cell offset vectors whose squares must fit in `u64`; this cap
/// keeps every intermediate sum representable.
pub const MAX_CELLS: usize = 0x4000_0000;

/// Classification of one input cell.
#[derive(Clone, Copy, PartialEq, Eq, Structural, Debug)]
pub enum Cell {
    /// The missing-data sentinel of the source raster.
    Missing,
    /// A valid cell holding zero: background.
    Background,
    /// A valid, non-zero cell: a distance-zero source point.
    Target,
}

/// A squared distance in cell units, or positive infinity while no
/// target is known.
#[derive(Clone, Copy, PartialEq, Eq, Structural, Debug)]
pub enum SqDist {
    Finite(u64),
    Infinite,
}

impl View for SqDist {
    type V = Option<nat>;

    open spec fn view(&self) -> Option<nat> {
        match *self {
            SqDist::Finite(v) => Some(v as nat),
            SqDist::Infinite => None,
        }
    }
}

/// One finished output cell.
#[derive(Clone, Copy, PartialEq, Eq, Structural, Debug)]
pub enum OutValue {
    /// The input cell was missing data.
    Missing,
    /// Squared distance to the nearest known target, in cell units.
    /// The ground-unit distance is `sqrt(v) * cell_size`, left to the
    /// caller as it needs floating-point arithmetic.
    Finite(u64),
    /// No target anywhere in the grid was reachable.
    Infinite,
}

impl View for OutValue {
    type V = OutModel;

    open spec fn view(&self) -> OutModel {
        match *self {
            OutValue::Missing => OutModel::Missing,
            OutValue::Finite(v) => OutModel::Finite(v as nat),
            OutValue::Infinite => OutModel::Infinite,
        }
    }
}

/// A row-major index stays inside the grid's cell count.
pub proof fn lemma_index_bound(r: int, c: int, rows: int, cols: int)
    requires
        0 <= r < rows,
        0 <= c < cols,
    ensures
        0 <= r * cols + c < rows * cols,
{
    assert(r * cols + c < rows * cols) by (nonlinear_arith)
        requires
            0 <= r < rows,
            0 <= c < cols,
    ;
}

/// The input grid: one class per cell, with a boundary-safe read.
pub struct CellGrid {
    pub rows: usize,
    pub cols: usize,
    pub data: Vec<Cell>,
}

impl View for CellGrid {
    type V = GridModel;

    open spec fn view(&self) -> GridModel {
        GridModel { rows: self.rows as nat, cols: self.cols as nat, cells: self.data@ }
    }
}

impl CellGrid {
    /// The vector holds exactly one class per cell and the grid is
    /// small enough for every scan intermediate to fit in `u64`.
    pub open spec fn wf(self) -> bool {
        &&& self.data.len() == self.rows * self.cols
        &&& self.rows * self.cols <= MAX_CELLS
    }

    /// A grid of the given dimensions with every cell set to `fill`.
    pub fn new(rows: usize, cols: usize, fill: Cell) -> (g: CellGrid)
        requires
            rows * cols <= MAX_CELLS,
        ensures
            g.wf(),
            g.rows == rows,
            g.cols == cols,
            forall|k: int| 0 <= k < rows * cols ==> g@.cells[k] == fill,
    {
        let n = rows * cols;
        let mut data: Vec<Cell> = Vec::new();
        let mut i: usize = 0;
        while i < n
            invariant
                i <= n,
                data.len() == i,
                forall|k: int| 0 <= k < i ==> data@[k] == fill,
            decreases n - i,
        {
            data.push(fill);
            i = i + 1;
        }
        CellGrid { rows, cols, data }
    }

    /// Boundary-safe read: out-of-range coordinates, including negative
    /// ones, read as missing data rather than failing.
    pub fn get(&self, r: isize, c: isize) -> (v: Cell)
        requires
            self.wf(),
        ensures
            v == self@.cell_at(r as int, c as int),
    {
        if r >= 0 && c >= 0 {
            let ru = r as usize;
            let cu = c as usize;
            if ru < self.rows && cu < self.cols {
                proof {
                    lemma_index_bound(ru as int, cu as int, self.rows as int, self.cols as int);
                }
                return self.data[ru * self.cols + cu];
            }
        }
        Cell::Missing
    }

    /// Write one cell. Writes outside the grid are a programming error
    /// and are excluded by contract.
    pub fn set(&mut self, r: usize, c: usize, v: Cell)
        requires
            old(self).wf(),
            r < old(self).rows,
            c < old(self).cols,
        ensures
            final(self).wf(),
            final(self).rows == old(self).rows,
            final(self).cols == old(self).cols,
            final(self)@.cells == old(self)@.cells.update(
                r * old(self).cols + c,
                v,
            ),
    {
        proof {
            lemma_index_bound(r as int, c as int, self.rows as int, self.cols as int);
        }
        self.data[r * self.cols + c] = v;
    }
}

/// The output grid: finished squared distances under the missing-data
/// mask, in the dimensions of the input.
pub struct OutGrid {
    pub rows: usize,
    pub cols: usize,
    pub data: Vec<OutValue>,
}

impl View for OutGrid {
    type V = Seq<OutModel>;

    open spec fn view(&self) -> Seq<OutModel> {
        self.data@.map_values(|v: OutValue| v@)
    }
}

impl OutGrid {
    pub open spec fn wf(self) -> bool {
        self.data.len() == self.rows * self.cols
    }

    /// Read one output cell.
    pub fn get(&self, r: usize, c: usize) -> (v: OutValue)
        requires
            self.wf(),
            r < self.rows,
            c < self.cols,
        ensures
            v@ == self@[r * self.cols + c],
    {
        proof {
            lemma_index_bound(r as int, c as int, self.rows as int, self.cols as int);
        }
        self.data[r * self.cols + c]
    }
}

} // verus!
