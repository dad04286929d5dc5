//! The executable transform: initializer, the two directional scans,
//! and the finalizer. Each pass is proved to compute exactly what the
//! model in [`crate::model`] states.

use vstd::prelude::*;
use crate::grid::{Cell, CellGrid, OutGrid, OutValue, SqDist, MAX_CELLS, lemma_index_bound};
use crate::model::{
    ScanState, ScanDir, best_upto, candidate, scan_step, scan_upto, scan_pass, init_state,
    finalize_model, transform_model, neighbor_r, neighbor_c, step_cost, step_x, step_y,
    order_r, order_c, sq_lt,
};
use crate::bounds::{
    bounded, bounded_at, scan_ready, lemma_init_state_bounded, lemma_scan_upto_bounded,
    lemma_order_of_cell, lemma_cand_fits,
};

verus! {

/// The three working grids of one transform invocation: squared
/// distances and the two offset-vector components, all row-major.
pub struct WorkGrids {
    pub rows: usize,
    pub cols: usize,
    pub sq: Vec<SqDist>,
    pub rx: Vec<u64>,
    pub ry: Vec<u64>,
}

impl View for WorkGrids {
    type V = ScanState;

    open spec fn view(&self) -> ScanState {
        ScanState {
            rows: self.rows as nat,
            cols: self.cols as nat,
            sq: self.sq@.map_values(|d: SqDist| d@),
            rx: self.rx@.map_values(|x: u64| x as nat),
            ry: self.ry@.map_values(|x: u64| x as nat),
        }
    }
}

impl WorkGrids {
    /// Every working grid holds one value per cell, and the grid is
    /// small enough for every scan intermediate to fit in `u64`.
    pub open spec fn wf(self) -> bool {
        &&& self.sq.len() == self.rows * self.cols
        &&& self.rx.len() == self.rows * self.cols
        &&& self.ry.len() == self.rows * self.cols
        &&& self.rows * self.cols <= MAX_CELLS
    }
}

/// The initializing pass: squared distance 0 for every target cell,
/// infinity for every other cell, all offsets zero.
pub fn initialize(input: &CellGrid) -> (st: WorkGrids)
    requires
        input.wf(),
    ensures
        st.wf(),
        st.rows == input.rows,
        st.cols == input.cols,
        st@ == init_state(input@),
{
    let n = input.rows * input.cols;
    let mut sq: Vec<SqDist> = Vec::new();
    let mut rx: Vec<u64> = Vec::new();
    let mut ry: Vec<u64> = Vec::new();
    let mut i: usize = 0;
    while i < n
        invariant
            i <= n,
            n == input.rows * input.cols,
            input.wf(),
            sq.len() == i,
            rx.len() == i,
            ry.len() == i,
            forall|k: int|
                0 <= k < i ==> sq@[k]@ == (if input@.cells[k] == Cell::Target {
                    Some(0nat)
                } else {
                    None::<nat>
                }),
            forall|k: int| 0 <= k < i ==> rx@[k] == 0 && ry@[k] == 0,
        decreases n - i,
    {
        if input.data[i] == Cell::Target {
            sq.push(SqDist::Finite(0));
        } else {
            sq.push(SqDist::Infinite);
        }
        rx.push(0);
        ry.push(0);
        i = i + 1;
    }
    let st = WorkGrids { rows: input.rows, cols: input.cols, sq, rx, ry };
    proof {
        assert(st@.sq =~= init_state(input@).sq);
        assert(st@.rx =~= init_state(input@).rx);
        assert(st@.ry =~= init_state(input@).ry);
    }
    st
}

/// The neighbour of `(r, c)` probed by slot `i` of direction `d`, or
/// `None` when that probe falls outside the grid.
#[verifier::rlimit(50)]
fn neighbor(d: ScanDir, i: usize, r: usize, c: usize, rows: usize, cols: usize) -> (p: Option<
    (usize, usize),
>)
    requires
        i < 4,
        r < rows,
        c < cols,
    ensures
        p is Some <==> (0 <= neighbor_r(d, i as int, r as int) < rows && 0 <= neighbor_c(
            d,
            i as int,
            c as int,
        ) < cols),
        p is Some ==> p->Some_0.0 == neighbor_r(d, i as int, r as int) && p->Some_0.1
            == neighbor_c(d, i as int, c as int),
{
    match d {
        ScanDir::Forward => {
            if i == 0 {
                if c > 0 {
                    Some((r, c - 1))
                } else {
                    None
                }
            } else if i == 1 {
                if r > 0 && c > 0 {
                    Some((r - 1, c - 1))
                } else {
                    None
                }
            } else if i == 2 {
                if r > 0 {
                    Some((r - 1, c))
                } else {
                    None
                }
            } else {
                if r > 0 && c + 1 < cols {
                    Some((r - 1, c + 1))
                } else {
                    None
                }
            }
        },
        ScanDir::Backward => {
            if i == 0 {
                if c + 1 < cols {
                    Some((r, c + 1))
                } else {
                    None
                }
            } else if i == 1 {
                if r + 1 < rows && c + 1 < cols {
                    Some((r + 1, c + 1))
                } else {
                    None
                }
            } else if i == 2 {
                if r + 1 < rows {
                    Some((r + 1, c))
                } else {
                    None
                }
            } else {
                if r + 1 < rows && c > 0 {
                    Some((r + 1, c - 1))
                } else {
                    None
                }
            }
        },
    }
}

/// One cell visit: take the minimum candidate offered by the four
/// already-visited neighbours and, when it strictly improves on the
/// cell's current squared distance, record it together with the grown
/// offset vector.
#[verifier::rlimit(100)]
fn relax_cell(st: &mut WorkGrids, d: ScanDir, r: usize, c: usize, Ghost(b): Ghost<nat>)
    requires
        old(st).wf(),
        r < old(st).rows,
        c < old(st).cols,
        bounded(old(st)@, b),
        b <= 0x8000_0000,
    ensures
        final(st).wf(),
        final(st).rows == old(st).rows,
        final(st).cols == old(st).cols,
        final(st)@ == scan_step(old(st)@, d, r as int, c as int),
{
    let rows = st.rows;
    let cols = st.cols;
    let ghost st0 = st@;
    proof {
        lemma_index_bound(r as int, c as int, rows as int, cols as int);
    }
    let k = r * cols + c;
    let z = st.sq[k];
    if z == SqDist::Finite(0) {
        return ;
    }
    let mut zmin = SqDist::Infinite;
    let mut wslot: usize = 0;
    let mut best_rx: u64 = 0;
    let mut best_ry: u64 = 0;
    let mut i: usize = 0;
    while i < 4
        invariant
            i <= 4,
            st.wf(),
            st.rows == rows,
            st.cols == cols,
            st@ == st0,
            r < rows,
            c < cols,
            bounded(st0, b),
            b <= 0x8000_0000,
            ({
                let (zm, w) = best_upto(st0, d, r as int, c as int, i as int);
                &&& zmin@ == zm
                &&& (zmin is Finite ==> {
                    let nr = neighbor_r(d, w, r as int);
                    let nc = neighbor_c(d, w, c as int);
                    &&& wslot == w
                    &&& 0 <= w < i
                    &&& st0.in_bounds(nr, nc)
                    &&& best_rx as nat == st0.rx[st0.idx(nr, nc)]
                    &&& best_ry as nat == st0.ry[st0.idx(nr, nc)]
                })
            }),
        decreases 4 - i,
    {
        let ghost prev_best = best_upto(st0, d, r as int, c as int, i as int);
        match neighbor(d, i, r, c, rows, cols) {
            Some((nr, nc)) => {
                proof {
                    lemma_index_bound(nr as int, nc as int, rows as int, cols as int);
                }
                let j = nr * cols + nc;
                match st.sq[j] {
                    SqDist::Finite(z2) => {
                        let rxj = st.rx[j];
                        let ryj = st.ry[j];
                        proof {
                            assert(bounded_at(st0, b, j as int));
                            lemma_cand_fits(rxj as nat, ryj as nat, b);
                        }
                        let h: u64 = if i == 0 {
                            2 * rxj + 1
                        } else if i == 2 {
                            2 * ryj + 1
                        } else {
                            2 * (rxj + ryj + 1)
                        };
                        let cand = z2 + h;
                        proof {
                            assert(st0.idx(nr as int, nc as int) == j);
                            assert(step_cost(st0, j as int, i as int) == h as nat);
                            assert(candidate(st0, d, r as int, c as int, i as int) == Some(
                                cand as nat,
                            ));
                        }
                        let better = match zmin {
                            SqDist::Infinite => true,
                            SqDist::Finite(m) => cand < m,
                        };
                        if better {
                            zmin = SqDist::Finite(cand);
                            wslot = i;
                            best_rx = rxj;
                            best_ry = ryj;
                        }
                    },
                    SqDist::Infinite => {
                        proof {
                            assert(candidate(st0, d, r as int, c as int, i as int) is None);
                        }
                    },
                }
            },
            None => {
                proof {
                    assert(candidate(st0, d, r as int, c as int, i as int) is None);
                }
            },
        }
        i = i + 1;
    }
    let do_update = match (zmin, z) {
        (SqDist::Finite(_), SqDist::Infinite) => true,
        (SqDist::Finite(m), SqDist::Finite(zv)) => m < zv,
        (SqDist::Infinite, _) => false,
    };
    proof {
        assert(do_update == sq_lt(zmin@, st0.sq[k as int]));
        if do_update {
            let (zm, w) = best_upto(st0, d, r as int, c as int, 4);
            let nr = neighbor_r(d, w, r as int);
            let nc = neighbor_c(d, w, c as int);
            lemma_index_bound(nr, nc, rows as int, cols as int);
            assert(bounded_at(st0, b, st0.idx(nr, nc)));
            assert(best_rx <= b && best_ry <= b);
        }
    }
    if do_update {
        let sx: u64 = if wslot == 2 {
            0
        } else {
            1
        };
        let sy: u64 = if wslot == 0 {
            0
        } else {
            1
        };
        st.sq[k] = zmin;
        st.rx[k] = best_rx + sx;
        st.ry[k] = best_ry + sy;
        proof {
            let stepped = scan_step(st0, d, r as int, c as int);
            assert(sx as nat == step_x(wslot as int));
            assert(sy as nat == step_y(wslot as int));
            assert(st@.sq =~= stepped.sq);
            assert(st@.rx =~= stepped.rx);
            assert(st@.ry =~= stepped.ry);
        }
    }
}

/// One whole scan in direction `d`: every cell visited once in
/// traversal order, each visit relaxing the cell from the four
/// neighbours this direction has already finished.
pub fn scan(st: &mut WorkGrids, d: ScanDir)
    requires
        old(st).wf(),
        scan_ready(old(st)@),
    ensures
        final(st).wf(),
        final(st).rows == old(st).rows,
        final(st).cols == old(st).cols,
        final(st)@ == scan_pass(old(st)@, d),
{
    let ghost st0 = st@;
    let ghost b0: nat = choose|b: nat| #[trigger] bounded(st0, b) && b + st0.len()
        <= 0x8000_0000;
    let rows = st.rows;
    let cols = st.cols;
    let mut rr: usize = 0;
    while rr < rows
        invariant
            rr <= rows,
            st.wf(),
            st.rows == rows,
            st.cols == cols,
            st0.rows == rows,
            st0.cols == cols,
            st0.wf(),
            bounded(st0, b0),
            b0 + st0.len() <= 0x8000_0000,
            st@ == scan_upto(st0, d, (rr * cols) as nat),
        decreases rows - rr,
    {
        let mut cc: usize = 0;
        while cc < cols
            invariant
                cc <= cols,
                rr < rows,
                st.wf(),
                st.rows == rows,
                st.cols == cols,
                st0.rows == rows,
                st0.cols == cols,
                st0.wf(),
                bounded(st0, b0),
                b0 + st0.len() <= 0x8000_0000,
                st@ == scan_upto(st0, d, (rr * cols + cc) as nat),
            decreases cols - cc,
        {
            let r = match d {
                ScanDir::Forward => rr,
                ScanDir::Backward => rows - 1 - rr,
            };
            let c = match d {
                ScanDir::Forward => cc,
                ScanDir::Backward => cols - 1 - cc,
            };
            let ghost t = (rr * cols + cc) as nat;
            proof {
                lemma_index_bound(rr as int, cc as int, rows as int, cols as int);
                lemma_scan_upto_bounded(st0, d, b0, t);
                lemma_order_of_cell(st0, d, r as int, c as int, t as int);
                assert(order_r(st0, d, t as int) == r && order_c(st0, d, t as int) == c);
            }
            relax_cell(st, d, r, c, Ghost((b0 + t) as nat));
            proof {
                assert(st@ == scan_upto(st0, d, (t + 1) as nat));
            }
            cc = cc + 1;
        }
        proof {
            assert(rr * cols + cols == (rr + 1) * cols) by (nonlinear_arith);
        }
        rr = rr + 1;
    }
}

/// The finalizing pass: re-impose the missing-data mask of the input
/// and hand every other cell its squared distance. The conversion to
/// ground units, `sqrt(d) * cell_size`, is floating-point arithmetic
/// and is left to the caller.
pub fn finalize(input: &CellGrid, st: &WorkGrids) -> (out: OutGrid)
    requires
        input.wf(),
        st.wf(),
        st.rows == input.rows,
        st.cols == input.cols,
    ensures
        out.wf(),
        out.rows == input.rows,
        out.cols == input.cols,
        out@ == finalize_model(input@, st@),
{
    let n = input.rows * input.cols;
    let mut data: Vec<OutValue> = Vec::new();
    let mut i: usize = 0;
    while i < n
        invariant
            i <= n,
            n == input.rows * input.cols,
            input.wf(),
            st.wf(),
            st.rows == input.rows,
            st.cols == input.cols,
            data.len() == i,
            forall|k: int| 0 <= k < i ==> data@[k]@ == finalize_model(input@, st@)[k],
        decreases n - i,
    {
        let v = if input.data[i] == Cell::Missing {
            OutValue::Missing
        } else {
            match st.sq[i] {
                SqDist::Finite(z) => OutValue::Finite(z),
                SqDist::Infinite => OutValue::Infinite,
            }
        };
        data.push(v);
        i = i + 1;
    }
    let out = OutGrid { rows: input.rows, cols: input.cols, data };
    proof {
        assert(out@ =~= finalize_model(input@, st@));
    }
    out
}

/// The whole transform: initialize, scan forward, scan backward,
/// finalize. The result holds, for every cell of the input, the
/// squared distance in cell units to the nearest target cell found by
/// the two scans, under the input's missing-data mask.
pub fn distance_transform(input: &CellGrid) -> (out: OutGrid)
    requires
        input.wf(),
    ensures
        out.wf(),
        out.rows == input.rows,
        out.cols == input.cols,
        out@ == transform_model(input@),
{
    let mut work = initialize(input);
    proof {
        lemma_init_state_bounded(input@);
        assert(bounded(work@, 0) && 0 + work@.len() <= 0x8000_0000);
        assert(scan_ready(work@));
    }
    scan(&mut work, ScanDir::Forward);
    proof {
        let fwd = scan_pass(init_state(input@), ScanDir::Forward);
        lemma_scan_upto_bounded(
            init_state(input@),
            ScanDir::Forward,
            0,
            init_state(input@).len(),
        );
        assert(bounded(work@, work@.len()) && work@.len() + work@.len() <= 0x8000_0000);
        assert(scan_ready(work@));
    }
    scan(&mut work, ScanDir::Backward);
    finalize(input, &work)
}

} // verus!
