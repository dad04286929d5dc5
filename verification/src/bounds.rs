//! The data-model invariant of the working grids, and the bounds that
//! keep every executable computation inside `u64`.
//!
//! Throughout the scans, a cell's finite squared distance is exactly
//! the squared norm of its offset vector, and each cell visit can grow
//! an offset component by at most one. Starting from all-zero offsets,
//! a state reached after `t` visits therefore has offsets bounded by
//! `t`, which bounds every squared distance the scans ever compute.

use vstd::prelude::*;
use vstd::arithmetic::div_mod::{lemma_fundamental_div_mod, lemma_fundamental_div_mod_converse};
use crate::grid::lemma_index_bound;
use crate::model::{
    ScanState, ScanDir, GridModel, best_upto, candidate, scan_step, scan_upto, init_state,
    neighbor_r, neighbor_c, step_cost, step_x, step_y, order_r, order_c, sq_lt,
};

verus! {

/// The data-model invariant at one cell: offset components bounded by
/// `b`, and a finite squared distance equal to the squared norm of the
/// offset vector.
pub open spec fn bounded_at(st: ScanState, b: nat, k: int) -> bool {
    &&& st.rx[k] <= b
    &&& st.ry[k] <= b
    &&& (st.sq[k] matches Some(v) ==> v == st.rx[k] * st.rx[k] + st.ry[k] * st.ry[k])
}

/// The data-model invariant over the whole state.
pub open spec fn bounded(st: ScanState, b: nat) -> bool {
    forall|k: int| 0 <= k < st.len() ==> #[trigger] bounded_at(st, b, k)
}

/// A state a scan may start from: its offsets leave enough headroom
/// that one more visit of every cell keeps all arithmetic in `u64`.
pub open spec fn scan_ready(st: ScanState) -> bool {
    exists|b: nat| #[trigger] bounded(st, b) && b + st.len() <= 0x8000_0000
}

/// Under the cap on offset components, a neighbour's squared distance
/// plus the largest step cost still fits in `u64`.
pub proof fn lemma_cand_fits(rx: nat, ry: nat, b: nat)
    requires
        rx <= b,
        ry <= b,
        b <= 0x8000_0000,
    ensures
        rx * rx + ry * ry + 2 * (rx + ry + 1) <= u64::MAX,
{
    assert(rx * rx + ry * ry + 2 * (rx + ry + 1) <= u64::MAX) by (nonlinear_arith)
        requires
            rx <= b,
            ry <= b,
            b <= 0x8000_0000,
    ;
}

pub proof fn lemma_bounded_monotone(st: ScanState, b1: nat, b2: nat)
    requires
        bounded(st, b1),
        b1 <= b2,
    ensures
        bounded(st, b2),
{
    assert forall|k: int| 0 <= k < st.len() implies #[trigger] bounded_at(st, b2, k) by {
        assert(bounded_at(st, b1, k));
    }
}

/// The starting state satisfies the invariant with no headroom used.
pub proof fn lemma_init_state_bounded(g: GridModel)
    requires
        g.wf(),
    ensures
        init_state(g).wf(),
        init_state(g).rows == g.rows,
        init_state(g).cols == g.cols,
        bounded(init_state(g), 0),
{
    let st = init_state(g);
    assert forall|k: int| 0 <= k < st.len() implies #[trigger] bounded_at(st, 0, k) by {
        assert(st.rx[k] == 0 && st.ry[k] == 0);
    }
}

/// When the minimum candidate is finite, the winning slot is one of
/// the scanned slots and offers exactly that candidate.
pub proof fn lemma_best_upto_sound(st: ScanState, d: ScanDir, r: int, c: int, n: int)
    ensures
        ({
            let (zmin, w) = best_upto(st, d, r, c, n);
            zmin is Some ==> 0 <= w < n && candidate(st, d, r, c, w) == zmin
        }),
    decreases n,
{
    if n > 0 {
        lemma_best_upto_sound(st, d, r, c, n - 1);
    }
}

/// One cell visit preserves the data-model invariant, using at most
/// one unit of offset headroom.
pub proof fn lemma_scan_step_bounded(st: ScanState, d: ScanDir, r: int, c: int, b: nat)
    requires
        st.wf(),
        st.in_bounds(r, c),
        bounded(st, b),
    ensures
        ({
            let st2 = scan_step(st, d, r, c);
            &&& st2.rows == st.rows
            &&& st2.cols == st.cols
            &&& st2.wf()
            &&& bounded(st2, b + 1)
        }),
{
    let st2 = scan_step(st, d, r, c);
    let k = st.idx(r, c);
    lemma_index_bound(r, c, st.rows as int, st.cols as int);
    if st.sq[k] == Some(0nat) {
        lemma_bounded_monotone(st, b, b + 1);
    } else {
        let (zmin, w) = best_upto(st, d, r, c, 4);
        if sq_lt(zmin, st.sq[k]) {
            lemma_best_upto_sound(st, d, r, c, 4);
            let nr = neighbor_r(d, w, r);
            let nc = neighbor_c(d, w, c);
            let j = st.idx(nr, nc);
            lemma_index_bound(nr, nc, st.rows as int, st.cols as int);
            assert(bounded_at(st, b, j));
            let z2 = st.sq[j]->Some_0;
            let rxj = st.rx[j];
            let ryj = st.ry[j];
            assert(zmin == Some((z2 + step_cost(st, j, w)) as nat));
            let rxk = rxj + step_x(w);
            let ryk = ryj + step_y(w);
            assert(z2 + step_cost(st, j, w) == rxk * rxk + ryk * ryk) by (nonlinear_arith)
                requires
                    z2 == rxj * rxj + ryj * ryj,
                    rxk == rxj + step_x(w),
                    ryk == ryj + step_y(w),
                    step_cost(st, j, w) == if w == 0 {
                        2 * rxj + 1
                    } else if w == 2 {
                        2 * ryj + 1
                    } else {
                        2 * (rxj + ryj + 1)
                    },
                    step_x(w) == if w == 2 { 0nat } else { 1nat },
                    step_y(w) == if w == 0 { 0nat } else { 1nat },
            ;
            assert(bounded_at(st2, b + 1, k));
            assert forall|k2: int| 0 <= k2 < st2.len() implies #[trigger] bounded_at(
                st2,
                b + 1,
                k2,
            ) by {
                assert(bounded_at(st, b, k2));
            }
        } else {
            lemma_bounded_monotone(st, b, b + 1);
        }
    }
}

/// Position `t` of a traversal names a cell inside the grid.
pub proof fn lemma_order_in_bounds(st: ScanState, d: ScanDir, t: int)
    requires
        0 <= t < st.rows * st.cols,
    ensures
        st.in_bounds(order_r(st, d, t), order_c(st, d, t)),
{
    let cols = st.cols as int;
    let rows = st.rows as int;
    assert(cols > 0) by (nonlinear_arith)
        requires
            0 <= t < rows * cols,
            cols >= 0,
    ;
    lemma_fundamental_div_mod(t, cols);
    assert(0 <= t % cols < cols);
    assert(0 <= t / cols) by (nonlinear_arith)
        requires
            t >= 0,
            cols > 0,
            t == cols * (t / cols) + t % cols,
            0 <= t % cols < cols,
    ;
    assert(t / cols < rows) by (nonlinear_arith)
        requires
            t < rows * cols,
            cols > 0,
            t == cols * (t / cols) + t % cols,
            0 <= t % cols < cols,
    ;
}

/// The traversal position of the cell `(r, c)`: the row-major index
/// forward, its reflection backward.
pub proof fn lemma_order_of_cell(st: ScanState, d: ScanDir, r: int, c: int, t: int)
    requires
        st.in_bounds(r, c),
        t == match d {
            ScanDir::Forward => r * st.cols + c,
            ScanDir::Backward => (st.rows - 1 - r) * st.cols + (st.cols - 1 - c),
        },
    ensures
        order_r(st, d, t) == r,
        order_c(st, d, t) == c,
{
    let cols = st.cols as int;
    match d {
        ScanDir::Forward => {
            lemma_fundamental_div_mod_converse(t, cols, r, c);
        },
        ScanDir::Backward => {
            lemma_fundamental_div_mod_converse(t, cols, st.rows - 1 - r, st.cols - 1 - c);
        },
    }
}

/// A whole prefix of a scan preserves the data-model invariant, using
/// at most one unit of headroom per visited cell, and never changes
/// the grid dimensions.
pub proof fn lemma_scan_upto_bounded(st0: ScanState, d: ScanDir, b: nat, t: nat)
    requires
        st0.wf(),
        bounded(st0, b),
        t <= st0.len(),
    ensures
        ({
            let st = scan_upto(st0, d, t);
            &&& st.rows == st0.rows
            &&& st.cols == st0.cols
            &&& st.wf()
            &&& bounded(st, b + t)
        }),
    decreases t,
{
    if t > 0 {
        lemma_scan_upto_bounded(st0, d, b, (t - 1) as nat);
        let prev = scan_upto(st0, d, (t - 1) as nat);
        lemma_order_in_bounds(st0, d, t - 1);
        assert(prev.in_bounds(order_r(st0, d, t - 1), order_c(st0, d, t - 1)));
        lemma_scan_step_bounded(prev, d, order_r(st0, d, t - 1), order_c(st0, d, t - 1), (b
            + t - 1) as nat);
    }
}

} // verus!
