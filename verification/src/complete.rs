//! Completeness of the two scans.
//!
//! A single target feeds a whole cone of cells during one scan: every
//! cell visit that sees one finite probe neighbour leaves the visited
//! cell finite, and inside the cone each cell has such a neighbour,
//! visited earlier in the same pass. The forward cone of the target
//! covers the end of the target's row and everything below it shifted
//! by at most one column per row; the backward scan, being the
//! forward scan conjugated by rotation, covers the rest. So as soon
//! as the input holds one target, no output cell is infinite.

use vstd::prelude::*;
use vstd::arithmetic::div_mod::lemma_fundamental_div_mod;
use crate::grid::{Cell, lemma_index_bound};
use crate::model::{
    GridModel, OutModel, ScanState, ScanDir, best_upto, candidate, scan_step, scan_upto,
    scan_pass, init_state, transform_model, order_r, order_c, sq_lt,
};
use crate::bounds::lemma_order_in_bounds;
use crate::laws::{lemma_scan_upto_monotone, lemma_scan_step_monotone, lemma_scan_pass_monotone};
use crate::symmetry::{rotate_state, lemma_backward_is_rotated_forward, lemma_reflect_idx};

verus! {

/// The cells a finite cell at `(tr, tc)` feeds during one forward
/// scan: the rest of its row, and every lower row shifted left by at
/// most one column per row.
pub open spec fn fwd_cone(tr: int, tc: int, r: int, c: int) -> bool {
    ||| (r == tr && c >= tc)
    ||| (r > tr && c >= tc - (r - tr))
}

/// The mirror image: the cells a finite cell feeds during one
/// backward scan.
pub open spec fn bwd_cone(pr: int, pc: int, r: int, c: int) -> bool {
    ||| (r == pr && c <= pc)
    ||| (r < pr && c <= pc + (pr - r))
}

/// When any scanned slot offers a candidate, the slot minimum is
/// finite.
proof fn lemma_best_some(st: ScanState, d: ScanDir, r: int, c: int, i: int, n: int)
    requires
        0 <= i < n,
        candidate(st, d, r, c, i) is Some,
    ensures
        best_upto(st, d, r, c, n).0 is Some,
    decreases n,
{
    if i < n - 1 {
        lemma_best_some(st, d, r, c, i, n - 1);
    }
}

/// A visited cell with a finite probe neighbour comes out finite.
proof fn lemma_step_leaves_finite(st: ScanState, d: ScanDir, r: int, c: int, i: int)
    requires
        st.wf(),
        st.in_bounds(r, c),
        0 <= i < 4,
        candidate(st, d, r, c, i) is Some,
    ensures
        scan_step(st, d, r, c).sq[st.idx(r, c)] is Some,
{
    let k = st.idx(r, c);
    lemma_index_bound(r, c, st.rows as int, st.cols as int);
    lemma_best_some(st, d, r, c, i, 4);
    let (zmin, w) = best_upto(st, d, r, c, 4);
    if st.sq[k] != Some(0nat) && !sq_lt(zmin, st.sq[k]) {
        assert(st.sq[k] is Some);
    }
}

/// Everything in the forward cone of an initially finite cell, and
/// already visited, is finite.
proof fn lemma_fwd_upto_cone(st0: ScanState, tr: int, tc: int, t: nat)
    requires
        st0.wf(),
        st0.in_bounds(tr, tc),
        st0.sq[tr * st0.cols + tc] is Some,
        t <= st0.len(),
    ensures
        ({
            let st = scan_upto(st0, ScanDir::Forward, t);
            forall|r: int, c: int|
                st0.in_bounds(r, c) && fwd_cone(tr, tc, r, c) && r * st0.cols + c < t
                    ==> #[trigger] st.sq[r * (st0.cols as int) + c] is Some
        }),
    decreases t,
{
    let rows = st0.rows as int;
    let cols = st0.cols as int;
    if t > 0 {
        lemma_fwd_upto_cone(st0, tr, tc, (t - 1) as nat);
        let prev = scan_upto(st0, ScanDir::Forward, (t - 1) as nat);
        let st = scan_upto(st0, ScanDir::Forward, t);
        lemma_scan_upto_monotone(st0, ScanDir::Forward, (t - 1) as nat);
        lemma_order_in_bounds(st0, ScanDir::Forward, t - 1);
        let r0 = order_r(st0, ScanDir::Forward, t - 1);
        let c0 = order_c(st0, ScanDir::Forward, t - 1);
        lemma_fundamental_div_mod(t - 1, cols);
        assert(r0 * cols + c0 == t - 1) by (nonlinear_arith)
            requires
                t - 1 == cols * r0 + c0,
        ;
        lemma_scan_step_monotone(prev, ScanDir::Forward, r0, c0);
        lemma_index_bound(r0, c0, rows, cols);
        if fwd_cone(tr, tc, r0, c0) {
            if r0 == tr && c0 == tc {
                lemma_scan_upto_monotone(st0, ScanDir::Forward, t);
                assert(st.sq[r0 * cols + c0] is Some);
            } else {
                // Pick a probe neighbour inside the cone, already
                // visited in this pass.
                let i: int = if r0 == tr {
                    0  // west, along the target's row
                } else if c0 == tc - (r0 - tr) {
                    3  // northeast, along the cone's left edge
                } else if c0 > 0 {
                    0  // west
                } else {
                    2  // north, pinned to the first column
                };
                let nr = if i == 0 {
                    r0
                } else {
                    r0 - 1
                };
                let nc = if i == 0 {
                    c0 - 1
                } else if i == 3 {
                    c0 + 1
                } else {
                    c0
                };
                assert(st0.in_bounds(nr, nc) && fwd_cone(tr, tc, nr, nc));
                lemma_index_bound(nr, nc, rows, cols);
                assert(nr * cols + nc < t - 1) by (nonlinear_arith)
                    requires
                        r0 * cols + c0 == t - 1,
                        0 <= nc < cols,
                        0 <= c0 < cols,
                        nr == r0 || nr == r0 - 1,
                        nr == r0 ==> nc < c0,
                ;
                assert(prev.sq[nr * cols + nc] is Some);
                assert(candidate(prev, ScanDir::Forward, r0, c0, i) is Some);
                lemma_step_leaves_finite(prev, ScanDir::Forward, r0, c0, i);
                assert(st.sq[r0 * cols + c0] is Some);
            }
        }
        assert forall|r: int, c: int|
            st0.in_bounds(r, c) && fwd_cone(tr, tc, r, c) && r * st0.cols + c < t implies #[trigger] st.sq[r
            * cols + c] is Some by {
            if r * cols + c < t - 1 {
                assert(prev.sq[r * cols + c] is Some);
            } else {
                assert(r * cols + c == t - 1);
                assert(r == r0 && c == c0) by (nonlinear_arith)
                    requires
                        r * cols + c == r0 * cols + c0,
                        0 <= c < cols,
                        0 <= c0 < cols,
                ;
            }
        }
    }
}

/// Everything in the backward cone of a finite cell is finite after
/// one backward scan: the rotation carries the forward-cone argument
/// over.
proof fn lemma_bwd_pass_cone(st0: ScanState, pr: int, pc: int)
    requires
        st0.wf(),
        st0.in_bounds(pr, pc),
        st0.sq[pr * st0.cols + pc] is Some,
    ensures
        ({
            let st = scan_pass(st0, ScanDir::Backward);
            forall|r: int, c: int|
                st0.in_bounds(r, c) && bwd_cone(pr, pc, r, c) ==> #[trigger] st.sq[r * (
                st0.cols as int) + c] is Some
        }),
{
    let rows = st0.rows as int;
    let cols = st0.cols as int;
    let rot0 = rotate_state(st0);
    let tr = rows - 1 - pr;
    let tc = cols - 1 - pc;
    lemma_index_bound(pr, pc, rows, cols);
    lemma_reflect_idx(rows, cols, pr, pc);
    assert(rot0.sq[tr * cols + tc] is Some);
    lemma_backward_is_rotated_forward(st0);
    lemma_fwd_upto_cone(rot0, tr, tc, rot0.len());
    let fwd = scan_upto(rot0, ScanDir::Forward, rot0.len());
    lemma_scan_upto_monotone(rot0, ScanDir::Forward, rot0.len());
    assert(fwd.wf() && fwd.rows == st0.rows && fwd.cols == st0.cols);
    let st = scan_pass(st0, ScanDir::Backward);
    assert(st == rotate_state(fwd));
    assert forall|r: int, c: int|
        st0.in_bounds(r, c) && bwd_cone(pr, pc, r, c) implies #[trigger] st.sq[r * cols
        + c] is Some by {
        let r2 = rows - 1 - r;
        let c2 = cols - 1 - c;
        lemma_index_bound(r, c, rows, cols);
        lemma_reflect_idx(rows, cols, r, c);
        assert(fwd_cone(tr, tc, r2, c2));
        assert(fwd.sq[r2 * cols + c2] is Some);
        assert(st.sq[r * cols + c] == fwd.sq[r2 * cols + c2]);
    }
}

/// Completeness: as soon as the input holds one target anywhere, no
/// output cell of the transform is infinite — the two scans together
/// hand every cell a finite squared distance.
pub proof fn lemma_any_target_no_infinite(g: GridModel, tr: int, tc: int)
    requires
        g.wf(),
        0 <= tr < g.rows,
        0 <= tc < g.cols,
        g.cells[tr * g.cols + tc] == Cell::Target,
    ensures
        forall|k: int|
            0 <= k < g.rows * g.cols ==> #[trigger] transform_model(g)[k]
                != OutModel::Infinite,
{
    let rows = g.rows as int;
    let cols = g.cols as int;
    let st0 = init_state(g);
    let st1 = scan_pass(st0, ScanDir::Forward);
    let st2 = scan_pass(st1, ScanDir::Backward);
    lemma_index_bound(tr, tc, rows, cols);
    assert(st0.sq[tr * cols + tc] is Some);
    lemma_fwd_upto_cone(st0, tr, tc, st0.len());
    lemma_scan_pass_monotone(st0, ScanDir::Forward);
    lemma_scan_pass_monotone(st1, ScanDir::Backward);
    assert forall|k: int| 0 <= k < g.rows * g.cols implies #[trigger] transform_model(g)[k]
        != OutModel::Infinite by {
        lemma_order_in_bounds(st0, ScanDir::Forward, k);
        lemma_fundamental_div_mod(k, cols);
        let qr = k / cols;
        let qc = k % cols;
        assert(qr * cols + qc == k) by (nonlinear_arith)
            requires
                k == cols * qr + qc,
        ;
        if fwd_cone(tr, tc, qr, qc) {
            // Reached by the forward scan and kept by the backward one.
            assert(st1.sq[k] is Some) by {
                assert(st1.sq[qr * (st0.cols as int) + qc] is Some);
            }
            assert(st2.sq[k] is Some);
        } else {
            // Reached by the backward scan from the end of a row the
            // forward scan did fill: the target's own row if the cell
            // lies above it, the cell's row otherwise.
            let pr = if qr <= tr {
                tr
            } else {
                qr
            };
            let pc = cols - 1;
            assert(fwd_cone(tr, tc, pr, pc));
            assert(st1.sq[pr * (st0.cols as int) + pc] is Some) by {
                lemma_index_bound(pr, pc, rows, cols);
            }
            lemma_bwd_pass_cone(st1, pr, pc);
            assert(bwd_cone(pr, pc, qr, qc));
            assert(st2.sq[qr * (st1.cols as int) + qc] is Some);
        }
        assert(st2.sq[k] is Some);
    }
}

} // verus!
