//! General properties of the transform, stated over the model and
//! proved once and for all.

use vstd::prelude::*;
use crate::grid::{Cell, lemma_index_bound};
use crate::model::{
    GridModel, OutModel, ScanState, ScanDir, best_upto, candidate, scan_step, scan_upto,
    scan_pass, init_state, transform_model, order_r, order_c, neighbor_r, neighbor_c, sq_le,
    sq_lt,
};
use crate::bounds::lemma_order_in_bounds;

verus! {

/// One cell visit never raises any cell's squared distance.
pub proof fn lemma_scan_step_monotone(st: ScanState, d: ScanDir, r: int, c: int)
    requires
        st.wf(),
        st.in_bounds(r, c),
    ensures
        ({
            let st2 = scan_step(st, d, r, c);
            &&& st2.rows == st.rows
            &&& st2.cols == st.cols
            &&& st2.wf()
            &&& forall|k: int| 0 <= k < st.len() ==> sq_le(#[trigger] st2.sq[k], st.sq[k])
        }),
{
    let st2 = scan_step(st, d, r, c);
    let k = st.idx(r, c);
    lemma_index_bound(r, c, st.rows as int, st.cols as int);
    if st.sq[k] != Some(0nat) {
        let (zmin, w) = best_upto(st, d, r, c, 4);
        if sq_lt(zmin, st.sq[k]) {
            assert forall|k2: int| 0 <= k2 < st.len() implies sq_le(
                #[trigger] st2.sq[k2],
                st.sq[k2],
            ) by {
                if k2 == k {
                    assert(st2.sq[k] == zmin);
                }
            }
        }
    }
}

/// A prefix of a scan never raises any cell's squared distance.
pub proof fn lemma_scan_upto_monotone(st0: ScanState, d: ScanDir, t: nat)
    requires
        st0.wf(),
        t <= st0.len(),
    ensures
        ({
            let st = scan_upto(st0, d, t);
            &&& st.rows == st0.rows
            &&& st.cols == st0.cols
            &&& st.wf()
            &&& forall|k: int| 0 <= k < st0.len() ==> sq_le(#[trigger] st.sq[k], st0.sq[k])
        }),
    decreases t,
{
    if t > 0 {
        lemma_scan_upto_monotone(st0, d, (t - 1) as nat);
        let prev = scan_upto(st0, d, (t - 1) as nat);
        let st = scan_upto(st0, d, t);
        lemma_order_in_bounds(st0, d, t - 1);
        lemma_scan_step_monotone(prev, d, order_r(st0, d, t - 1), order_c(st0, d, t - 1));
        assert forall|k: int| 0 <= k < st0.len() implies sq_le(
            #[trigger] st.sq[k],
            st0.sq[k],
        ) by {
            assert(sq_le(st.sq[k], prev.sq[k]));
            assert(sq_le(prev.sq[k], st0.sq[k]));
        }
    }
}

/// Monotonic correction: a whole scan never raises any cell's squared
/// distance. In particular, the backward scan's output is, cell for
/// cell, at most the forward scan's output it started from, and no
/// pass ever re-raises a value once lowered.
pub proof fn lemma_scan_pass_monotone(st0: ScanState, d: ScanDir)
    requires
        st0.wf(),
    ensures
        ({
            let st = scan_pass(st0, d);
            &&& st.rows == st0.rows
            &&& st.cols == st0.cols
            &&& st.wf()
            &&& forall|k: int| 0 <= k < st0.len() ==> sq_le(#[trigger] st.sq[k], st0.sq[k])
        }),
{
    lemma_scan_upto_monotone(st0, d, st0.len());
}

/// All-target invariant: when every non-missing cell of the input is
/// a target, the transform yields squared distance 0 at every
/// non-missing cell.
pub proof fn lemma_all_targets_zero(g: GridModel)
    requires
        g.wf(),
        forall|k: int|
            0 <= k < g.cells.len() && #[trigger] g.cells[k] != Cell::Missing ==> g.cells[k]
                == Cell::Target,
    ensures
        forall|k: int|
            0 <= k < g.cells.len() && #[trigger] g.cells[k] != Cell::Missing
                ==> transform_model(g)[k] == OutModel::Finite(0),
{
    let st0 = init_state(g);
    let st1 = scan_pass(st0, ScanDir::Forward);
    let st2 = scan_pass(st1, ScanDir::Backward);
    lemma_scan_pass_monotone(st0, ScanDir::Forward);
    lemma_scan_pass_monotone(st1, ScanDir::Backward);
    assert forall|k: int|
        0 <= k < g.cells.len() && #[trigger] g.cells[k] != Cell::Missing implies transform_model(
        g,
    )[k] == OutModel::Finite(0) by {
        assert(st0.sq[k] == Some(0nat));
        assert(sq_le(st1.sq[k], st0.sq[k]));
        assert(sq_le(st2.sq[k], st1.sq[k]));
        assert(st2.sq[k] == Some(0nat));
    }
}

/// When every cell's squared distance is infinite, no neighbour offers
/// any candidate.
proof fn lemma_best_upto_all_inf(st: ScanState, d: ScanDir, r: int, c: int, n: int)
    requires
        st.wf(),
        forall|k: int| 0 <= k < st.len() ==> #[trigger] st.sq[k] is None,
    ensures
        best_upto(st, d, r, c, n).0 is None,
    decreases n,
{
    if n > 0 {
        lemma_best_upto_all_inf(st, d, r, c, n - 1);
        let nr = neighbor_r(d, n - 1, r);
        let nc = neighbor_c(d, n - 1, c);
        if st.in_bounds(nr, nc) {
            lemma_index_bound(nr, nc, st.rows as int, st.cols as int);
            assert(st.sq[st.idx(nr, nc)] is None);
        }
        assert(candidate(st, d, r, c, n - 1) is None);
    }
}

/// An all-infinite state is a fixed point of a scan.
proof fn lemma_scan_upto_all_inf(st0: ScanState, d: ScanDir, t: nat)
    requires
        st0.wf(),
        t <= st0.len(),
        forall|k: int| 0 <= k < st0.len() ==> #[trigger] st0.sq[k] is None,
    ensures
        scan_upto(st0, d, t) == st0,
    decreases t,
{
    if t > 0 {
        lemma_scan_upto_all_inf(st0, d, (t - 1) as nat);
        let r = order_r(st0, d, t - 1);
        let c = order_c(st0, d, t - 1);
        lemma_order_in_bounds(st0, d, t - 1);
        lemma_index_bound(r, c, st0.rows as int, st0.cols as int);
        lemma_best_upto_all_inf(st0, d, r, c, 4);
        assert(scan_step(st0, d, r, c) == st0);
    }
}

/// All-background invariant: when no cell of the input is a target,
/// the transform yields infinity at every non-missing cell.
pub proof fn lemma_no_targets_infinite(g: GridModel)
    requires
        g.wf(),
        forall|k: int| 0 <= k < g.cells.len() ==> #[trigger] g.cells[k] != Cell::Target,
    ensures
        forall|k: int|
            0 <= k < g.cells.len() && #[trigger] g.cells[k] != Cell::Missing
                ==> transform_model(g)[k] == OutModel::Infinite,
{
    let st0 = init_state(g);
    assert(forall|k: int| 0 <= k < st0.len() ==> #[trigger] st0.sq[k] is None);
    lemma_scan_upto_all_inf(st0, ScanDir::Forward, st0.len());
    assert(scan_pass(st0, ScanDir::Forward) == st0);
    lemma_scan_upto_all_inf(st0, ScanDir::Backward, st0.len());
    assert(scan_pass(st0, ScanDir::Backward) == st0);
}

/// Missing-data propagation: a missing input cell is missing in the
/// output, whatever the targets around it.
pub proof fn lemma_missing_propagation(g: GridModel)
    requires
        g.wf(),
    ensures
        forall|k: int|
            0 <= k < g.cells.len() && #[trigger] g.cells[k] == Cell::Missing
                ==> transform_model(g)[k] == OutModel::Missing,
{
}

} // verus!
