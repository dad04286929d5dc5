//! The point symmetry of the two scans.
//!
//! Rotating the grid by 180 degrees reverses its row-major order, maps
//! the forward traversal onto the backward traversal, and maps each
//! forward neighbour slot onto the backward slot of the same rank, so
//! evaluation order and tie-breaking correspond exactly. The main
//! lemma makes that precise: a backward scan is a forward scan
//! conjugated by the rotation.

use vstd::prelude::*;
use crate::grid::lemma_index_bound;
use crate::model::{
    GridModel, ScanState, ScanDir, best_upto, candidate, scan_step, scan_upto, scan_pass,
    order_r, order_c, neighbor_r, neighbor_c, step_cost, sq_lt, init_state, finalize_model,
    transform_model,
};
use crate::bounds::{lemma_best_upto_sound, lemma_order_in_bounds};
use crate::laws::lemma_scan_upto_monotone;

verus! {

/// The reversal of a sequence.
pub open spec fn rev_seq<T>(s: Seq<T>) -> Seq<T> {
    Seq::new(s.len(), |k: int| s[s.len() - 1 - k])
}

/// A working state rotated by 180 degrees: same dimensions, every
/// grid read in reverse row-major order.
pub open spec fn rotate_state(st: ScanState) -> ScanState {
    ScanState {
        rows: st.rows,
        cols: st.cols,
        sq: rev_seq(st.sq),
        rx: rev_seq(st.rx),
        ry: rev_seq(st.ry),
    }
}

pub proof fn lemma_rotate_involutive(st: ScanState)
    ensures
        rotate_state(rotate_state(st)) == st,
{
    assert(rev_seq(rev_seq(st.sq)) =~= st.sq);
    assert(rev_seq(rev_seq(st.rx)) =~= st.rx);
    assert(rev_seq(rev_seq(st.ry)) =~= st.ry);
}

/// Point reflection of a row-major index.
pub proof fn lemma_reflect_idx(rows: int, cols: int, r: int, c: int)
    requires
        0 <= r < rows,
        0 <= c < cols,
    ensures
        (rows - 1 - r) * cols + (cols - 1 - c) == rows * cols - 1 - (r * cols + c),
{
    assert((rows - 1 - r) * cols + (cols - 1 - c) == rows * cols - 1 - (r * cols + c))
        by (nonlinear_arith);
}

/// A neighbour candidate is invariant under the rotation: slot `i` of
/// the backward scan at `(r, c)` sees what slot `i` of the forward
/// scan sees at the reflected cell of the rotated state.
proof fn lemma_candidate_conjugate(st: ScanState, r: int, c: int, i: int)
    requires
        st.wf(),
        st.in_bounds(r, c),
    ensures
        candidate(
            rotate_state(st),
            ScanDir::Forward,
            st.rows - 1 - r,
            st.cols - 1 - c,
            i,
        ) == candidate(st, ScanDir::Backward, r, c, i),
{
    let rot = rotate_state(st);
    let rows = st.rows as int;
    let cols = st.cols as int;
    let nr = neighbor_r(ScanDir::Backward, i, r);
    let nc = neighbor_c(ScanDir::Backward, i, c);
    let nr2 = neighbor_r(ScanDir::Forward, i, rows - 1 - r);
    let nc2 = neighbor_c(ScanDir::Forward, i, cols - 1 - c);
    assert(nr2 == rows - 1 - nr);
    assert(nc2 == cols - 1 - nc);
    if st.in_bounds(nr, nc) {
        lemma_index_bound(nr, nc, rows, cols);
        lemma_reflect_idx(rows, cols, nr, nc);
        let j = st.idx(nr, nc);
        let j2 = rot.idx(nr2, nc2);
        assert(j2 == rows * cols - 1 - j);
        assert(rot.sq[j2] == st.sq[j]);
        assert(rot.rx[j2] == st.rx[j]);
        assert(rot.ry[j2] == st.ry[j]);
        assert(step_cost(rot, j2, i) == step_cost(st, j, i));
    }
}

/// The slot minimum is invariant under the rotation, winning slot
/// included.
proof fn lemma_best_conjugate(st: ScanState, r: int, c: int, n: int)
    requires
        st.wf(),
        st.in_bounds(r, c),
    ensures
        best_upto(
            rotate_state(st),
            ScanDir::Forward,
            st.rows - 1 - r,
            st.cols - 1 - c,
            n,
        ) == best_upto(st, ScanDir::Backward, r, c, n),
    decreases n,
{
    if n > 0 {
        lemma_best_conjugate(st, r, c, n - 1);
        lemma_candidate_conjugate(st, r, c, n - 1);
    }
}

/// One backward cell visit is one forward cell visit of the rotated
/// state, at the reflected cell.
proof fn lemma_step_conjugate(st: ScanState, r: int, c: int)
    requires
        st.wf(),
        st.in_bounds(r, c),
    ensures
        scan_step(st, ScanDir::Backward, r, c) == rotate_state(
            scan_step(rotate_state(st), ScanDir::Forward, st.rows - 1 - r, st.cols - 1 - c),
        ),
{
    let rot = rotate_state(st);
    let rows = st.rows as int;
    let cols = st.cols as int;
    let r2 = rows - 1 - r;
    let c2 = cols - 1 - c;
    let k = st.idx(r, c);
    let k2 = rot.idx(r2, c2);
    lemma_index_bound(r, c, rows, cols);
    lemma_reflect_idx(rows, cols, r, c);
    assert(k2 == rows * cols - 1 - k);
    assert(rot.sq[k2] == st.sq[k]);
    let lhs = scan_step(st, ScanDir::Backward, r, c);
    let rhs_inner = scan_step(rot, ScanDir::Forward, r2, c2);
    if st.sq[k] == Some(0nat) {
        assert(lhs == st);
        assert(rhs_inner == rot);
        lemma_rotate_involutive(st);
    } else {
        lemma_best_conjugate(st, r, c, 4);
        let (zmin, w) = best_upto(st, ScanDir::Backward, r, c, 4);
        if sq_lt(zmin, st.sq[k]) {
            lemma_best_upto_sound(st, ScanDir::Backward, r, c, 4);
            let nr = neighbor_r(ScanDir::Backward, w, r);
            let nc = neighbor_c(ScanDir::Backward, w, c);
            lemma_index_bound(nr, nc, rows, cols);
            lemma_reflect_idx(rows, cols, nr, nc);
            let j = st.idx(nr, nc);
            let j2 = rot.idx(neighbor_r(ScanDir::Forward, w, r2), neighbor_c(ScanDir::Forward, w, c2));
            assert(j2 == rows * cols - 1 - j);
            assert(rot.rx[j2] == st.rx[j]);
            assert(rot.ry[j2] == st.ry[j]);
            assert(rev_seq(rhs_inner.sq) =~= lhs.sq);
            assert(rev_seq(rhs_inner.rx) =~= lhs.rx);
            assert(rev_seq(rhs_inner.ry) =~= lhs.ry);
        } else {
            assert(lhs == st);
            assert(rhs_inner == rot);
            lemma_rotate_involutive(st);
        }
    }
}

/// A prefix of a backward scan is a prefix of a forward scan of the
/// rotated state.
proof fn lemma_scan_upto_conjugate(st0: ScanState, t: nat)
    requires
        st0.wf(),
        t <= st0.len(),
    ensures
        scan_upto(st0, ScanDir::Backward, t) == rotate_state(
            scan_upto(rotate_state(st0), ScanDir::Forward, t),
        ),
    decreases t,
{
    let rot0 = rotate_state(st0);
    if t == 0 {
        lemma_rotate_involutive(st0);
    } else {
        lemma_scan_upto_conjugate(st0, (t - 1) as nat);
        let prev = scan_upto(st0, ScanDir::Backward, (t - 1) as nat);
        let prev2 = scan_upto(rot0, ScanDir::Forward, (t - 1) as nat);
        lemma_scan_upto_monotone(st0, ScanDir::Backward, (t - 1) as nat);
        lemma_rotate_involutive(prev2);
        assert(rotate_state(prev) == prev2);
        let r = order_r(st0, ScanDir::Backward, t - 1);
        let c = order_c(st0, ScanDir::Backward, t - 1);
        lemma_order_in_bounds(st0, ScanDir::Backward, t - 1);
        assert(order_r(rot0, ScanDir::Forward, t - 1) == st0.rows - 1 - r);
        assert(order_c(rot0, ScanDir::Forward, t - 1) == st0.cols - 1 - c);
        lemma_step_conjugate(prev, r, c);
    }
}

/// Rotation symmetry of the two scans: a whole backward scan equals a
/// whole forward scan of the grid rotated by 180 degrees, rotated
/// back. Traversal order, neighbour slots, evaluation order and
/// tie-breaking all correspond under the rotation, so the two passes
/// cannot drift apart.
pub proof fn lemma_backward_is_rotated_forward(st0: ScanState)
    requires
        st0.wf(),
    ensures
        scan_pass(st0, ScanDir::Backward) == rotate_state(
            scan_pass(rotate_state(st0), ScanDir::Forward),
        ),
{
    lemma_scan_upto_conjugate(st0, st0.len());
}

/// An input grid rotated by 180 degrees.
pub open spec fn rotate_grid(g: GridModel) -> GridModel {
    GridModel { rows: g.rows, cols: g.cols, cells: rev_seq(g.cells) }
}

/// Rotation symmetry of the whole transform: running it on the
/// rotated input gives the rotation of the result obtained on the
/// original input with the two scans in the opposite order — the
/// rotation exchanges the roles of the forward and the backward scan.
pub proof fn lemma_transform_rotated(g: GridModel)
    requires
        g.wf(),
    ensures
        transform_model(rotate_grid(g)) == rev_seq(
            finalize_model(
                g,
                scan_pass(scan_pass(init_state(g), ScanDir::Backward), ScanDir::Forward),
            ),
        ),
{
    let i0 = init_state(g);
    let irot = init_state(rotate_grid(g));
    assert(irot.sq =~= rotate_state(i0).sq);
    assert(irot.rx =~= rotate_state(i0).rx);
    assert(irot.ry =~= rotate_state(i0).ry);
    assert(irot == rotate_state(i0));
    // The forward scan of the rotated start is the rotated backward scan.
    lemma_backward_is_rotated_forward(i0);
    let b = scan_pass(i0, ScanDir::Backward);
    lemma_rotate_involutive(scan_pass(rotate_state(i0), ScanDir::Forward));
    assert(scan_pass(irot, ScanDir::Forward) == rotate_state(b));
    // The backward scan applied to that is the rotated forward scan of `b`.
    lemma_scan_upto_monotone(i0, ScanDir::Backward, i0.len());
    lemma_rotate_involutive(b);
    lemma_backward_is_rotated_forward(rotate_state(b));
    assert(scan_pass(rotate_state(b), ScanDir::Backward) == rotate_state(
        scan_pass(b, ScanDir::Forward),
    ));
    let fin = scan_pass(b, ScanDir::Forward);
    // Finalizing under the rotated mask is the rotation of finalizing.
    lemma_scan_upto_monotone(b, ScanDir::Forward, b.len());
    assert(finalize_model(rotate_grid(g), rotate_state(fin)) =~= rev_seq(
        finalize_model(g, fin),
    ));
}

} // verus!
