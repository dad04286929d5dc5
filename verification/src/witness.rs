//! Soundness of the reported distances.
//!
//! A cell's offset vector bounds, component by component, the
//! displacement to a real target cell of the input: each scan hands a
//! cell its neighbour's witness target, moving at most one row and one
//! column. Since a finite squared distance is the squared norm of the
//! offset vector, wherever the transform reports a finite value `v`
//! there really is a target within squared Euclidean distance `v`.

use vstd::prelude::*;
use vstd::arithmetic::div_mod::lemma_fundamental_div_mod;
use crate::grid::{Cell, lemma_index_bound};
use crate::model::{
    GridModel, OutModel, ScanState, ScanDir, best_upto, scan_step, scan_upto, scan_pass,
    init_state, transform_model, order_r, order_c, neighbor_r, neighbor_c, step_x, step_y,
    sq_lt,
};
use crate::laws::lemma_scan_upto_monotone;
use crate::bounds::{
    bounded_at, lemma_init_state_bounded, lemma_scan_upto_bounded, lemma_best_upto_sound,
    lemma_order_in_bounds,
};

verus! {

/// `(tr, tc)` is a target cell of `g` whose displacement from the
/// cell at index `k` is bounded, component by component, by the
/// offset vector recorded at `k`.
pub open spec fn cell_witness(g: GridModel, st: ScanState, k: int, tr: int, tc: int) -> bool {
    let r = k / (g.cols as int);
    let c = k % (g.cols as int);
    &&& 0 <= tr < g.rows
    &&& 0 <= tc < g.cols
    &&& g.cells[tr * g.cols + tc] == Cell::Target
    &&& -(st.ry[k] as int) <= r - tr <= st.ry[k]
    &&& -(st.rx[k] as int) <= c - tc <= st.rx[k]
}

/// Every cell holding a finite squared distance has a witness target.
pub open spec fn witnessed(g: GridModel, st: ScanState) -> bool {
    forall|k: int|
        0 <= k < st.len() && #[trigger] st.sq[k] is Some ==> exists|tr: int, tc: int|
            cell_witness(g, st, k, tr, tc)
}

/// The row-major index of an in-bounds cell splits back into its row
/// and column.
proof fn lemma_idx_split(rows: int, cols: int, r: int, c: int)
    requires
        0 <= r < rows,
        0 <= c < cols,
    ensures
        (r * cols + c) / cols == r,
        (r * cols + c) % cols == c,
{
    vstd::arithmetic::div_mod::lemma_fundamental_div_mod_converse(r * cols + c, cols, r, c);
}

/// The starting state is witnessed: every finite cell is itself a
/// target, at displacement zero.
proof fn lemma_init_witnessed(g: GridModel)
    requires
        g.wf(),
    ensures
        witnessed(g, init_state(g)),
{
    let st = init_state(g);
    let cols = g.cols as int;
    assert forall|k: int| 0 <= k < st.len() && #[trigger] st.sq[k] is Some implies exists|
        tr: int,
        tc: int,
    | cell_witness(g, st, k, tr, tc) by {
        lemma_order_in_bounds(st, ScanDir::Forward, k);
        lemma_fundamental_div_mod(k, cols);
        let r = k / cols;
        let c = k % cols;
        assert(0 <= r < g.rows && 0 <= c < cols);
        assert(r * cols + c == k) by (nonlinear_arith)
            requires
                k == cols * r + c,
        ;
        assert(g.cells[k] == Cell::Target);
        assert(cell_witness(g, st, k, r, c));
    }
}

/// One cell visit keeps every cell witnessed: an updated cell takes
/// over its winning neighbour's witness, one unit step away.
proof fn lemma_step_witnessed(g: GridModel, st: ScanState, d: ScanDir, r: int, c: int)
    requires
        g.wf(),
        st.wf(),
        st.rows == g.rows,
        st.cols == g.cols,
        st.in_bounds(r, c),
        witnessed(g, st),
    ensures
        witnessed(g, scan_step(st, d, r, c)),
{
    let st2 = scan_step(st, d, r, c);
    let cols = g.cols as int;
    let k = st.idx(r, c);
    lemma_index_bound(r, c, st.rows as int, st.cols as int);
    if st.sq[k] != Some(0nat) {
        let (zmin, w) = best_upto(st, d, r, c, 4);
        if sq_lt(zmin, st.sq[k]) {
            lemma_best_upto_sound(st, d, r, c, 4);
            let nr = neighbor_r(d, w, r);
            let nc = neighbor_c(d, w, c);
            lemma_index_bound(nr, nc, st.rows as int, st.cols as int);
            let j = st.idx(nr, nc);
            assert(st.sq[j] is Some);
            let (tr, tc) = choose|tr: int, tc: int| cell_witness(g, st, j, tr, tc);
            lemma_idx_split(st.rows as int, cols, r, c);
            lemma_idx_split(st.rows as int, cols, nr, nc);
            assert(cell_witness(g, st2, k, tr, tc)) by {
                assert(st2.ry[k] == st.ry[j] + step_y(w));
                assert(st2.rx[k] == st.rx[j] + step_x(w));
                assert(if w == 0 {
                    nr == r
                } else {
                    nr == r - 1 || nr == r + 1
                });
                assert(if w == 2 {
                    nc == c
                } else {
                    nc == c - 1 || nc == c + 1
                });
            }
            assert forall|k2: int|
                0 <= k2 < st2.len() && #[trigger] st2.sq[k2] is Some implies exists|
                tr2: int,
                tc2: int,
            | cell_witness(g, st2, k2, tr2, tc2) by {
                if k2 == k {
                    assert(cell_witness(g, st2, k, tr, tc));
                } else {
                    assert(st.sq[k2] is Some);
                    let (tr2, tc2) = choose|tr2: int, tc2: int|
                        cell_witness(g, st, k2, tr2, tc2);
                    assert(cell_witness(g, st2, k2, tr2, tc2));
                }
            }
        }
    }
}

/// A whole scan keeps every cell witnessed.
proof fn lemma_scan_upto_witnessed(g: GridModel, st0: ScanState, d: ScanDir, t: nat)
    requires
        g.wf(),
        st0.wf(),
        st0.rows == g.rows,
        st0.cols == g.cols,
        t <= st0.len(),
        witnessed(g, st0),
    ensures
        witnessed(g, scan_upto(st0, d, t)),
    decreases t,
{
    if t > 0 {
        lemma_scan_upto_witnessed(g, st0, d, (t - 1) as nat);
        let prev = scan_upto(st0, d, (t - 1) as nat);
        lemma_scan_upto_monotone(st0, d, (t - 1) as nat);
        lemma_order_in_bounds(st0, d, t - 1);
        lemma_step_witnessed(g, prev, d, order_r(st0, d, t - 1), order_c(st0, d, t - 1));
    }
}

/// Componentwise bounds on a displacement bound its squared norm.
proof fn lemma_norm_bound(dr: int, dc: int, ry: nat, rx: nat)
    requires
        -(ry as int) <= dr <= ry,
        -(rx as int) <= dc <= rx,
    ensures
        dr * dr + dc * dc <= rx * rx + ry * ry,
{
    assert(dr * dr + dc * dc <= rx * rx + ry * ry) by (nonlinear_arith)
        requires
            -(ry as int) <= dr <= ry,
            -(rx as int) <= dc <= rx,
    ;
}

/// There is a target cell of `g` within squared Euclidean distance
/// `v` of the cell at row-major index `k`.
pub open spec fn target_within(g: GridModel, k: int, v: nat) -> bool {
    exists|tr: int, tc: int|
        {
            let r = k / (g.cols as int);
            let c = k % (g.cols as int);
            &&& 0 <= tr < g.rows
            &&& 0 <= tc < g.cols
            &&& #[trigger] g.cells[tr * g.cols + tc] == Cell::Target
            &&& (r - tr) * (r - tr) + (c - tc) * (c - tc) <= v
        }
}

/// Soundness of the transform: wherever it reports a finite squared
/// distance `v`, a real target of the input lies within squared
/// Euclidean distance `v` — the reported distance is never less than
/// the distance to the nearest target.
pub proof fn lemma_output_reaches_target(g: GridModel)
    requires
        g.wf(),
    ensures
        forall|k: int|
            0 <= k < g.rows * g.cols && (#[trigger] transform_model(g)[k]) is Finite
                ==> target_within(g, k, transform_model(g)[k]->Finite_0),
{
    let st0 = init_state(g);
    let st1 = scan_pass(st0, ScanDir::Forward);
    let st2 = scan_pass(st1, ScanDir::Backward);
    lemma_init_state_bounded(g);
    lemma_scan_upto_bounded(st0, ScanDir::Forward, 0, st0.len());
    lemma_scan_upto_bounded(st1, ScanDir::Backward, st0.len(), st1.len());
    lemma_init_witnessed(g);
    lemma_scan_upto_witnessed(g, st0, ScanDir::Forward, st0.len());
    lemma_scan_upto_witnessed(g, st1, ScanDir::Backward, st1.len());
    assert forall|k: int|
        0 <= k < g.rows * g.cols && (#[trigger] transform_model(g)[k]) is Finite
        implies target_within(g, k, transform_model(g)[k]->Finite_0) by {
        let v = transform_model(g)[k]->Finite_0;
        assert(st2.sq[k] == Some(v));
        assert(bounded_at(st2, (2 * st0.len()) as nat, k));
        let (tr, tc) = choose|tr: int, tc: int| cell_witness(g, st2, k, tr, tc);
        let r = k / (g.cols as int);
        let c = k % (g.cols as int);
        lemma_norm_bound(r - tr, c - tc, st2.ry[k], st2.rx[k]);
    }
}

} // verus!
