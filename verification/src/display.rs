//! The layout of a board drawn as text: an N-dimensional board is drawn as nested 2-D
//! grids, odd axes laid side by side and even axes stacked, with labels on the top row
//! and left column of grids.
use vstd::prelude::*;
use crate::representation::{cell_count, lemma_cell_count_monotone};

verus! {

/// The flag index of a grid's place: 2 when it is on the top row, plus 1 when it is in
/// the left column.
pub open spec fn flag_of(is_top: bool, is_left: bool) -> nat {
    (if is_top { 2nat } else { 0 }) + (if is_left { 1nat } else { 0 })
}

/// Width, height and the offsets of the content within, of a board of `d` axes of `side`
/// squares drawn at a place with flag `f` (top row: `f >= 2`; left column: `f` odd).
pub open spec fn metric(d: nat, side: nat, f: nat) -> (int, int, int, int)
    decreases d,
{
    let is_top = f >= 2;
    let is_left = f % 2 == 1;
    if d == 0 {
        (1, 1, 0, 0)
    } else if d == 1 {
        (side as int, 1, 0, 0)
    } else if d == 2 {
        let lw: int = if is_left { 2 } else { 0 };
        let lh: int = if is_top { 1 } else { 0 };
        (2 * side - 1 + lw, side + lh, lw, lh)
    } else {
        let c0 = metric((d - 1) as nat, side, f);
        let other = metric((d - 1) as nat, side, 0);
        if d % 2 != 0 {
            let lh: int = if is_top { 1 } else { 0 };
            (c0.0 + (side - 1) * (other.0 + 2), c0.1 + lh, c0.2, lh + c0.3)
        } else {
            let lw: int = if is_left { 2 } else { 0 };
            let wmax = if c0.0 >= other.0 { c0.0 } else { other.0 };
            (wmax + lw, c0.1 + (side - 1) * (other.1 + 1), lw + c0.2, c0.3)
        }
    }
}

/// Every metric up to `max_dim` axes fits in a `usize`, with room for the gap between
/// grids.
pub open spec fn metrics_fit(max_dim: nat, side: nat) -> bool {
    &&& max_dim < usize::MAX
    &&& forall|d: nat, f: nat|
        d <= max_dim && f < 4 ==> #[trigger] metric(d, side, f).0 + 2 <= usize::MAX && metric(d, side, f).1
            + 1 <= usize::MAX
}

/// The metrics are positive, and the offsets lie within the size.
proof fn lemma_metric_shape(d: nat, side: nat, f: nat)
    requires
        side >= 1,
        f < 4,
    ensures
        1 <= metric(d, side, f).0,
        1 <= metric(d, side, f).1,
        0 <= metric(d, side, f).2 <= metric(d, side, f).0,
        0 <= metric(d, side, f).3 <= metric(d, side, f).1,
    decreases d,
{
    if d >= 3 {
        lemma_metric_shape((d - 1) as nat, side, f);
        lemma_metric_shape((d - 1) as nat, side, 0);
        let other = metric((d - 1) as nat, side, 0);
        assert((side - 1) * (other.0 + 2) >= 0 && (side - 1) * (other.1 + 1) >= 0) by (nonlinear_arith)
            requires
                side >= 1,
                other.0 >= 1,
                other.1 >= 1,
        ;
    }
}

/// Which grid place a flag index stands for.
pub fn flag_index(is_top: bool, is_left: bool) -> (r: usize)
    ensures
        r == flag_of(is_top, is_left),
{
    (if is_top { 2 } else { 0 }) + (if is_left { 1 } else { 0 })
}

/// The metrics of every number of axes up to `max_dim`, for each flag index (see
/// `metric`).
pub fn build_metrics_table(max_dim: usize, side: usize) -> (r: Vec<[(usize, usize, usize, usize); 4]>)
    requires
        side >= 1,
        metrics_fit(max_dim as nat, side as nat),
    ensures
        r.len() == max_dim + 1,
        forall|d: int, f: int|
            0 <= d <= max_dim && 0 <= f < 4 ==> {
                let m = metric(d as nat, side as nat, f as nat);
                &&& (#[trigger] r@[d]@[f]).0 == m.0
                &&& r@[d]@[f].1 == m.1
                &&& r@[d]@[f].2 == m.2
                &&& r@[d]@[f].3 == m.3
            },
{
    let mut result: Vec<[(usize, usize, usize, usize); 4]> = Vec::new();
    result.push([(1, 1, 0, 0); 4]);
    proof {
        assert forall|f: int| 0 <= f < 4 implies (#[trigger] result@[0]@[f]).0 == metric(0, side as nat, f as nat).0 by {}
    }
    if max_dim == 0 {
        return result;
    }
    result.push([(side, 1, 0, 0); 4]);
    if max_dim == 1 {
        return result;
    }
    proof {
        assert(metrics_fit(max_dim as nat, side as nat));
        assert(metric(2, side as nat, 3).0 + 2 <= usize::MAX);
        assert(metric(2, side as nat, 3).1 + 1 <= usize::MAX);
    }
    let w2 = side * 2 - 1;
    let dim2 = [(w2, side, 0, 0), (w2 + 2, side, 2, 0), (w2, side + 1, 0, 1), (w2 + 2, side + 1, 2, 1)];
    result.push(dim2);
    let mut d: usize = 3;
    while d <= max_dim
        invariant
            side >= 1,
            2 <= max_dim,
            3 <= d <= max_dim + 1,
            metrics_fit(max_dim as nat, side as nat),
            result.len() == d,
            forall|dd: int, f: int|
                0 <= dd < d && 0 <= f < 4 ==> {
                    let m = metric(dd as nat, side as nat, f as nat);
                    &&& (#[trigger] result@[dd]@[f]).0 == m.0
                    &&& result@[dd]@[f].1 == m.1
                    &&& result@[dd]@[f].2 == m.2
                    &&& result@[dd]@[f].3 == m.3
                },
        decreases max_dim + 1 - d,
    {
        let prev = result[d - 1];
        let mut entry: [(usize, usize, usize, usize); 4] = [(0, 0, 0, 0); 4];
        let mut f: usize = 0;
        while f < 4
            invariant
                side >= 1,
                3 <= d <= max_dim,
                metrics_fit(max_dim as nat, side as nat),
                f <= 4,
                forall|g: int|
                    0 <= g < 4 ==> {
                        let m = metric((d - 1) as nat, side as nat, g as nat);
                        &&& (#[trigger] prev@[g]).0 == m.0
                        &&& prev@[g].1 == m.1
                        &&& prev@[g].2 == m.2
                        &&& prev@[g].3 == m.3
                    },
                forall|g: int|
                    0 <= g < f ==> {
                        let m = metric(d as nat, side as nat, g as nat);
                        &&& (#[trigger] entry@[g]).0 == m.0
                        &&& entry@[g].1 == m.1
                        &&& entry@[g].2 == m.2
                        &&& entry@[g].3 == m.3
                    },
            decreases 4 - f,
        {
            let is_top = f & 2 != 0;
            let is_left = f & 1 != 0;
            assert(is_top == (f >= 2) && is_left == (f % 2 == 1)) by (bit_vector)
                requires
                    f < 4,
                    is_top == (f & 2 != 0),
                    is_left == (f & 1 != 0),
            ;
            let (c0_w, c0_h, c0_off_x, c0_off_y) = prev[f];
            let (other_w, other_h, _, _) = prev[0];
            proof {
                lemma_metric_shape((d - 1) as nat, side as nat, f as nat);
                lemma_metric_shape((d - 1) as nat, side as nat, 0);
                let m = metric(d as nat, side as nat, f as nat);
                assert(metric(d as nat, side as nat, f as nat).0 + 2 <= usize::MAX);
                assert(metric(d as nat, side as nat, f as nat).1 + 1 <= usize::MAX);
                assert(metric((d - 1) as nat, side as nat, 0).0 + 2 <= usize::MAX);
                assert(metric((d - 1) as nat, side as nat, 0).1 + 1 <= usize::MAX);
                assert((side - 1) * (other_w + 2) >= 0 && (side - 1) * (other_h + 1) >= 0) by (nonlinear_arith)
                    requires
                        side >= 1,
                ;
            }
            if d % 2 != 0 {
                let label_h: usize = if is_top { 1 } else { 0 };
                let gap: usize = 2;
                let total_w = c0_w + (side - 1) * (other_w + gap);
                let total_h = c0_h + label_h;
                entry[f] = (total_w, total_h, c0_off_x, label_h + c0_off_y);
            } else {
                let label_w: usize = if is_left { 2 } else { 0 };
                let max_child_w = if c0_w >= other_w { c0_w } else { other_w };
                let total_w = max_child_w + label_w;
                let total_h = c0_h + (side - 1) * (other_h + 1);
                entry[f] = (total_w, total_h, label_w + c0_off_x, c0_off_y);
            }
            f += 1;
        }
        result.push(entry);
        d += 1;
    }
    result
}

/// The metrics of a board of `dim` axes of `side` squares drawn at a place with the given
/// flags (see `metric`).
pub fn calculate_metrics(dim: usize, side: usize, is_top: bool, is_left: bool) -> (r: (usize, usize, usize, usize))
    requires
        side >= 1,
        metrics_fit(dim as nat, side as nat),
    ensures
        r.0 == metric(dim as nat, side as nat, flag_of(is_top, is_left)).0,
        r.1 == metric(dim as nat, side as nat, flag_of(is_top, is_left)).1,
        r.2 == metric(dim as nat, side as nat, flag_of(is_top, is_left)).2,
        r.3 == metric(dim as nat, side as nat, flag_of(is_top, is_left)).3,
{
    let table = build_metrics_table(dim, side);
    let f = flag_index(is_top, is_left);
    table[dim][f]
}

proof fn lemma_metric_growth(d: nat, side: nat, f: nat)
    requires
        side >= 1,
        f < 4,
    ensures
        metric(d, side, f).0 + 2 <= 8 * cell_count(side, (d + 1) / 2) * (d + 1),
        metric(d, side, f).1 + 1 <= 8 * cell_count(side, d / 2) * (d + 1),
    decreases d,
{
    lemma_metric_shape(d, side, f);
    let w = metric(d, side, f).0;
    let h = metric(d, side, f).1;
    let a = cell_count(side, (d + 1) / 2);
    let b = cell_count(side, d / 2);
    crate::geometry::lemma_cell_count_pos(side, (d + 1) / 2);
    crate::geometry::lemma_cell_count_pos(side, d / 2);
    reveal_with_fuel(cell_count, 2);
    assert(cell_count(side, 0) == 1);
    assert(cell_count(side, 1) == side * cell_count(side, 0));
    assert(cell_count(side, 1) == side) by (nonlinear_arith)
        requires
            cell_count(side, 1) == side * cell_count(side, 0),
            cell_count(side, 0) == 1,
    ;
    if d == 0 {
        assert(w + 2 <= 8 * a * (d + 1) && h + 1 <= 8 * b * (d + 1)) by (nonlinear_arith)
            requires
                d == 0,
                w == 1,
                h == 1,
                a == 1,
                b == 1,
        ;
    } else if d == 1 {
        assert(w + 2 <= 8 * a * (d + 1) && h + 1 <= 8 * b * (d + 1)) by (nonlinear_arith)
            requires
                d == 1,
                w == side,
                h == 1,
                a == side,
                b == 1,
                side >= 1,
        ;
    } else if d == 2 {
        assert(w + 2 <= 8 * a * (d + 1) && h + 1 <= 8 * b * (d + 1)) by (nonlinear_arith)
            requires
                d == 2,
                w <= 2 * side + 1,
                h <= side + 1,
                a == side,
                b == side,
                side >= 1,
        ;
    } else {
        lemma_metric_growth((d - 1) as nat, side, f);
        lemma_metric_growth((d - 1) as nat, side, 0);
        lemma_metric_shape((d - 1) as nat, side, 0);
        let c0 = metric((d - 1) as nat, side, f);
        let other = metric((d - 1) as nat, side, 0);
        if d % 2 != 0 {
            let k = ((d - 1) / 2) as nat;
            assert((d - 1 + 1) / 2 == k && (d + 1) / 2 == k + 1 && (d - 1) / 2 == k && d / 2 == k);
            let p = cell_count(side, k);
            crate::geometry::lemma_cell_count_pos(side, k);
            assert(a == side * p);
            assert(b == p);
            assert(w + 2 <= 8 * a * (d + 1) && h + 1 <= 8 * b * (d + 1)) by (nonlinear_arith)
                requires
                    c0.0 + 2 <= 8 * p * d,
                    other.0 + 2 <= 8 * p * d,
                    c0.1 + 1 <= 8 * p * d,
                    w == c0.0 + (side - 1) * (other.0 + 2),
                    h <= c0.1 + 1,
                    a == side * p,
                    b == p,
                    side >= 1,
                    p >= 1,
                    other.0 >= 0,
            ;
        } else {
            let k = (d / 2) as nat;
            assert((d - 1 + 1) / 2 == k && (d + 1) / 2 == k && (d - 1) / 2 == k - 1 && d / 2 == k);
            let q = cell_count(side, (k - 1) as nat);
            crate::geometry::lemma_cell_count_pos(side, (k - 1) as nat);
            crate::geometry::lemma_cell_count_pos(side, k);
            assert(b == side * q);
            assert(w + 2 <= 8 * a * (d + 1) && h + 1 <= 8 * b * (d + 1)) by (nonlinear_arith)
                requires
                    c0.0 + 2 <= 8 * a * d,
                    other.0 + 2 <= 8 * a * d,
                    c0.1 + 1 <= 8 * q * d,
                    other.1 + 1 <= 8 * q * d,
                    w <= (if c0.0 >= other.0 { c0.0 } else { other.0 }) + 2,
                    h == c0.1 + (side - 1) * (other.1 + 1),
                    b == side * q,
                    side >= 1,
                    q >= 1,
                    a >= 1,
                    other.1 >= 0,
            ;
        }
    }
}

/// On every board shape this library handles, the drawing's metrics fit in a `usize`.
pub proof fn lemma_shape_metrics_fit(dim: nat, side: nat)
    requires
        crate::geometry::shape_ok(dim, side),
    ensures
        metrics_fit(dim, side),
{
    assert forall|d: nat, f: nat| d <= dim && f < 4 implies #[trigger] metric(d, side, f).0 + 2
        <= usize::MAX && metric(d, side, f).1 + 1 <= usize::MAX by {
        lemma_metric_growth(d, side, f);
        lemma_cell_count_monotone(side, (d + 1) / 2, dim);
        lemma_cell_count_monotone(side, d / 2, dim);
        assert(8 * cell_count(side, (d + 1) / 2) * (d + 1) <= 8 * (64 * 65536) * 17) by (nonlinear_arith)
            requires
                cell_count(side, (d + 1) / 2) <= 64 * 65536,
                d + 1 <= 17,
        ;
        assert(8 * cell_count(side, d / 2) * (d + 1) <= 8 * (64 * 65536) * 17) by (nonlinear_arith)
            requires
                cell_count(side, d / 2) <= 64 * 65536,
                d + 1 <= 17,
        ;
    }
}

} // verus!
