//! Integer rectangles and the shared proportional-subdivision primitive.
//!
//! A span of `size` units starting at `pos` is split among weighted segments
//! by a running cursor: segment `k` starts at
//! `pos + size * (ws[0] + .. + ws[k-1]) / total`. Every boundary is a
//! function of the cumulative weight, so the segments tile the span exactly:
//! the first starts at `pos`, the last ends at `pos + size`, and consecutive
//! segments share a boundary. Any rounding remainder is absorbed by the last
//! segment. The same primitive serves the weighted layout tree and the
//! time-proportional icicle plan.

use vstd::arithmetic::div_mod::{lemma_div_by_multiple, lemma_div_is_ordered};
use vstd::arithmetic::mul::lemma_mul_inequality;
use vstd::prelude::*;

verus! {

/// An axis-aligned rectangle in integer units.
#[derive(Clone, Copy, Debug, PartialEq, Eq, Structural)]
pub struct Rect {
    pub x: u64,
    pub y: u64,
    pub w: u64,
    pub h: u64,
}

impl Rect {
    /// The corners stay representable, so subdivision arithmetic on the
    /// rectangle cannot overflow.
    pub open spec fn wf(self) -> bool {
        &&& self.x + self.w <= u64::MAX
        &&& self.y + self.h <= u64::MAX
    }
}

/// Sum of the first `k` weights.
pub open spec fn sum_prefix(ws: Seq<int>, k: int) -> int
    decreases k,
{
    if k <= 0 {
        0
    } else {
        sum_prefix(ws, k - 1) + ws[k - 1]
    }
}

/// Sum of all weights.
pub open spec fn sum_all(ws: Seq<int>) -> int {
    sum_prefix(ws, ws.len() as int)
}

pub open spec fn all_nonneg(ws: Seq<int>) -> bool {
    forall|i: int| 0 <= i < ws.len() ==> ws[i] >= 0
}

/// The running-cursor boundary: the start of segment `k` when `size` units
/// beginning at `pos` are divided proportionally among the weights.
pub open spec fn seg_bound(pos: int, size: int, ws: Seq<int>, k: int) -> int {
    pos + size * sum_prefix(ws, k) / sum_all(ws)
}

/// The width of segment `k`.
pub open spec fn seg_width(pos: int, size: int, ws: Seq<int>, k: int) -> int {
    seg_bound(pos, size, ws, k + 1) - seg_bound(pos, size, ws, k)
}

pub proof fn lemma_sum_prefix_bounds(ws: Seq<int>, k: int)
    requires
        all_nonneg(ws),
        0 <= k <= ws.len(),
    ensures
        0 <= sum_prefix(ws, k),
        sum_prefix(ws, k) <= sum_all(ws),
    decreases ws.len() - k,
{
    lemma_sum_prefix_nonneg(ws, k);
    if k < ws.len() {
        lemma_sum_prefix_bounds(ws, k + 1);
    }
}

proof fn lemma_sum_prefix_nonneg(ws: Seq<int>, k: int)
    requires
        all_nonneg(ws),
        k <= ws.len(),
    ensures
        0 <= sum_prefix(ws, k),
    decreases k,
{
    if k > 0 {
        lemma_sum_prefix_nonneg(ws, k - 1);
    }
}

/// The boundaries of a proportional subdivision partition `[pos, pos + size)`
/// exactly: the first boundary is `pos`, the one past the last segment is
/// `pos + size`, and boundaries never decrease, so consecutive segments
/// neither overlap nor leave a gap, and the segment widths sum to `size`.
pub proof fn lemma_partition_exact(pos: int, size: int, ws: Seq<int>)
    requires
        all_nonneg(ws),
        sum_all(ws) > 0,
        size >= 0,
    ensures
        seg_bound(pos, size, ws, 0) == pos,
        seg_bound(pos, size, ws, ws.len() as int) == pos + size,
        forall|k1: int, k2: int|
            0 <= k1 <= k2 <= ws.len() ==> seg_bound(pos, size, ws, k1) <= seg_bound(
                pos,
                size,
                ws,
                k2,
            ),
{
    let total = sum_all(ws);
    assert(size * 0 == 0) by (nonlinear_arith);
    assert(seg_bound(pos, size, ws, 0) == pos + 0int / total);
    assert(0int / total == 0) by {
        lemma_div_by_multiple(0, total);
        assert(0int * total == 0) by (nonlinear_arith);
    }
    assert(seg_bound(pos, size, ws, ws.len() as int) == pos + size) by {
        assert(size * total / total == size) by {
            lemma_div_by_multiple(size, total);
            assert(size * total == total * size) by (nonlinear_arith);
        }
    }
    assert forall|k1: int, k2: int| 0 <= k1 <= k2 <= ws.len() implies seg_bound(pos, size, ws, k1)
        <= seg_bound(pos, size, ws, k2) by {
        lemma_seg_bound_mono(pos, size, ws, k1, k2);
    }
}

proof fn lemma_sum_prefix_mono(ws: Seq<int>, k1: int, k2: int)
    requires
        all_nonneg(ws),
        0 <= k1 <= k2 <= ws.len(),
    ensures
        sum_prefix(ws, k1) <= sum_prefix(ws, k2),
    decreases k2 - k1,
{
    if k1 < k2 {
        lemma_sum_prefix_mono(ws, k1, k2 - 1);
    }
}

pub proof fn lemma_seg_bound_mono(pos: int, size: int, ws: Seq<int>, k1: int, k2: int)
    requires
        all_nonneg(ws),
        sum_all(ws) > 0,
        size >= 0,
        0 <= k1 <= k2 <= ws.len(),
    ensures
        seg_bound(pos, size, ws, k1) <= seg_bound(pos, size, ws, k2),
{
    lemma_sum_prefix_mono(ws, k1, k2);
    lemma_mul_inequality(sum_prefix(ws, k1), sum_prefix(ws, k2), size);
    assert(size * sum_prefix(ws, k1) == sum_prefix(ws, k1) * size) by (nonlinear_arith);
    assert(size * sum_prefix(ws, k2) == sum_prefix(ws, k2) * size) by (nonlinear_arith);
    lemma_div_is_ordered(size * sum_prefix(ws, k1), size * sum_prefix(ws, k2), sum_all(ws));
}

/// A boundary never lies outside `[pos, pos + size)`'s closure.
pub proof fn lemma_seg_bound_in_range(pos: int, size: int, ws: Seq<int>, k: int)
    requires
        all_nonneg(ws),
        sum_all(ws) > 0,
        size >= 0,
        0 <= k <= ws.len(),
    ensures
        pos <= seg_bound(pos, size, ws, k) <= pos + size,
{
    lemma_partition_exact(pos, size, ws);
    lemma_seg_bound_mono(pos, size, ws, 0, k);
    lemma_seg_bound_mono(pos, size, ws, k, ws.len() as int);
}

/// Computes `pos + size * cum / total` without overflow; the result lies
/// between `pos` and `pos + size`.
pub fn cursor_point(pos: u64, size: u64, cum: u64, total: u64) -> (r: u64)
    requires
        total > 0,
        cum <= total,
        pos + size <= u64::MAX,
    ensures
        r == pos + size * cum / (total as int),
        pos <= r <= pos + size,
{
    proof {
        assert(size * cum <= size * total) by {
            lemma_mul_inequality(cum as int, total as int, size as int);
            assert(size * cum == cum * size) by (nonlinear_arith);
            assert(size * total == total * size) by (nonlinear_arith);
        }
        assert(size * total / (total as int) == size) by {
            lemma_div_by_multiple(size as int, total as int);
            assert(size * total == total * size) by (nonlinear_arith);
        }
        lemma_div_is_ordered(size * cum, size * total, total as int);
        assert(size * cum >= 0) by (nonlinear_arith);
        vstd::arithmetic::div_mod::lemma_div_pos_is_pos(size * cum, total as int);
        assert((size as u128) * (cum as u128) <= u128::MAX) by (nonlinear_arith)
            requires
                size <= u64::MAX,
                cum <= u64::MAX,
        ;
    }
    let prod: u128 = (size as u128) * (cum as u128);
    let q: u128 = prod / (total as u128);
    pos + (q as u64)
}

} // verus!
