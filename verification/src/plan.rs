//! Planning a sweep: which points to dispatch, grouped into row batches.
//!
//! A run owns the inclusive linear range `[lo, hi]` — the whole grid, a
//! chunk, or the tail left after a restart.  The plan enumerates exactly the
//! points of that range in canonical order and groups consecutive points
//! sharing `(x, y)` into one row, because one engine request carries a whole
//! row.  Flattened back to linear indices the plan is `lo, lo+1, ..., hi`:
//! nothing is repeated, nothing is skipped, nothing is reordered.

use vstd::prelude::*;
use crate::grid::{
    index_of_linear, lemma_index_of_linear_in_range, linear_spec, GridDimensions, GridIndex,
};

verus! {

/// One dispatch batch: every selected point of one grid row.  The points
/// share `(x, y)` and appear in ascending `z`, one engine result expected
/// per entry of `zs`.
#[derive(Debug)]
pub struct Row {
    pub x: u32,
    pub y: u32,
    pub zs: Vec<u32>,
}

impl Row {
    /// The linear indices of the row's points, in order.
    pub open spec fn lins(self, dims: GridDimensions) -> Seq<int> {
        Seq::new(
            self.zs@.len(),
            |j: int|
                linear_spec(dims, GridIndex { x: self.x, y: self.y, z: self.zs@[j] }),
        )
    }

    /// The row names a non-empty set of cells of the grid.
    pub open spec fn wf(self, dims: GridDimensions) -> bool {
        &&& self.x < dims.nx
        &&& self.y < dims.ny
        &&& self.zs@.len() > 0
        &&& forall|j: int| 0 <= j < self.zs@.len() ==> #[trigger] self.zs@[j] < dims.nz
    }
}

/// The linear indices of a sequence of rows, flattened in order.
pub open spec fn rows_lins(dims: GridDimensions, rows: Seq<Row>) -> Seq<int>
    decreases rows.len(),
{
    if rows.len() == 0 {
        Seq::empty()
    } else {
        rows_lins(dims, rows.drop_last()) + rows.last().lins(dims)
    }
}

/// The linear indices `lo, lo+1, ..., hi` in order (empty when `lo == hi+1`).
pub open spec fn lin_range(lo: int, hi: int) -> Seq<int>
    recommends
        lo <= hi + 1,
{
    Seq::new((hi + 1 - lo) as nat, |j: int| lo + j)
}

/// All points whose linear index lies in `[lo, hi]`, grouped into rows of
/// consecutive points sharing `(x, y)`.  The flattened plan is exactly the
/// range `[lo, hi]` in canonical order; every row is well-formed and no two
/// neighbouring rows share `(x, y)`.
pub fn plan_rows(dims: &GridDimensions, lo: u32, hi: u32) -> (rows: Vec<Row>)
    requires
        dims.wf(),
        hi < dims.total_spec(),
        lo <= hi + 1,
    ensures
        rows_lins(*dims, rows@) == lin_range(lo as int, hi as int),
        forall|r: int| 0 <= r < rows@.len() ==> (#[trigger] rows@[r]).wf(*dims),
        forall|r: int|
            0 <= r && r + 1 < rows@.len() ==> !((#[trigger] rows@[r]).x == rows@[r + 1].x
                && rows@[r].y == rows@[r + 1].y),
{
    let mut rows: Vec<Row> = Vec::new();
    let mut i: u32 = lo;
    while i <= hi
        invariant
            dims.wf(),
            hi < dims.total_spec(),
            lo <= i <= hi + 1,
            rows_lins(*dims, rows@) == lin_range(lo as int, i - 1),
            forall|r: int| 0 <= r < rows@.len() ==> (#[trigger] rows@[r]).wf(*dims),
            forall|r: int|
                0 <= r && r + 1 < rows@.len() ==> !((#[trigger] rows@[r]).x == rows@[r + 1].x
                    && rows@[r].y == rows@[r + 1].y),
            rows@.len() > 0 && i <= hi ==> !(rows@.last().x == index_of_linear(
                *dims,
                i as int,
            ).x && rows@.last().y == index_of_linear(*dims, i as int).y),
        decreases hi + 1 - i,
    {
        let g = dims.from_linear(i);
        let mut zs: Vec<u32> = Vec::new();
        zs.push(g.z);
        let mut j: u32 = i + 1;
        while j <= hi
            invariant
                dims.wf(),
                hi < dims.total_spec(),
                i < j <= hi + 1,
                g == index_of_linear(*dims, i as int),
                g.in_range(*dims),
                zs@.len() == j - i,
                forall|t: int|
                    0 <= t < zs@.len() ==> #[trigger] zs@[t] == index_of_linear(
                        *dims,
                        i + t,
                    ).z,
                forall|t: int|
                    i <= t < j ==> ((#[trigger] index_of_linear(*dims, t)).x == g.x
                        && index_of_linear(*dims, t).y == g.y),
            ensures
                i < j <= hi + 1,
                zs@.len() == j - i,
                forall|t: int|
                    0 <= t < zs@.len() ==> #[trigger] zs@[t] == index_of_linear(
                        *dims,
                        i + t,
                    ).z,
                forall|t: int|
                    i <= t < j ==> ((#[trigger] index_of_linear(*dims, t)).x == g.x
                        && index_of_linear(*dims, t).y == g.y),
                j <= hi ==> !(index_of_linear(*dims, j as int).x == g.x && index_of_linear(
                    *dims,
                    j as int,
                ).y == g.y),
            decreases hi + 1 - j,
        {
            let h = dims.from_linear(j);
            if h.x == g.x && h.y == g.y {
                zs.push(h.z);
                j = j + 1;
            } else {
                break ;
            }
        }
        let row = Row { x: g.x, y: g.y, zs };
        proof {
            assert forall|t: int| 0 <= t < row.lins(*dims).len() implies #[trigger] row.lins(
                *dims,
            )[t] == i + t by {
                lemma_index_of_linear_in_range(*dims, i + t);
                assert(index_of_linear(*dims, i + t) == (GridIndex {
                    x: row.x,
                    y: row.y,
                    z: row.zs@[t],
                }));
            }
            assert(row.lins(*dims) =~= lin_range(i as int, j - 1));
            assert forall|t: int| 0 <= t < row.zs@.len() implies #[trigger] row.zs@[t]
                < dims.nz by {
                lemma_index_of_linear_in_range(*dims, i + t);
            }
            assert(row.wf(*dims));
        }
        let ghost old_rows = rows@;
        let ghost i0 = i as int;
        rows.push(row);
        i = j;
        proof {
            assert(rows@.drop_last() =~= old_rows);
            assert(rows@.last() == row);
            assert forall|r: int|
                0 <= r && r + 1 < rows@.len() implies !((#[trigger] rows@[r]).x == rows@[r + 1].x
                && rows@[r].y == rows@[r + 1].y) by {
                if r + 1 < rows@.len() - 1 {
                    assert(rows@[r] == old_rows[r]);
                    assert(rows@[r + 1] == old_rows[r + 1]);
                } else {
                    assert(rows@[r] == old_rows[old_rows.len() - 1]);
                    assert(rows@[r + 1] == row);
                }
            }
            assert(rows_lins(*dims, rows@) == rows_lins(*dims, old_rows) + row.lins(*dims));
            assert(lin_range(lo as int, j - 1) =~= lin_range(lo as int, i0 - 1) + lin_range(
                i0,
                j - 1,
            ));
            assert(rows_lins(*dims, rows@) == lin_range(lo as int, i - 1));
        }
    }
    proof {
        assert(rows_lins(*dims, rows@) =~= lin_range(lo as int, hi as int));
    }
    rows
}

/// Any split of the canonical enumeration is exact: the first `k` points
/// followed by the plan resumed at `k` are together the full range, and the
/// resumed plan is precisely the full plan with its first `k` points
/// removed.  A restart therefore never re-emits and never skips a point.
pub proof fn lemma_restart_no_skip_no_repeat(k: int, hi: int)
    requires
        0 <= k <= hi + 1,
    ensures
        lin_range(0, hi) == lin_range(0, k - 1) + lin_range(k, hi),
        lin_range(k, hi) == lin_range(0, hi).skip(k),
{
    assert(lin_range(0, hi) =~= lin_range(0, k - 1) + lin_range(k, hi));
    assert(lin_range(k, hi) =~= lin_range(0, hi).skip(k));
}

/// Splitting an owned range anywhere loses nothing: the two halves of the
/// range flatten back to the whole.
pub proof fn lemma_lin_range_split(lo: int, mid: int, hi: int)
    requires
        lo <= mid <= hi + 1,
    ensures
        lin_range(lo, hi) == lin_range(lo, mid - 1) + lin_range(mid, hi),
{
    assert(lin_range(lo, hi) =~= lin_range(lo, mid - 1) + lin_range(mid, hi));
}

} // verus!
