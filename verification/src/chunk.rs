//! Cutting the flattened grid into equal chunks, one per invocation.
//!
//! A chunk owns the inclusive linear-index range
//! `[per·(id−1), per·id − 1]` with `per = total / count` (integer division).
//! The ranges of distinct ids are disjoint and ordered, and together they
//! cover `[0, per·count)`: by deliberate policy the trailing
//! `total % count` points are dropped rather than assigned to a short chunk.

use vstd::prelude::*;
use vstd::arithmetic::div_mod::{
    lemma_div_non_zero, lemma_div_pos_is_pos, lemma_fundamental_div_mod, lemma_mod_bound,
    lemma_multiply_divide_lt,
};
use vstd::arithmetic::mul::{lemma_mul_inequality, lemma_mul_is_commutative};

verus! {

/// The inclusive linear-index range owned by one invocation.
#[derive(Clone, Copy, PartialEq, Eq, Structural, Debug)]
pub struct ChunkRange {
    pub start: u32,
    pub end: u32,
}

/// Why a requested chunk id was rejected before any work started.
#[derive(Clone, Copy, PartialEq, Eq, Structural, Debug)]
pub enum ChunkError {
    /// Chunk ids are 1-based; 0 names no chunk.
    IdZero,
    /// The id lies above the fixed chunk count.
    IdAboveCount,
}

/// Points owned by every chunk: `total / count`, rounded down.
pub open spec fn points_per_chunk(total: int, count: int) -> int {
    total / count
}

/// First linear index of chunk `id`.
pub open spec fn chunk_start_spec(total: int, count: int, id: int) -> int {
    points_per_chunk(total, count) * (id - 1)
}

/// Last linear index of chunk `id` (inclusive).
pub open spec fn chunk_end_spec(total: int, count: int, id: int) -> int {
    points_per_chunk(total, count) * id - 1
}

/// The range of chunk `chunk_id` out of `chunk_count` over a grid of
/// `total_points` points.  Ids outside `[1, chunk_count]` are rejected and
/// no range is produced for them.
pub fn chunk_range(total_points: u32, chunk_count: u32, chunk_id: u32) -> (r: Result<
    ChunkRange,
    ChunkError,
>)
    requires
        0 < chunk_count,
        chunk_count <= total_points,
    ensures
        r is Ok <==> 1 <= chunk_id <= chunk_count,
        chunk_id == 0 ==> r == Err::<ChunkRange, ChunkError>(ChunkError::IdZero),
        chunk_id > chunk_count ==> r == Err::<ChunkRange, ChunkError>(ChunkError::IdAboveCount),
        r matches Ok(c) ==> c.start == chunk_start_spec(
            total_points as int,
            chunk_count as int,
            chunk_id as int,
        ),
        r matches Ok(c) ==> c.end == chunk_end_spec(
            total_points as int,
            chunk_count as int,
            chunk_id as int,
        ),
        r matches Ok(c) ==> c.start <= c.end < total_points,
{
    if chunk_id == 0 {
        return Err(ChunkError::IdZero);
    }
    if chunk_id > chunk_count {
        return Err(ChunkError::IdAboveCount);
    }
    let per: u32 = total_points / chunk_count;
    proof {
        lemma_div_non_zero(total_points as int, chunk_count as int);
        lemma_fundamental_div_mod(total_points as int, chunk_count as int);
        lemma_mod_bound(total_points as int, chunk_count as int);
        lemma_mul_is_commutative(chunk_count as int, per as int);
        lemma_mul_is_commutative(chunk_id as int, per as int);
        lemma_mul_inequality(chunk_id as int, chunk_count as int, per as int);
        assert(per * chunk_id - per * (chunk_id - 1) == per) by (nonlinear_arith);
        lemma_mul_inequality(1, chunk_id as int, per as int);
        assert(1 * (per as int) == per);
    }
    let start: u32 = per * (chunk_id - 1);
    let end: u32 = per * chunk_id - 1;
    Ok(ChunkRange { start, end })
}

/// A chunk with a smaller id lies wholly before one with a larger id:
/// the ranges of any two distinct ids are disjoint, in id order.
pub proof fn lemma_chunks_disjoint(total: int, count: int, id1: int, id2: int)
    requires
        0 < count <= total,
        1 <= id1 < id2 <= count,
    ensures
        chunk_end_spec(total, count, id1) < chunk_start_spec(total, count, id2),
{
    let per: int = points_per_chunk(total, count);
    lemma_div_non_zero(total, count);
    assert(per * id1 - 1 < per * (id2 - 1)) by (nonlinear_arith)
        requires 1 <= per && id1 < id2;
}

/// Every linear index below `per·count` lies in the range of some chunk id
/// in `[1, count]`: only the trailing remainder goes unowned.
pub proof fn lemma_chunks_cover(total: int, count: int, k: int)
    requires
        0 < count <= total,
        0 <= k < points_per_chunk(total, count) * count,
    ensures
        exists|id: int|
            1 <= id <= count && #[trigger] chunk_start_spec(total, count, id) <= k && k
                <= chunk_end_spec(total, count, id),
{
    let per: int = points_per_chunk(total, count);
    lemma_div_non_zero(total, count);
    let id: int = k / per + 1;
    lemma_div_pos_is_pos(k, per);
    lemma_mul_is_commutative(per, count);
    lemma_multiply_divide_lt(k, per, count);
    lemma_fundamental_div_mod(k, per);
    lemma_mod_bound(k, per);
    lemma_mul_is_commutative(per, k / per);
    assert(chunk_start_spec(total, count, id) == per * (k / per));
    assert(per * (k / per) <= k);
    assert(chunk_end_spec(total, count, id) == per * (k / per + 1) - 1);
    assert(per * (k / per + 1) == per * (k / per) + per) by (nonlinear_arith);
    assert(1 <= id <= count && chunk_start_spec(total, count, id) <= k && k <= chunk_end_spec(
        total,
        count,
        id,
    ));
}

/// What the whole partition drops: exactly `total % count` trailing points,
/// always fewer than `count` of them.
pub proof fn lemma_chunk_remainder(total: int, count: int)
    requires
        0 < count,
    ensures
        total - points_per_chunk(total, count) * count == total % count,
        0 <= total % count < count,
{
    lemma_fundamental_div_mod(total, count);
    lemma_mod_bound(total, count);
    lemma_mul_is_commutative(count, points_per_chunk(total, count));
}

} // verus!
