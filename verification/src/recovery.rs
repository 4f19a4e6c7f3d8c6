//! Restart recovery: where to resume from a count of already-written lines.
//!
//! The output file is the only durable record of progress; its line count
//! `solved` determines the next point exactly.  An unchunked run converts
//! `solved` back to a grid position through the closed form of the grid
//! module; a chunked run only advances the chunk's start, because a chunk's
//! file holds that chunk's own points in chunk-linear order.  A count that
//! names no representable position is rejected: recovery cannot guess.

use vstd::prelude::*;
use crate::chunk::ChunkRange;
use crate::grid::{index_of_linear, linear_spec, GridDimensions, GridIndex};

verus! {

/// How iteration begins after start-up.  A pending position acts as a lower
/// bound exactly once: every point before it is skipped, every point from it
/// on is dispatched as in a fresh run.
#[derive(Clone, Copy, PartialEq, Eq, Structural, Debug)]
pub enum ResumeState {
    /// Fresh run: begin at the first grid point.
    Normal,
    /// Resume at this grid index, the first unsolved point.
    Pending(GridIndex),
    /// Every point is already solved; nothing remains to dispatch.
    Finished,
}

/// Why a solved-count could not be turned into a resume position.
#[derive(Clone, Copy, PartialEq, Eq, Structural, Debug)]
pub enum RecoverError {
    /// More lines than the whole grid has points.
    SolvedBeyondTotal,
    /// More lines than the chunk owns points.
    SolvedBeyondChunk,
}

impl ResumeState {
    /// A pending position must name a cell of the grid.
    pub open spec fn wf(self, dims: GridDimensions) -> bool {
        match self {
            ResumeState::Pending(g) => g.in_range(dims),
            _ => true,
        }
    }

    /// The linear index at which dispatch begins.
    pub open spec fn start_linear_spec(self, dims: GridDimensions) -> int {
        match self {
            ResumeState::Normal => 0,
            ResumeState::Pending(g) => linear_spec(dims, g),
            ResumeState::Finished => dims.total_spec(),
        }
    }

    /// The linear index at which dispatch begins.
    pub fn start_linear(&self, dims: &GridDimensions) -> (lo: u32)
        requires
            dims.wf(),
            self.wf(*dims),
        ensures
            lo == self.start_linear_spec(*dims),
            lo <= dims.total_spec(),
    {
        match self {
            ResumeState::Normal => 0,
            ResumeState::Pending(g) => dims.to_linear(*g),
            ResumeState::Finished => dims.total(),
        }
    }
}

/// The position at which an unchunked run resumes after `solved` lines:
/// the grid index of the next unsolved point.  `solved` above the grid's
/// size is a fatal condition, not a position.
pub fn recover_position(dims: &GridDimensions, solved: u32) -> (r: Result<
    ResumeState,
    RecoverError,
>)
    requires
        dims.wf(),
    ensures
        r is Ok <==> solved <= dims.total_spec(),
        solved > dims.total_spec() ==> r == Err::<ResumeState, RecoverError>(
            RecoverError::SolvedBeyondTotal,
        ),
        solved == 0 ==> r == Ok::<ResumeState, RecoverError>(ResumeState::Normal),
        0 < solved < dims.total_spec() ==> r == Ok::<ResumeState, RecoverError>(
            ResumeState::Pending(index_of_linear(*dims, solved as int)),
        ),
        solved == dims.total_spec() ==> r == Ok::<ResumeState, RecoverError>(
            ResumeState::Finished,
        ),
        r matches Ok(st) ==> st.wf(*dims) && st.start_linear_spec(*dims) == solved,
{
    proof {
        assert(0 < dims.nx * dims.ny * dims.nz) by (nonlinear_arith)
            requires 0 < dims.nx && 0 < dims.ny && 0 < dims.nz;
    }
    let total = dims.total();
    if solved > total {
        Err(RecoverError::SolvedBeyondTotal)
    } else if solved == 0 {
        Ok(ResumeState::Normal)
    } else if solved == total {
        Ok(ResumeState::Finished)
    } else {
        let g = dims.from_linear(solved);
        Ok(ResumeState::Pending(g))
    }
}

/// The linear index at which a chunked run resumes after `solved` lines of
/// its own output file: the chunk's start advanced by `solved`.  A count
/// beyond the chunk's size is a fatal condition.
pub fn recover_chunk_start(range: &ChunkRange, solved: u32) -> (r: Result<u32, RecoverError>)
    requires
        range.start <= range.end,
        range.end < u32::MAX,
    ensures
        r is Ok <==> solved <= range.end - range.start + 1,
        r matches Ok(lo) ==> lo == range.start + solved,
        r is Err ==> r == Err::<u32, RecoverError>(RecoverError::SolvedBeyondChunk),
{
    let size: u32 = range.end - range.start + 1;
    if solved > size {
        Err(RecoverError::SolvedBeyondChunk)
    } else {
        Ok(range.start + solved)
    }
}

} // verus!
