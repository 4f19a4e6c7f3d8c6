use potsweep::chunk::ChunkRange;
use potsweep::grid::{GridDimensions, GridIndex};
use potsweep::recovery::{recover_chunk_start, recover_position, RecoverError, ResumeState};

fn dims222() -> GridDimensions {
    GridDimensions { nx: 2, ny: 2, nz: 2 }
}

#[test]
fn fresh_run_starts_normal() {
    let st = recover_position(&dims222(), 0).unwrap();
    assert_eq!(st, ResumeState::Normal);
    assert_eq!(st.start_linear(&dims222()), 0);
}

#[test]
fn partial_run_resumes_at_next_unsolved_point() {
    let d = dims222();
    for solved in 1..8u32 {
        let st = recover_position(&d, solved).unwrap();
        assert_eq!(st, ResumeState::Pending(d.from_linear(solved)));
        assert_eq!(st.start_linear(&d), solved);
    }
    assert_eq!(
        recover_position(&d, 3).unwrap(),
        ResumeState::Pending(GridIndex { x: 0, y: 1, z: 1 })
    );
}

#[test]
fn complete_run_is_finished() {
    let d = dims222();
    let st = recover_position(&d, 8).unwrap();
    assert_eq!(st, ResumeState::Finished);
    assert_eq!(st.start_linear(&d), 8);
}

#[test]
fn oversized_count_is_fatal() {
    assert_eq!(recover_position(&dims222(), 9), Err(RecoverError::SolvedBeyondTotal));
}

#[test]
fn chunked_recovery_advances_the_start() {
    let range = ChunkRange { start: 40, end: 59 };
    assert_eq!(recover_chunk_start(&range, 0), Ok(40));
    assert_eq!(recover_chunk_start(&range, 7), Ok(47));
    assert_eq!(recover_chunk_start(&range, 20), Ok(60));
    assert_eq!(recover_chunk_start(&range, 21), Err(RecoverError::SolvedBeyondChunk));
}
