//! An end-to-end sweep against a fake engine held in memory: run, kill,
//! restart, and compare with an uninterrupted run.

use potsweep::convert::process_output;
use potsweep::grid::{GridDimensions, GridIndex};
use potsweep::plan::{plan_rows, Row};
use potsweep::recovery::{recover_position, ResumeState};
use potsweep::request::assemble_request;

fn dims222() -> GridDimensions {
    GridDimensions { nx: 2, ny: 2, nz: 2 }
}

/// The fake engine: echoes one energy line per submitted point, with an
/// energy derived from the point itself so replies are reproducible.
fn fake_engine(d: &GridDimensions, row: &Row) -> String {
    let mut reply = String::from("some banner\n");
    for &z in &row.zs {
        let lin = d.to_linear(GridIndex { x: row.x, y: row.y, z });
        reply.push_str(&format!("  Final energy =  -{}.25 eV\n", lin + 1));
    }
    reply.push_str("done\n");
    reply
}

/// Dispatch every row of the plan and collect the output lines in
/// generation order.
fn run(d: &GridDimensions, lo: u32, hi: u32) -> Vec<String> {
    let mut out = Vec::new();
    for row in plan_rows(d, lo, hi) {
        // The real driver sends the assembled request through the engine's
        // input stream; the fake engine only looks at the points.
        let coord_lines: Vec<Vec<u8>> =
            row.zs.iter().map(|z| format!("O   {}   0   0", z).into_bytes()).collect();
        let _request = assemble_request(b"nn\n", b"2nn\n", &coord_lines);
        let reply = fake_engine(d, &row);
        let lines = process_output(reply.as_bytes(), row.zs.len()).unwrap();
        for line in lines {
            out.push(String::from_utf8(line).unwrap());
        }
    }
    out
}

#[test]
fn interrupted_run_resumes_without_skip_or_repeat() {
    let d = dims222();
    let total = d.total();

    // The uninterrupted reference run over the whole grid.
    let full = run(&d, 0, total - 1);
    assert_eq!(full.len(), 8);

    // The first run dies after 3 of 8 lines reached the output file.
    let mut file: Vec<String> = full[..3].to_vec();

    // Restart: the line count alone decides where to resume.
    let solved = file.len() as u32;
    let st = recover_position(&d, solved).unwrap();
    assert_eq!(st, ResumeState::Pending(d.from_linear(3)));
    let lo = st.start_linear(&d);
    assert_eq!(lo, 3);
    file.extend(run(&d, lo, total - 1));

    assert_eq!(file.len(), 8);
    assert_eq!(file, full);
}

#[test]
fn restart_of_a_finished_run_adds_nothing() {
    let d = dims222();
    let total = d.total();
    let full = run(&d, 0, total - 1);

    let st = recover_position(&d, total).unwrap();
    assert_eq!(st, ResumeState::Finished);
    let lo = st.start_linear(&d);
    let mut file = full.clone();
    file.extend(run(&d, lo, total - 1));
    assert_eq!(file, full);
}

#[test]
fn chunked_runs_cover_disjoint_slices_of_the_same_grid() {
    let d = dims222();
    let total = d.total();
    let full = run(&d, 0, total - 1);

    // Two invocations, each owning half the grid, together reproduce the
    // uninterrupted run.
    let first = potsweep::chunk::chunk_range(total, 2, 1).unwrap();
    let second = potsweep::chunk::chunk_range(total, 2, 2).unwrap();
    let mut joined = run(&d, first.start, first.end);
    joined.extend(run(&d, second.start, second.end));
    assert_eq!(joined, full);
}
