use potsweep::grid::GridDimensions;
use potsweep::plan::{plan_rows, Row};

fn flatten(d: &GridDimensions, rows: &[Row]) -> Vec<u32> {
    let mut lins = Vec::new();
    for row in rows {
        for &z in &row.zs {
            lins.push(d.to_linear(potsweep::grid::GridIndex { x: row.x, y: row.y, z }));
        }
    }
    lins
}

#[test]
fn full_plan_covers_the_grid_in_order() {
    let d = GridDimensions { nx: 2, ny: 2, nz: 2 };
    let rows = plan_rows(&d, 0, 7);
    assert_eq!(rows.len(), 4);
    for row in &rows {
        assert_eq!(row.zs, vec![0, 1]);
    }
    assert_eq!((rows[0].x, rows[0].y), (0, 0));
    assert_eq!((rows[1].x, rows[1].y), (0, 1));
    assert_eq!((rows[2].x, rows[2].y), (1, 0));
    assert_eq!((rows[3].x, rows[3].y), (1, 1));
    assert_eq!(flatten(&d, &rows), (0..8).collect::<Vec<u32>>());
}

#[test]
fn resumed_plan_is_the_exact_suffix() {
    let d = GridDimensions { nx: 2, ny: 2, nz: 2 };
    let rows = plan_rows(&d, 3, 7);
    assert_eq!(flatten(&d, &rows), (3..8).collect::<Vec<u32>>());
    // The interrupted row is completed first, then iteration falls back to
    // the normal order.
    assert_eq!((rows[0].x, rows[0].y), (0, 1));
    assert_eq!(rows[0].zs, vec![1]);
    assert_eq!(rows[1].zs, vec![0, 1]);
}

#[test]
fn chunk_plan_cuts_rows_at_chunk_borders() {
    let d = GridDimensions { nx: 3, ny: 4, nz: 5 };
    // Points 7..=11 span the tail of row (0,1) and the head of row (0,2).
    let rows = plan_rows(&d, 7, 11);
    assert_eq!(rows.len(), 2);
    assert_eq!((rows[0].x, rows[0].y), (0, 1));
    assert_eq!(rows[0].zs, vec![2, 3, 4]);
    assert_eq!((rows[1].x, rows[1].y), (0, 2));
    assert_eq!(rows[1].zs, vec![0, 1]);
    assert_eq!(flatten(&d, &rows), (7..12).collect::<Vec<u32>>());
}

#[test]
fn empty_plan_when_nothing_is_owned() {
    let d = GridDimensions { nx: 2, ny: 2, nz: 2 };
    let rows = plan_rows(&d, 8, 7);
    assert!(rows.is_empty());
}

#[test]
fn production_grid_plans_completely() {
    let d = potsweep::grid::sweep_dimensions(300, 300, 300, 30);
    let total = d.total();
    let rows = plan_rows(&d, 0, total - 1);
    assert_eq!(rows.len(), 306 * 306);
    let points: usize = rows.iter().map(|r| r.zs.len()).sum();
    assert_eq!(points as u32, total);
    assert_eq!((rows[0].x, rows[0].y), (0, 0));
    let last = rows.last().unwrap();
    assert_eq!((last.x, last.y), (305, 305));
    assert_eq!(last.zs.len(), 16);
}
