//! The 3-D grid and the bijection between grid indices and linear indices.
//!
//! Every part of the sweep (dispatch order, restart recovery, chunk
//! boundaries) speaks the same flattened order: `linear = x·(ny·nz) + y·nz + z`
//! with `(x, y, z)` enumerated lexicographically.  The proofs here pin that
//! mapping down as a bijection so that no two components can disagree on it.

use vstd::prelude::*;
use vstd::arithmetic::div_mod::{
    lemma_fundamental_div_mod, lemma_fundamental_div_mod_converse, lemma_mod_bound,
    lemma_multiply_divide_lt,
};
use vstd::arithmetic::mul::lemma_mul_is_commutative;

verus! {

/// Extra cells added to each axis of the base resolution.
pub const AXIS_PADDING: u32 = 6;

/// The exclusive iteration bound of each axis, fixed for a whole run.
#[derive(Clone, Copy, PartialEq, Eq, Structural, Debug)]
pub struct GridDimensions {
    pub nx: u32,
    pub ny: u32,
    pub nz: u32,
}

/// One cell of the sweep's 3-D domain.
#[derive(Clone, Copy, PartialEq, Eq, Structural, Debug)]
pub struct GridIndex {
    pub x: u32,
    pub y: u32,
    pub z: u32,
}

impl GridDimensions {
    /// All axes are positive and the flattened grid fits in a `u32`.
    pub open spec fn wf(self) -> bool {
        0 < self.nx && 0 < self.ny && 0 < self.nz && self.nx * self.ny * self.nz <= u32::MAX
    }

    /// Number of points of the grid.
    pub open spec fn total_spec(self) -> int {
        self.nx * self.ny * self.nz
    }

    /// Number of points of the grid.
    pub fn total(&self) -> (t: u32)
        requires
            self.wf(),
        ensures
            t == self.total_spec(),
    {
        proof {
            assert(self.nx * self.ny <= self.nx * self.ny * self.nz
                && self.nx * self.ny * self.nz == (self.nx * self.ny) * self.nz)
                by (nonlinear_arith)
                requires 0 < self.nx && 0 < self.ny && 0 < self.nz;
        }
        (self.nx * self.ny) * self.nz
    }

    /// The flattened position of `g`: the canonical enumeration order.
    pub fn to_linear(&self, g: GridIndex) -> (i: u32)
        requires
            self.wf(),
            g.in_range(*self),
        ensures
            i == linear_spec(*self, g),
            i < self.total_spec(),
    {
        proof {
            lemma_linear_in_range(*self, g);
            assert(g.x * (self.ny * self.nz) + g.y * self.nz >= g.x * (self.ny * self.nz)
                && g.x * (self.ny * self.nz) >= 0
                && g.y * self.nz >= 0
                && self.ny * self.nz <= self.nx * self.ny * self.nz)
                by (nonlinear_arith)
                requires 0 < self.nx && 0 <= g.x && 0 <= g.y && 0 <= g.z
                    && 0 < self.ny && 0 < self.nz;
        }
        let p: u32 = self.ny * self.nz;
        g.x * p + g.y * self.nz + g.z
    }

    /// The grid index whose flattened position is `i`: inverse of `to_linear`.
    pub fn from_linear(&self, i: u32) -> (g: GridIndex)
        requires
            self.wf(),
            i < self.total_spec(),
        ensures
            g == index_of_linear(*self, i as int),
            g.in_range(*self),
            linear_spec(*self, g) == i,
    {
        proof {
            assert(0 < self.ny * self.nz && self.ny * self.nz <= self.nx * self.ny * self.nz)
                by (nonlinear_arith)
                requires 0 < self.nx && 0 < self.ny && 0 < self.nz;
            assert(dims_of_totals((self.nx, self.ny, self.nz)) == *self);
        }
        let (x, y, z) = get_index_position(i, (self.nx, self.ny, self.nz));
        GridIndex { x, y, z }
    }
}

impl GridIndex {
    /// Each coordinate lies below its axis bound.
    pub open spec fn in_range(self, dims: GridDimensions) -> bool {
        self.x < dims.nx && self.y < dims.ny && self.z < dims.nz
    }
}

/// `linear = x·(ny·nz) + y·nz + z`, the one flattening used everywhere.
pub open spec fn linear_spec(dims: GridDimensions, g: GridIndex) -> int {
    g.x * (dims.ny * dims.nz) + g.y * dims.nz + g.z
}

/// First coordinate recovered from a linear index.
pub open spec fn x_of_linear(dims: GridDimensions, i: int) -> int {
    i / (dims.ny * dims.nz)
}

/// Second coordinate recovered from a linear index.
pub open spec fn y_of_linear(dims: GridDimensions, i: int) -> int {
    (i % (dims.ny * dims.nz)) / dims.nz as int
}

/// Third coordinate recovered from a linear index.
pub open spec fn z_of_linear(dims: GridDimensions, i: int) -> int {
    (i % (dims.ny * dims.nz)) % dims.nz as int
}

/// The grid index recovered from a linear index.
pub open spec fn index_of_linear(dims: GridDimensions, i: int) -> GridIndex {
    GridIndex {
        x: x_of_linear(dims, i) as u32,
        y: y_of_linear(dims, i) as u32,
        z: z_of_linear(dims, i) as u32,
    }
}

/// The flattening stays inside `[0, total)` on in-range indices.
pub proof fn lemma_linear_in_range(dims: GridDimensions, g: GridIndex)
    requires
        dims.wf(),
        g.in_range(dims),
    ensures
        0 <= linear_spec(dims, g) < dims.total_spec(),
{
    assert(0 <= g.x * (dims.ny * dims.nz) + g.y * dims.nz + g.z
        && g.x * (dims.ny * dims.nz) + g.y * dims.nz + g.z < dims.nx * dims.ny * dims.nz)
        by (nonlinear_arith)
        requires 0 <= g.x < dims.nx && 0 <= g.y < dims.ny && 0 <= g.z < dims.nz;
}

/// Going from a linear index to a grid index and back returns the same
/// linear index, and the grid index is in range: one half of the bijection.
pub proof fn lemma_index_of_linear_in_range(dims: GridDimensions, i: int)
    requires
        dims.wf(),
        0 <= i < dims.total_spec(),
    ensures
        index_of_linear(dims, i).in_range(dims),
        linear_spec(dims, index_of_linear(dims, i)) == i,
{
    let p: int = dims.ny * dims.nz;
    let x: int = i / p;
    let r: int = i % p;
    let y: int = r / dims.nz as int;
    let z: int = r % dims.nz as int;
    assert((dims.ny * dims.nz) * dims.nx == dims.nx * dims.ny * dims.nz
        && dims.nz * dims.ny == dims.ny * dims.nz) by (nonlinear_arith);
    assert(0 < p);
    lemma_multiply_divide_lt(i, p, dims.nx as int);
    lemma_mod_bound(i, p);
    lemma_multiply_divide_lt(r, dims.nz as int, dims.ny as int);
    lemma_mod_bound(r, dims.nz as int);
    lemma_fundamental_div_mod(i, p);
    lemma_fundamental_div_mod(r, dims.nz as int);
    lemma_mul_is_commutative(p, x);
    lemma_mul_is_commutative(dims.nz as int, y);
    assert(linear_spec(dims, index_of_linear(dims, i)) == x * p + y * dims.nz + z);
    assert(x * p + y * dims.nz + z == i);
}

/// Going from an in-range grid index to its linear index and back returns
/// the same grid index: the other half of the bijection.
pub proof fn lemma_linear_of_index_inverts(dims: GridDimensions, g: GridIndex)
    requires
        dims.wf(),
        g.in_range(dims),
    ensures
        index_of_linear(dims, linear_spec(dims, g)) == g,
{
    let p: int = dims.ny * dims.nz;
    let i: int = linear_spec(dims, g);
    let r: int = g.y * dims.nz + g.z;
    assert(0 <= r < p && 0 < p) by (nonlinear_arith)
        requires
            0 <= g.y < dims.ny && 0 <= g.z < dims.nz && 0 < dims.ny && 0 < dims.nz
                && p == dims.ny * dims.nz && r == g.y * dims.nz + g.z;
    lemma_fundamental_div_mod_converse(i, p, g.x as int, r);
    lemma_fundamental_div_mod_converse(r, dims.nz as int, g.y as int, g.z as int);
}

/// The dimensions named by a `(nx, ny, nz)` tuple.
pub open spec fn dims_of_totals(totals: (u32, u32, u32)) -> GridDimensions {
    GridDimensions { nx: totals.0, ny: totals.1, nz: totals.2 }
}

/// The grid position reached after `solved` points of a grid with the given
/// per-axis totals: the closed form behind restart recovery.  The first
/// component of `totals` plays no part in the value; whenever `solved` lies
/// below the grid's size, the result is the in-range index of the next
/// unsolved point.
pub fn get_index_position(solved: u32, totals: (u32, u32, u32)) -> (r: (u32, u32, u32))
    requires
        0 < totals.1,
        0 < totals.2,
        totals.1 * totals.2 <= u32::MAX,
    ensures
        r.0 == x_of_linear(dims_of_totals(totals), solved as int),
        r.1 == y_of_linear(dims_of_totals(totals), solved as int),
        r.2 == z_of_linear(dims_of_totals(totals), solved as int),
        dims_of_totals(totals).wf() && solved < dims_of_totals(totals).total_spec()
            ==> (GridIndex { x: r.0, y: r.1, z: r.2 }).in_range(dims_of_totals(totals)),
        dims_of_totals(totals).wf() && solved < dims_of_totals(totals).total_spec()
            ==> linear_spec(dims_of_totals(totals), GridIndex { x: r.0, y: r.1, z: r.2 })
                == solved,
{
    proof {
        assert(0 < totals.1 * totals.2) by (nonlinear_arith)
            requires 0 < totals.1 && 0 < totals.2;
    }
    let yz: u32 = totals.1 * totals.2;
    let xx: u32 = solved / yz;
    let r2: u32 = solved % yz;
    let yy: u32 = r2 / totals.2;
    let zz: u32 = r2 % totals.2;
    proof {
        let dims = dims_of_totals(totals);
        if dims.wf() && solved < dims.total_spec() {
            lemma_index_of_linear_in_range(dims, solved as int);
        }
    }
    (xx, yy, zz)
}

/// Dimensions of a run: a base resolution padded on each axis, with the
/// z-axis first cut into one slab per processor.
pub fn sweep_dimensions(base_x: u32, base_y: u32, base_z: u32, cpus: u32) -> (dims: GridDimensions)
    requires
        0 < cpus,
        base_x + AXIS_PADDING <= u32::MAX,
        base_y + AXIS_PADDING <= u32::MAX,
        base_z as int / cpus as int + AXIS_PADDING <= u32::MAX,
        (base_x + AXIS_PADDING) * (base_y + AXIS_PADDING) * (base_z as int / cpus as int + AXIS_PADDING)
            <= u32::MAX,
    ensures
        dims == (GridDimensions {
            nx: (base_x + AXIS_PADDING) as u32,
            ny: (base_y + AXIS_PADDING) as u32,
            nz: (base_z as int / cpus as int + AXIS_PADDING) as u32,
        }),
        dims.wf(),
{
    let slab: u32 = base_z / cpus;
    let dims = GridDimensions {
        nx: base_x + AXIS_PADDING,
        ny: base_y + AXIS_PADDING,
        nz: slab + AXIS_PADDING,
    };
    proof {
        assert(0 < dims.nx && 0 < dims.ny && 0 < dims.nz);
    }
    dims
}

} // verus!
