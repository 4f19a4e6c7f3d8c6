//! Verified core of a distributed 3-D grid sweep.
//!
//! The sweep walks a regular 3-D grid in a fixed lexicographic order, builds
//! one textual job request per grid row, hands each request to a black-box
//! engine, extracts one energy value per grid point from the engine's reply,
//! and appends the converted values to a durable output file.  The line count
//! of that file is the sole progress counter: a killed run is resumed by
//! re-deriving the next grid position from it.  The grid can also be cut into
//! equal chunks so that independent invocations cover disjoint slices.
//!
//! This crate holds the logic whose off-by-one errors would silently corrupt
//! a long run: the linear/3-D index maps, the chunk partition, the restart
//! recovery, the row planner, the request assembly, and the reply parsing
//! with its exact decimal unit conversion.  Process handling, file handling
//! and the floating-point coordinate transform live with the caller.

pub mod chunk;
pub mod convert;
pub mod digits;
pub mod extract;
pub mod grid;
pub mod plan;
pub mod recovery;
pub mod request;
