//! Decoding of FPGA configuration bitstreams into tile-addressable bit grids,
//! and differential fuzzing that discovers which tile bits encode which
//! configuration words and routing connections, recorded in a database that
//! can be stored as bytes.
pub mod bits;
pub mod geometry;
pub mod chip;
pub mod bitstream;
pub mod database;
pub mod fuzz;
pub mod store;
