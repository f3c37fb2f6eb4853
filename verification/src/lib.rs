//! Satellite beam assignment: geometric visibility over Earth-centered
//! coordinates, and a greedy multi-pass packer that grants users beams on
//! satellites subject to capacity, co-beam separation and interference
//! constraints.
//!
//! Positions are held in fixed-point units of 1/50 km (20 m), so every
//! angular threshold test is an exact integer comparison of squared
//! cosines; no floating point is involved anywhere in the library.

pub mod laws;
pub mod parse;
pub mod position;
pub mod report;
pub mod scenario;
pub mod solver;
pub mod text;

pub use position::Position;
pub use report::{parse_report, ReportEntry};
pub use scenario::{Band, Beam, Entity, Satellite, Scenario};
