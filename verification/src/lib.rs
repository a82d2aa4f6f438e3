//! Spatial-relationship queries over point-like zones on an integer grid.
//!
//! A [`Zone`] is a grid position carrying a small payload. The queries are
//! pure functions of a reference zone and a sequence of candidate zones:
//! the candidate furthest from the reference, the candidates sharing a row or
//! a column with it, and the candidates lying two places from it on a line
//! through it that at least three candidates share.
//!
//! All arithmetic is exact integer arithmetic: distances are compared by their
//! squares and slopes are kept as fractions, so every query is defined on the
//! whole coordinate range and gives the same answer on every run.

pub mod alignment;
pub mod collinear;
pub mod decimal;
pub mod distance;
pub mod error;
pub mod line;
pub mod record;
pub mod slope;
pub mod zone;

pub use alignment::is_line_horizontal;
pub use alignment::is_line_vertical;
pub use error::ZoneError;
pub use record::construct_zones_for_test;
pub use slope::Slope;
pub use zone::Restriction;
pub use zone::Zone;
