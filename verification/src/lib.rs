//! Trimming the margin of multi-line strings.

pub mod chars;
pub mod lines;
pub mod margin;
pub mod round_trip;
pub mod whitespace;

pub use margin::MarginTrimmable;
