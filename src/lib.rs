//! Highlight overlays: a text buffer annotated with overlapping labelled
//! ranges, kept as a partition of the buffer into runs that each carry the set
//! of labels active over them.
//!
//! [`Merge`] sweeps a collection of labelled intervals and emits the runs
//! between consecutive edges; [`Overlay::build`] turns that sweep into a
//! maximal partition of a whole buffer, and [`Overlay::insert`] and
//! [`Overlay::remove`] update a partition in place for one labelled range.

pub mod interval;
pub mod label;
pub mod mask;
pub mod overlay;
pub mod spans;

pub use interval::{Interval, Merge};
pub use label::Label;
pub use mask::Mask;
pub use overlay::{Overlay, OverlayError};
