//! Temporal upsampling for a small columnar table model.
//!
//! The crate builds a regular time grid from an irregular, possibly grouped,
//! time-indexed table and left-joins the table onto that grid, leaving nulls
//! where no original row existed at a grid point.

pub mod calendar;
pub mod frame;
pub mod range;
pub mod types;
pub mod upsample;
