//! Matching of line features between two datasets that cover the same area.
//!
//! For every target line the matcher searches the source lines whose
//! bounding box lies within a buffer of the target's, aligns each of them
//! with the target by cutting the longer of the two down to the stretch
//! along the shorter, and takes a source for the same feature where the
//! bearings, the lengths and the midpoints of the aligned pair are close
//! enough.
//!
//! All numbers are whole: coordinates, lengths and distances are counted in
//! one coordinate unit, angles in microdegrees, length ratios in millionths
//! and positions along a line in billionths of its length. What has to be
//! measured in real numbers (a length, a direction, the point halfway along
//! a line, the position closest to a point, the cut of a line) is asked of
//! the caller through a [`kernel::Kernel`].

pub mod align;
pub mod compare;
pub mod geometry;
pub mod index;
pub mod kernel;
pub mod laws;
pub mod matcher;
pub mod measures;
