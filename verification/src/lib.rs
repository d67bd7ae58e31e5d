//! The exact core of a line-art approximator.
//!
//! An image is drawn as one long line that follows a Hilbert curve and is
//! thicker where the image is darker. This library holds what can be
//! computed exactly on whole numbers: the curve as a path on a lattice
//! ([`hilbert_curve`]), paths on a rational grid ([`path`]), fitting a path
//! to the frame of an image, finding its corners and cutting it into pieces
//! of bounded length ([`line_utils`]), and clamped lookups in a grid of
//! brightness values ([`image_utils`]). [`approximator`] chains the steps
//! that lead from an order and an image size to the path that is drawn.
//! What holds of these operations is proved in [`frame_laws`] and
//! [`partition_laws`].
//!
//! Lengths, directions and waves need square roots and sines; they are left
//! to the caller, who converts a path to real coordinates when the exact
//! steps are done.

pub mod approximator;
pub mod arith;
pub mod frame_laws;
pub mod hilbert_curve;
pub mod image_utils;
pub mod line_utils;
pub mod partition_laws;
pub mod path;
