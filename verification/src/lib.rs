//! Interactive gizmo rotation core: converts 2D mouse-drag deltas into 3D
//! incremental rotations of two on-screen orientation gizmos (one driven by
//! drags on the left half of the window, one by drags on the right half),
//! with periodic renormalization to counter accumulated numerical drift.
//!
//! All arithmetic is fixed-point over `i64` (scale 1_000_000), so every
//! operation has an exact, machine-checkable contract.

pub mod fixed;
pub mod quat;
pub mod gizmo;
