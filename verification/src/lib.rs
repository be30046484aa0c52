//! Per-workspace orchestration core of a window-management layer inside a
//! display compositor.
//!
//! A workspace owns the set of windows assigned to it, arbitrates between two
//! mutually exclusive placement strategies (free-form floating placement and
//! automatic tiling), tracks per-output fullscreen occupancy, and produces the
//! ordered list of visual elements to composite for a given output on each
//! frame.  Windows, outputs, seats and surfaces are referred to by plain
//! numeric handles; the compositor around this crate resolves its protocol
//! objects to those handles and back.

pub mod floating;
pub mod focus;
pub mod geometry;
pub mod laws;
pub mod render;
pub mod seq_util;
pub mod tiling;
pub mod workspace;
