//! Calibration of a multi-projector rig from cameras embedded in the board.
//!
//! The library holds the decisions of the calibration pipeline: the wire
//! protocol spoken with the embedded cameras, the capture schedule, the
//! grouping of scan lines for the subpixel pass, the geometry of projected
//! patterns and debug pictures, and the bookkeeping of correspondences. Image
//! processing, windows, sockets and files are left to the caller, which hands
//! in plain values and carries out the steps that the library returns.

pub mod alignment;
pub mod bits;
pub mod calibration_evaluator;
pub mod calibrator;
pub mod camera;
pub mod camera_mesh;
pub mod content_projection;
pub mod coordinate_spans;
pub mod debug_viz;
pub mod external_calibrator;
pub mod external_camera;
pub mod float_bits;
pub mod grid;
pub mod listing;
pub mod patterns;
pub mod poses;
pub mod projection;
pub mod schedule;
pub mod subpix;
pub mod text;
pub mod types;
pub mod wire;

