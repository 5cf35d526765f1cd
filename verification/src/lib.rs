//! Verified core of a tile-parallel sphere path tracer.
//!
//! The floating-point work of tracing rays is the caller's. This library
//! holds what surrounds it: the pseudo-random bit sources, the partition of
//! the picture into tiles, the admission of tile tasks under a ceiling, the
//! framebuffer that the tasks' results are stored in, and the hand-over of
//! the finished picture to the bitmap encoder.

pub mod bitmap;
pub mod random;
pub mod render_buffer;
pub mod scheduler;
pub mod tile;
