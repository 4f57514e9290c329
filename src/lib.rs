//! Verified core of a Monte Carlo path tracer: the integer and ordering logic of
//! the renderer. `bands` cuts the frame into one band of rows per worker,
//! `scan` finds the nearest hit among a scene's primitives, `render` holds the
//! per-band fill, the frame accumulation and the display conversion loops, and
//! `path` the termination policy of a light path.
pub mod bands;
pub mod scan;
pub mod render;
pub mod path;
