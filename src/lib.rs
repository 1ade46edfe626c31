//! Block-I/O trace decoding and rendering of trace events onto a
//! two-dimensional sector map.
pub mod trace;
pub mod visualizer;
