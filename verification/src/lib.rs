//! Sampling-and-delta engine for a live interrupt-counter dashboard.
//!
//! The crate parses the kernel's interrupt-accounting text into snapshots,
//! tracks per-IRQ and per-CPU counter deltas between successive snapshots,
//! orders the result by one of five cyclic sort keys, and drives the
//! selection / overlay / scrolling state of the interactive view.
//! IRQ identifiers, device descriptions and affinity masks are kept as raw
//! byte strings; rendering and all I/O live outside this crate.

pub mod affinity;
pub mod app;
pub mod delta;
pub mod parse;
pub mod sort;
pub mod text;
pub mod view;
