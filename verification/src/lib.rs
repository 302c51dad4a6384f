//! Escape-time fields of Julia sets over a rectangle of the complex plane,
//! in fixed-point arithmetic, with the bookkeeping of the worker pool that
//! evaluates them strip by strip.
pub mod fixed;
pub mod complex;
pub mod kernel;
pub mod sweep;
pub mod strips;
pub mod gathering;
pub mod frame;
pub mod engine;
pub mod pool;
