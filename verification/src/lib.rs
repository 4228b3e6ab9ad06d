//! Verified core of a small garbage-collector benchmark.
//!
//! `heap` holds the handle types of the conservative collector front end,
//! `bench` the arithmetic of the GCBench workload, `model` an abstract
//! collector heap that gives meaning to the operations the workload
//! performs, and `plan` the verified schedules of those operations.

pub mod heap;
pub mod bench;
pub mod model;
pub mod plan;
