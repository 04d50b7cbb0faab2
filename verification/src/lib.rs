//! Single-processor CPU scheduling under four classical disciplines —
//! first-in-first-out, shortest job first, shortest time-to-completion
//! first, and round robin — together with the integer totals behind the
//! average response-time and turnaround-time metrics.
//!
//! Each scheduler consumes an arrival-ordered workload and returns the
//! completed records in completion order; its contract equates the result
//! with a mathematical model of the discipline, and the laws the models
//! obey (conservation of work, absence of preemption where promised, the
//! round-robin quantum bound) are proved from those models.

pub mod workload;

pub mod fifo;

pub mod sjf;

pub mod stcf;

pub mod rr;

pub mod metrics;
