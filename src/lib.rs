//! A TCP connect scanner's core: the bookkeeping that hands ports to a bounded
//! pool of workers and gathers each port's outcome into an open / non-open
//! partition of the input.
pub mod outcome;
mod work_queue;
pub mod engine;
