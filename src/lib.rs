//! A process supervision tree: restart strategies, restart-rate limiting and
//! shutdown policies, expressed as a verified state machine. The host program
//! performs the process operations and reports what happened.

pub mod errors;
pub mod supervisor;
pub mod child;
pub mod records;
pub mod restart;
pub mod limiter;
pub mod shutdown;
