//! A fixed-capacity worker-pool coordinator with least-loaded scheduling,
//! together with the HTTP request/response handling it serves.
//!
//! The pool model tracks, per worker, the queue of job ids handed to that
//! worker and not yet collected; submission always picks the least-loaded
//! worker, and collection respects per-worker FIFO order.

pub mod http;
pub mod pool;
pub mod dispatch;
