//! Synchronisation core of a parallel, ordered tree walk: a work queue with
//! in-flight accounting and a cooperative stop flag, and a results queue that
//! hands results out in canonical pre-order.
pub mod buffer;
pub mod channel;
pub mod index_path;
pub mod results_queue;
pub mod tree;
pub mod work_queue;
