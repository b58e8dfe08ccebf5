//! Tasks, the ring queue that holds them and the FIFO scheduler.
pub mod circular_queue;
pub mod task;
pub mod fifo;
pub mod laws;
