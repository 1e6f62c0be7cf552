pub mod proc;
pub mod timer;
pub mod os;
pub mod queues;
pub mod scheduler;
