pub mod dep_queue;
pub mod freshness;
pub mod job_queue;
pub mod stage;
