//! Jobs on several machines: the queries for a job, the collectors on its machines and the
//! coordinator that puts their snapshots together.

pub mod answers;
pub mod collector;
pub mod compact;
pub mod convert;
pub mod coordinator;
pub mod flatten;
pub mod laws;
pub mod merge;
pub mod rate_laws;
pub mod resorted;
pub mod row_fields;
pub mod sent;
pub mod shown;
pub mod slurm;
pub mod state_laws;
pub mod types;
