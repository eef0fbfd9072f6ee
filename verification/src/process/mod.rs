//! Processes: what is known of them and how it is read.

pub mod forest;
pub mod laws;
pub mod parser;
pub mod types;

pub use parser::parse_processes;
pub use types::{Process, ProcessState};
