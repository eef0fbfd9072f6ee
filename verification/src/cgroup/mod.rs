//! Control groups: what is known of them and how it is read.

pub mod laws;
pub mod parser;
pub mod types;

pub use parser::parse_cgroup_tree;
pub use types::{CgroupMetrics, CgroupNode};
