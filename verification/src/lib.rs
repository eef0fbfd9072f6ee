//! Job analysis and monitoring: the verified core of a cgroup and process monitor.

pub mod app;
pub mod app_laws;
pub mod baseline;
pub mod baseline_laws;
pub mod cgroup;
pub mod float;
pub mod format;
pub mod model;
pub mod nav;
pub mod number;
pub mod path;
pub mod process;
pub mod rate;
pub mod resorted;
pub mod row_fields;
pub mod row_laws;
pub mod rows;
pub mod shape_laws;
pub mod slurm;
pub mod sort;
pub mod table;
pub mod text;
pub mod ui;
