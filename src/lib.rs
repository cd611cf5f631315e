//! Build signals and critical-path computation over the graph of evaluated build keys.

pub mod artifact_tag;
pub mod backend;
pub mod critical_path;
pub mod default_backend;
pub mod node_key;
pub mod signals;
pub mod longest_paths;
pub mod graph_backend;
pub mod receiver;
pub mod report;
pub mod topo;
