//! The parts of a package manager for Node that decide rather than do: reading and writing
//! lockfiles, choosing what can be installed on a machine, and laying out links, scripts
//! and directories. Files, processes and the environment are left to the caller.

pub mod bin_target;
pub mod dep_path;
pub mod dirs;
pub mod error;
pub mod graph_filter;
pub mod host;
pub mod interpreter;
pub mod links;
pub mod lockfile;
pub mod path;
pub mod platform;
pub mod shim;
pub mod string_map;
pub mod text;
pub mod workspace;
pub mod yarn;
