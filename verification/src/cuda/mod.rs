//! The decisions of a CUDA backend.

pub mod cache_laws;
pub mod command;
pub mod command_laws;
pub mod communication;
pub mod copy;
pub mod copy_laws;
pub mod elem;
pub mod error;
pub mod gpu_storage;
pub mod graph;
pub mod graph_laws;
pub mod host_stall_trace;
pub mod install;
pub mod install_laws;
pub mod launch;
pub mod launch_laws;
pub mod meta_cache;
pub mod meta_laws;
pub mod node_laws;
pub mod nodes;
pub mod ring_laws;
pub mod settings;
pub mod settings_laws;
pub mod stream;
pub mod stream_call_laws;
pub mod stream_laws;
pub mod tensor_map;
pub mod tensor_rule_laws;
pub mod told_laws;
pub mod trace_laws;
pub mod words;
