//! The supervisor: services of processes, each process run by a group of
//! threads, and the commands that drive them.
pub mod cmd;
pub mod exec_error;
pub mod config;
pub mod config_file;
pub mod service;
pub mod supervisor;
pub mod thread_table;

pub use self::supervisor::TmStruct;
