//! Task master: a job-control daemon in the spirit of supervisord.
//! The verified library holds the command language, the configuration
//! model and the supervision decisions.
pub mod text;
pub mod cli;
pub mod cmd;
pub mod server;
pub mod yaml;
pub mod tm_mod;
pub mod task_master;
pub mod runner;
