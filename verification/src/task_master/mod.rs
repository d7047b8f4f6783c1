//! The first supervisor: one configuration per program, read option by
//! option, and a watch that launches the program until it starts.
pub mod process;
pub mod service;
