//! A task runner's core: tasks made of shell instructions, variables that
//! reference each other, and the expansion of command-line arguments.
pub mod text;
pub mod spans;
pub mod name_map;
pub mod arguments;
pub mod graph;
pub mod variables;
pub mod tasks;
pub mod config;
pub mod runner;
pub mod cli;
