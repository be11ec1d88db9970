pub mod config;
pub mod manipulate;
