pub mod config;
pub mod executor_utils;
pub mod path_utils;
pub mod tools;
