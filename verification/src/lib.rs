pub mod agent_loop;
pub mod text;
pub mod tools;
pub mod utils;
