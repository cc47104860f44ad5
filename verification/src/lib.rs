pub mod config;
pub mod gen;
pub mod generation;
pub mod native;
pub mod orchestrator;
pub mod pipeline;
pub mod rng;
pub mod server;
pub mod text;
pub mod types;
