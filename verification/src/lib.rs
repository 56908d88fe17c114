pub mod model;
pub mod text;
pub mod contract;
pub mod mapper;
pub mod finding;
pub mod diff;
pub mod parser;
pub mod loader;
pub mod laws;
pub mod detection;
