pub mod types;
pub mod config;
pub mod transport;
pub mod protocol;
pub mod routing;
pub mod node;
