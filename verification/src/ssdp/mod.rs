pub mod client;
pub mod message;
pub mod parser;
pub mod properties;
pub mod server;
