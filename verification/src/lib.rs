pub mod checks;
pub mod http;
pub mod logging;
pub mod ssdp;
pub mod text;
