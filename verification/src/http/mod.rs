pub mod client;
pub mod device_description;
pub mod properties;
