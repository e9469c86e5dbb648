pub mod buffer;
pub mod messages;
pub mod status;
pub mod server_status;
