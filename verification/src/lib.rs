pub mod util;
pub mod text;
pub mod key_store;
pub mod kv_store;
pub mod hashers;
pub mod request;
pub mod response;
pub mod command;
pub mod slice_reader;
pub mod kv_request;
pub mod kv_response;
pub mod kv_session;
pub mod wire_format;
pub mod config;
pub mod restore;
