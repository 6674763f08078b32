pub mod activity;
pub mod config;
pub mod msg_storage;
pub mod process_messages;
pub mod text;
pub mod tracker;
