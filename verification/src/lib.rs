pub mod audio;
pub mod auth;
pub mod chat;
pub mod clock;
pub mod config;
pub mod dify;
pub mod dify_stream;
pub mod discord;
pub mod escape;
pub mod image_name;
pub mod json;
pub mod knowledge;
pub mod memory_log;
pub mod number;
pub mod page;
pub mod picture;
pub mod reply;
pub mod speech;
pub mod text;
pub mod voice_buffer;
pub mod web;
