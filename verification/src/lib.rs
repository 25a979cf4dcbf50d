//! Mail checking, rendering and translation rules of a desktop mail client.

pub mod body_cache;
pub mod cache;
pub mod commands;
pub mod config;
pub mod folders;
pub mod ipc;
pub mod mailhtml;
pub mod marking;
pub mod message;
pub mod model;
pub mod readable;
pub mod reply;
pub mod segment;
pub mod state;
pub mod sync;
pub mod text;
pub mod translate;
