pub mod api;
pub mod bridge;
pub mod clock;
pub mod collection;
pub mod config;
pub mod database;
pub mod decimal;
pub mod errors;
pub mod file_storage;
pub mod level;
pub mod msg;
pub mod stats;
pub mod store;
pub mod text;
pub mod uuid;

pub use crate::uuid::Uuid;
