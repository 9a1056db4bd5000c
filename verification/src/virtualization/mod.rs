pub mod engine;
pub mod files;
pub mod projfs;
pub mod traits;
