pub mod app;
pub mod base_app;
pub mod bitset;
pub mod core_app;
pub mod entity;
pub mod error;
pub mod param;
pub mod resource;
pub mod schedule;
pub mod system;
pub mod util;
pub mod world;
