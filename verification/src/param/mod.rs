pub mod local;
pub mod res;
pub mod param;
pub mod commands;
pub mod query;
