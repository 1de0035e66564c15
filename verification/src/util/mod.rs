pub mod any;
pub mod label;
