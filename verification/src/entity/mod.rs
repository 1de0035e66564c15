pub mod column;
pub mod entity;
pub mod meta;
pub mod store;
pub mod table;
pub mod view;
