pub mod cell;
pub mod world;
pub mod entity_ref;
