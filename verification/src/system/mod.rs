pub mod system;
pub mod fun_system;
pub mod world_fun_system;
pub mod each_system;
pub mod condition;
pub mod fun_system_excl;
