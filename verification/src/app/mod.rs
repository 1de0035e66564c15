pub mod app;
pub mod event;
pub mod main_schedule;
pub mod plugin;
