pub mod clean;
pub mod config;
pub mod display;
pub mod job;
pub mod logic;
