pub mod text;
pub mod links;
pub mod properties;
pub mod tasks;
pub mod markdown;
pub mod utils;
pub mod model;
pub mod db;
pub mod commands;
pub mod event;
pub mod outline;
