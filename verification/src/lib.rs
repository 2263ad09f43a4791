pub mod api;
pub mod config;
pub mod error;
pub mod experiment;
pub mod folder_map;
pub mod string;
pub mod report;
pub mod sync;
pub mod types;
