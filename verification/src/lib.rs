pub mod api;
pub mod cache;
pub mod filtering;
pub mod models;
pub mod screen;
pub mod text;
pub mod util;
