pub mod archive;
pub mod handlers;
pub mod index;
pub mod laws;
pub mod service;
pub mod store;
pub mod text;
pub mod types;
