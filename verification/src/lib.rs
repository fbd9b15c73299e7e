pub mod types;
pub mod api;
pub mod reduce;
pub mod driver;
