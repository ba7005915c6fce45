pub mod record;
pub mod bucket;
pub mod cache;
pub mod store;
pub mod builder;
