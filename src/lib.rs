pub mod tracker;
pub mod store;
