pub mod context;
pub mod context_manager;
pub mod data_types;
pub mod errors;
