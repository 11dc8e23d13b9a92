pub mod errors;
pub mod location;
pub mod offsets;
pub mod source_file;
pub mod source_manager;
pub mod token;
