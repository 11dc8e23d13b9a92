pub mod annotations;
pub mod ast;
pub mod errors;
pub mod iterators;
pub mod order;
pub mod splice;
pub mod test_utils;
pub mod text;
