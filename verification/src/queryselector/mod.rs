//! Query selector API
pub mod parser;
pub mod selector;

pub use selector::Selector;
