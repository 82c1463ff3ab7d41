//! The HTML parser.
pub mod options;
pub mod tag;
pub mod base;
pub mod forest;
pub mod tables;
