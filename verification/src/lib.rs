//! Typed paths: Unix and Windows paths that are parsed the same way on every platform.
pub mod common;
pub mod constants;
pub mod convert;
pub mod parser;
pub mod typed;
pub mod unix;
pub mod windows;
