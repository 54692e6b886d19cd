pub mod conformance;
pub mod grammar;
pub mod number;
pub mod program;
pub mod render;
pub mod validate;
