pub mod elab;
pub mod error;
pub mod evaluate;
pub mod pattern;
pub mod query;
pub mod term;
