pub mod bits;
pub mod processor;
pub mod words;
