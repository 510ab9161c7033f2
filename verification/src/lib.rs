pub mod equal;
pub mod error;
pub mod grammar;
pub mod parser;
pub mod produced;
pub mod render;
pub mod resolve;
pub mod roundtrip;
pub mod signature;
pub mod text;
pub mod tree;
pub mod wellformed;
