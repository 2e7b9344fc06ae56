pub mod language;
pub mod parser;
pub mod symbol;
pub mod text;
pub mod tree;
