pub mod json;
pub mod laws;
pub mod output;
pub mod parser;
pub mod ser;
pub mod text;
