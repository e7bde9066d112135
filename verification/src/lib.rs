pub mod emit;
pub mod generate;
pub mod laws;
pub mod path;
pub mod request;
pub mod validate;
