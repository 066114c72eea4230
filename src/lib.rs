pub mod config;
pub mod linter;
pub mod model;
pub mod properties_parser;
pub mod text;
pub mod writer;
pub mod yaml_parser;
