pub mod errors;
pub mod parser;

pub use errors::IdError;
pub use parser::parse;
pub use parser::render_with_delimiters;
pub use parser::render_without_delimiters;
