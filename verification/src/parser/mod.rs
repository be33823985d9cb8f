pub mod ast;
pub mod evaluator;
pub mod functions;
pub mod lexer;
pub mod parser;
pub mod value;

pub use self::evaluator::evaluate;
pub use self::evaluator::get_refs;
pub use self::lexer::lex;
pub use self::parser::parse;
pub use self::parser::Error;
