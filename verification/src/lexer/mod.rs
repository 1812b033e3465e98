pub mod error_handler;
pub mod lexer;
pub mod scanner;
pub mod token;
