pub mod lexer;
pub mod numbers;
pub mod text;
pub mod parser;
pub mod transformer;
pub mod markdown;
pub mod run;
pub mod page_laws;
