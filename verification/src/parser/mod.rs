pub mod ast_node;
pub mod in_line_node;
pub mod markdown_node;
pub mod node;
pub mod visitor;
pub mod grammar;
pub mod core_parser;
pub mod ast_printer;
pub mod parser;
pub mod parse_laws;
pub mod emphasis_laws;
