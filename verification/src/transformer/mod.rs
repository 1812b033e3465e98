pub mod html_node;
pub mod html_transform;
pub mod html_ast_transform;
pub mod html_wrapper;
