//! A node of the syntax tree: a block or an inline node.
use vstd::prelude::*;
use crate::parser::in_line_node::InLineNode;
use crate::parser::markdown_node::MarkdownNode;

verus! {

#[derive(Debug)]
pub enum AstNode {
    Block(MarkdownNode),
    InLineNode(InLineNode),
}

} // verus!
