//! Nodes that hand their parts to a visitor.
use vstd::prelude::*;
use crate::parser::in_line_node::{InLineNode, Inline};
use crate::parser::markdown_node::{Block, MarkdownNode};
use crate::parser::visitor::NodeVisitor;

verus! {

/// What `visitor` may give for an inline node: the result of the visitor method for the node's
/// kind, on the node's parts.
pub open spec fn inline_visited<T, V: NodeVisitor<T>>(visitor: V, n: Inline, r: T) -> bool {
    match n {
        Inline::BreakLine => visitor.break_line_result(r),
        Inline::Text(t) => visitor.text_result(t, r),
        Inline::Emphasis(c) => visitor.emphasis_result(c, r),
        Inline::Strong(c) => visitor.strong_result(c, r),
        Inline::Strikethrough(c) => visitor.strikethrough_result(c, r),
        Inline::Link { content, dest } => visitor.link_result(content, dest, r),
        Inline::Code(c) => visitor.code_result(c, r),
    }
}

/// What `visitor` may give for a block: the result of the visitor method for the block's kind,
/// on the block's parts.
pub open spec fn block_visited<T, V: NodeVisitor<T>>(visitor: V, b: Block, r: T) -> bool {
    match b {
        Block::Heading { level, content } => visitor.heading_result(level, content, r),
        Block::Paragraph(c) => visitor.paragraph_result(c, r),
        Block::HorizontalRule => visitor.horizontal_rule_result(r),
        Block::Code { language, content } => visitor.code_block_result(language, content, r),
    }
}

/// A node of the markdown tree: it calls the visitor method for its kind.
pub trait Node {
    fn accept<T, V: NodeVisitor<T>>(&self, visitor: &mut V) -> T;
}

impl Node for InLineNode {
    fn accept<T, V: NodeVisitor<T>>(&self, visitor: &mut V) -> (r: T)
        ensures
            inline_visited(*old(visitor), self@, r),
    {
        match self {
            InLineNode::BreakLine => visitor.visit_break_line(),
            InLineNode::Text(text) => visitor.visit_text(text.as_str()),
            InLineNode::Emphasis(content) => visitor.visit_emphasis(content),
            InLineNode::Strong(content) => visitor.visit_strong(content),
            InLineNode::Strikethrough(content) => visitor.visit_strikethrough(content),
            InLineNode::Link { content, dest } => visitor.visit_link(content, dest.as_str()),
            InLineNode::Code(content) => visitor.visit_code(content),
        }
    }
}

impl Node for MarkdownNode {
    fn accept<T, V: NodeVisitor<T>>(&self, visitor: &mut V) -> (r: T)
        ensures
            block_visited(*old(visitor), self@, r),
    {
        match self {
            MarkdownNode::Heading { level, content } => visitor.visit_heading(level, content),
            MarkdownNode::Paragraph(content) => visitor.visit_paragraph(content),
            MarkdownNode::HorizontalRule => visitor.visit_horizontal_rule(),
            MarkdownNode::Code { language, content } => visitor.visit_code_block(language.as_str(), content),
        }
    }
}

} // verus!
