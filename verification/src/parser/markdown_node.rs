//! Blocks of a markdown document.
use vstd::prelude::*;
use crate::parser::in_line_node::{InLineNode, Inline, clone_nodes, inlines_view};

verus! {

#[derive(Debug, PartialEq)]
pub enum MarkdownNode {
    Heading { level: usize, content: Vec<InLineNode> },
    Paragraph(Vec<InLineNode>),
    HorizontalRule,
    Code { language: String, content: Vec<InLineNode> },
}

/// What a block holds, with text as sequences of characters.
pub enum Block {
    Heading { level: usize, content: Seq<Inline> },
    Paragraph(Seq<Inline>),
    HorizontalRule,
    Code { language: Seq<char>, content: Seq<Inline> },
}

impl View for MarkdownNode {
    type V = Block;

    open spec fn view(&self) -> Block {
        match *self {
            MarkdownNode::Heading { level, content } => Block::Heading { level, content: inlines_view(content@) },
            MarkdownNode::Paragraph(c) => Block::Paragraph(inlines_view(c@)),
            MarkdownNode::HorizontalRule => Block::HorizontalRule,
            MarkdownNode::Code { language, content } => Block::Code {
                language: language@,
                content: inlines_view(content@),
            },
        }
    }
}

pub open spec fn blocks_view(s: Seq<MarkdownNode>) -> Seq<Block> {
    s.map_values(|b: MarkdownNode| b@)
}

impl Clone for MarkdownNode {
    /// A copy of the block, with the same content.
    fn clone(&self) -> (r: Self)
        ensures
            r@ == self@,
    {
        match self {
            MarkdownNode::Heading { level, content } => MarkdownNode::Heading { level: *level, content: clone_nodes(content) },
            MarkdownNode::Paragraph(c) => MarkdownNode::Paragraph(clone_nodes(c)),
            MarkdownNode::HorizontalRule => MarkdownNode::HorizontalRule,
            MarkdownNode::Code { language, content } => MarkdownNode::Code {
                language: language.clone(),
                content: clone_nodes(content),
            },
        }
    }
}

} // verus!
