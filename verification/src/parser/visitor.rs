//! A visitor over the nodes of a markdown tree: one method per kind of node.
use vstd::prelude::*;
use crate::parser::in_line_node::{InLineNode, Inline, inlines_view};

verus! {

/// Computes a value of type `T` for each kind of node, given the node's parts. For each kind,
/// a spec predicate says which results the visitor may give for those parts.
pub trait NodeVisitor<T> {
    spec fn text_result(&self, text: Seq<char>, r: T) -> bool;

    spec fn emphasis_result(&self, content: Seq<Inline>, r: T) -> bool;

    spec fn strong_result(&self, content: Seq<Inline>, r: T) -> bool;

    spec fn strikethrough_result(&self, content: Seq<Inline>, r: T) -> bool;

    spec fn link_result(&self, content: Seq<Inline>, dest: Seq<char>, r: T) -> bool;

    spec fn break_line_result(&self, r: T) -> bool;

    spec fn code_result(&self, content: Seq<Inline>, r: T) -> bool;

    spec fn heading_result(&self, level: usize, content: Seq<Inline>, r: T) -> bool;

    spec fn paragraph_result(&self, content: Seq<Inline>, r: T) -> bool;

    spec fn horizontal_rule_result(&self, r: T) -> bool;

    spec fn code_block_result(&self, language: Seq<char>, content: Seq<Inline>, r: T) -> bool;

    // inline nodes
    fn visit_text(&mut self, text: &str) -> (r: T)
        ensures
            old(self).text_result(text@, r),
    ;

    fn visit_emphasis(&mut self, content: &Vec<InLineNode>) -> (r: T)
        ensures
            old(self).emphasis_result(inlines_view(content@), r),
    ;

    fn visit_strong(&mut self, content: &Vec<InLineNode>) -> (r: T)
        ensures
            old(self).strong_result(inlines_view(content@), r),
    ;

    fn visit_strikethrough(&mut self, content: &Vec<InLineNode>) -> (r: T)
        ensures
            old(self).strikethrough_result(inlines_view(content@), r),
    ;

    fn visit_link(&mut self, content: &Vec<InLineNode>, dest: &str) -> (r: T)
        ensures
            old(self).link_result(inlines_view(content@), dest@, r),
    ;

    fn visit_break_line(&mut self) -> (r: T)
        ensures
            old(self).break_line_result(r),
    ;

    fn visit_code(&mut self, content: &Vec<InLineNode>) -> (r: T)
        ensures
            old(self).code_result(inlines_view(content@), r),
    ;

    // markdown nodes
    fn visit_heading(&mut self, level: &usize, content: &Vec<InLineNode>) -> (r: T)
        ensures
            old(self).heading_result(*level, inlines_view(content@), r),
    ;

    fn visit_paragraph(&mut self, content: &Vec<InLineNode>) -> (r: T)
        ensures
            old(self).paragraph_result(inlines_view(content@), r),
    ;

    fn visit_horizontal_rule(&mut self) -> (r: T)
        ensures
            old(self).horizontal_rule_result(r),
    ;

    fn visit_code_block(&mut self, language: &str, content: &Vec<InLineNode>) -> (r: T)
        ensures
            old(self).code_block_result(language@, inlines_view(content@), r),
    ;
}

} // verus!
