//! Turns the markdown syntax tree into an HTML tree.
use vstd::prelude::*;
use crate::parser::visitor::NodeVisitor;
use vstd::string::StringExecFns;
use crate::numbers::{decimal, usize_to_string};
use crate::parser::in_line_node::{InLineNode, Inline, inline_view, inlines_view};
use crate::parser::markdown_node::{Block, MarkdownNode};
use crate::text::{push_char, push_str};
use crate::transformer::html_node::{Display, Html, HtmlNode, attrs_view, htmls_view};

verus! {

pub open spec fn element(tag: Seq<char>, attrs: Option<Seq<(Seq<char>, Seq<char>)>>, children: Seq<Html>, display: Display) -> Html {
    Html::Element { tag, attrs, children, display }
}

/// The HTML for an inline node.
pub open spec fn html_of_inline(n: Inline) -> Html
    decreases n, 1nat,
{
    match n {
        Inline::BreakLine => element("br"@, None, Seq::empty(), Display::Void),
        Inline::Text(t) => Html::Text(t),
        Inline::Emphasis(c) => element("em"@, None, html_of_inlines(c), Display::Inline),
        Inline::Strong(c) => element("strong"@, None, html_of_inlines(c), Display::Inline),
        Inline::Strikethrough(c) => element("del"@, None, html_of_inlines(c), Display::Inline),
        Inline::Link { content, dest } => element(
            "a"@,
            Some(seq![("href"@, dest)]),
            html_of_inlines(content),
            Display::Inline,
        ),
        Inline::Code(c) => element("code"@, None, html_of_inlines(c), Display::Inline),
    }
}

pub open spec fn html_of_inlines(s: Seq<Inline>) -> Seq<Html>
    decreases s, 0nat,
{
    Seq::new(
        s.len(),
        |i: int|
            if 0 <= i < s.len() {
                html_of_inline(s[i])
            } else {
                Html::Text(Seq::empty())
            },
    )
}

/// The HTML for a block.
pub open spec fn html_of_block(b: Block) -> Html {
    match b {
        Block::Heading { level, content } => element(
            seq!['h'] + decimal(level as nat),
            None,
            html_of_inlines(content),
            Display::Block,
        ),
        Block::Paragraph(c) => element("p"@, None, html_of_inlines(c), Display::Block),
        Block::HorizontalRule => element("hr"@, None, Seq::empty(), Display::Block),
        Block::Code { language, content } => element(
            "pre"@,
            None,
            seq![element("code"@, None, html_of_inlines(content), Display::Inline)],
            Display::Block,
        ),
    }
}

pub struct HtmlAstTransformer;

fn plain_element(tag: &str, children: Vec<HtmlNode>, display: Display) -> (h: HtmlNode)
    ensures
        h@ == element(tag@, None, htmls_view(children@), display),
{
    HtmlNode::Element { tag: String::from_str(tag), attrs: None, children, display }
}

impl HtmlAstTransformer {
    /// The HTML for a block.
    pub fn transform(&mut self, node: &MarkdownNode) -> (h: HtmlNode)
        ensures
            h@ == html_of_block(node@),
    {
        match node {
            MarkdownNode::Heading { level, content } => self.visit_heading(level, content),
            MarkdownNode::Paragraph(content) => self.visit_paragraph(content),
            MarkdownNode::HorizontalRule => self.visit_horizontal_rule(),
            MarkdownNode::Code { language, content } => self.visit_code_block(language.as_str(), content),
        }
    }

    fn transform_in_line(&mut self, nodes: &Vec<InLineNode>) -> (v: Vec<HtmlNode>)
        ensures
            htmls_view(v@) == html_of_inlines(inlines_view(nodes@)),
        decreases nodes, 0nat,
    {
        let mut v: Vec<HtmlNode> = Vec::new();
        let mut i: usize = 0;
        while i < nodes.len()
            invariant
                i <= nodes.len(),
                v.len() == i,
                forall|k: int| 0 <= k < i ==> (#[trigger] v@[k])@ == html_of_inline(inline_view(nodes@[k])),
            decreases nodes.len() - i,
        {
            proof {
                assert(decreases_to!(*nodes => nodes@[i as int]));
            }
            let h = self.transform_inline(&nodes[i]);
            v.push(h);
            i += 1;
        }
        assert(htmls_view(v@) =~= html_of_inlines(inlines_view(nodes@)));
        v
    }

    fn transform_inline(&mut self, node: &InLineNode) -> (h: HtmlNode)
        ensures
            h@ == html_of_inline(inline_view(*node)),
        decreases node, 1nat,
    {
        match node {
            InLineNode::BreakLine => {
                let h = plain_element("br", Vec::new(), Display::Void);
                assert(htmls_view(Seq::<HtmlNode>::empty()) =~= Seq::<Html>::empty());
                h
            },
            InLineNode::Text(text) => HtmlNode::Text(text.clone()),
            InLineNode::Emphasis(content) => {
                let children = self.transform_in_line(content);
                plain_element("em", children, Display::Inline)
            },
            InLineNode::Strong(content) => {
                let children = self.transform_in_line(content);
                plain_element("strong", children, Display::Inline)
            },
            InLineNode::Strikethrough(content) => {
                let children = self.transform_in_line(content);
                plain_element("del", children, Display::Inline)
            },
            InLineNode::Link { content, dest } => {
                let children = self.transform_in_line(content);
                link_element(children, dest.as_str())
            },
            InLineNode::Code(content) => {
                let children = self.transform_in_line(content);
                plain_element("code", children, Display::Inline)
            },
        }
    }
}

/// A link to `dest` around `children`.
fn link_element(children: Vec<HtmlNode>, dest: &str) -> (h: HtmlNode)
    ensures
        h@ == element("a"@, Some(seq![("href"@, dest@)]), htmls_view(children@), Display::Inline),
{
    let mut attrs = Vec::new();
    attrs.push((String::from_str("href"), String::from_str(dest)));
    assert(attrs_view(attrs@) =~= seq![("href"@, dest@)]);
    HtmlNode::Element { tag: String::from_str("a"), attrs: Some(attrs), children, display: Display::Inline }
}

impl NodeVisitor<HtmlNode> for HtmlAstTransformer {
    open spec fn text_result(&self, text: Seq<char>, r: HtmlNode) -> bool {
        r@ == html_of_inline(Inline::Text(text))
    }

    open spec fn emphasis_result(&self, content: Seq<Inline>, r: HtmlNode) -> bool {
        r@ == html_of_inline(Inline::Emphasis(content))
    }

    open spec fn strong_result(&self, content: Seq<Inline>, r: HtmlNode) -> bool {
        r@ == html_of_inline(Inline::Strong(content))
    }

    open spec fn strikethrough_result(&self, content: Seq<Inline>, r: HtmlNode) -> bool {
        r@ == html_of_inline(Inline::Strikethrough(content))
    }

    open spec fn link_result(&self, content: Seq<Inline>, dest: Seq<char>, r: HtmlNode) -> bool {
        r@ == html_of_inline(Inline::Link { content, dest })
    }

    open spec fn break_line_result(&self, r: HtmlNode) -> bool {
        r@ == html_of_inline(Inline::BreakLine)
    }

    open spec fn code_result(&self, content: Seq<Inline>, r: HtmlNode) -> bool {
        r@ == html_of_inline(Inline::Code(content))
    }

    open spec fn heading_result(&self, level: usize, content: Seq<Inline>, r: HtmlNode) -> bool {
        r@ == html_of_block(Block::Heading { level, content })
    }

    open spec fn paragraph_result(&self, content: Seq<Inline>, r: HtmlNode) -> bool {
        r@ == html_of_block(Block::Paragraph(content))
    }

    open spec fn horizontal_rule_result(&self, r: HtmlNode) -> bool {
        r@ == html_of_block(Block::HorizontalRule)
    }

    open spec fn code_block_result(&self, language: Seq<char>, content: Seq<Inline>, r: HtmlNode) -> bool {
        r@ == html_of_block(Block::Code { language, content })
    }

    fn visit_text(&mut self, text: &str) -> (h: HtmlNode)
        ensures
            h@ == html_of_inline(Inline::Text(text@)),
    {
        HtmlNode::Text(String::from_str(text))
    }

    fn visit_emphasis(&mut self, content: &Vec<InLineNode>) -> (h: HtmlNode)
        ensures
            h@ == html_of_inline(Inline::Emphasis(inlines_view(content@))),
    {
        let children = self.transform_in_line(content);
        plain_element("em", children, Display::Inline)
    }

    fn visit_strong(&mut self, content: &Vec<InLineNode>) -> (h: HtmlNode)
        ensures
            h@ == html_of_inline(Inline::Strong(inlines_view(content@))),
    {
        let children = self.transform_in_line(content);
        plain_element("strong", children, Display::Inline)
    }

    fn visit_strikethrough(&mut self, content: &Vec<InLineNode>) -> (h: HtmlNode)
        ensures
            h@ == html_of_inline(Inline::Strikethrough(inlines_view(content@))),
    {
        let children = self.transform_in_line(content);
        plain_element("del", children, Display::Inline)
    }

    fn visit_link(&mut self, content: &Vec<InLineNode>, dest: &str) -> (h: HtmlNode)
        ensures
            h@ == html_of_inline(Inline::Link { content: inlines_view(content@), dest: dest@ }),
    {
        let children = self.transform_in_line(content);
        link_element(children, dest)
    }

    fn visit_break_line(&mut self) -> (h: HtmlNode)
        ensures
            h@ == html_of_inline(Inline::BreakLine),
    {
        let h = plain_element("br", Vec::new(), Display::Void);
        assert(htmls_view(Seq::<HtmlNode>::empty()) =~= Seq::<Html>::empty());
        h
    }

    fn visit_code(&mut self, content: &Vec<InLineNode>) -> (h: HtmlNode)
        ensures
            h@ == html_of_inline(Inline::Code(inlines_view(content@))),
    {
        let children = self.transform_in_line(content);
        plain_element("code", children, Display::Inline)
    }

    fn visit_heading(&mut self, level: &usize, content: &Vec<InLineNode>) -> (h: HtmlNode)
        ensures
            h@ == html_of_block(Block::Heading { level: *level, content: inlines_view(content@) }),
    {
        let mut tag = String::new();
        push_char(&mut tag, 'h');
        let digits = usize_to_string(*level);
        push_str(&mut tag, digits.as_str());
        let children = self.transform_in_line(content);
        HtmlNode::Element { tag, attrs: None, children, display: Display::Block }
    }

    fn visit_paragraph(&mut self, content: &Vec<InLineNode>) -> (h: HtmlNode)
        ensures
            h@ == html_of_block(Block::Paragraph(inlines_view(content@))),
    {
        let children = self.transform_in_line(content);
        plain_element("p", children, Display::Block)
    }

    fn visit_horizontal_rule(&mut self) -> (h: HtmlNode)
        ensures
            h@ == html_of_block(Block::HorizontalRule),
    {
        let h = plain_element("hr", Vec::new(), Display::Block);
        assert(htmls_view(Seq::<HtmlNode>::empty()) =~= Seq::<Html>::empty());
        h
    }

    fn visit_code_block(&mut self, language: &str, content: &Vec<InLineNode>) -> (h: HtmlNode)
        ensures
            h@ == html_of_block(Block::Code { language: language@, content: inlines_view(content@) }),
    {
        let children = self.transform_in_line(content);
        let code = plain_element("code", children, Display::Inline);
        let mut inner = Vec::new();
        inner.push(code);
        assert(htmls_view(inner@) =~= seq![code@]);
        plain_element("pre", inner, Display::Block)
    }
}

} // verus!
