//! A small HTML tree.
use vstd::prelude::*;

verus! {

/// How an element is laid out when written out.
#[derive(Debug, Clone, Copy, PartialEq, Eq, Structural)]
pub enum Display {
    Inline,
    Block,
    Void,
}

#[derive(Debug)]
pub enum HtmlNode {
    Element { tag: String, attrs: Option<Vec<(String, String)>>, children: Vec<HtmlNode>, display: Display },
    Text(String),
}

/// What an HTML node holds, with text as sequences of characters.
pub enum Html {
    Element { tag: Seq<char>, attrs: Option<Seq<(Seq<char>, Seq<char>)>>, children: Seq<Html>, display: Display },
    Text(Seq<char>),
}

pub open spec fn attrs_view(a: Seq<(String, String)>) -> Seq<(Seq<char>, Seq<char>)> {
    a.map_values(|p: (String, String)| (p.0@, p.1@))
}

pub open spec fn html_view(n: HtmlNode) -> Html
    decreases n, 1nat,
{
    match n {
        HtmlNode::Element { tag, attrs, children, display } => Html::Element {
            tag: tag@,
            attrs: match attrs {
                Some(a) => Some(attrs_view(a@)),
                None => None,
            },
            children: htmls_view(children@),
            display,
        },
        HtmlNode::Text(t) => Html::Text(t@),
    }
}

pub open spec fn htmls_view(s: Seq<HtmlNode>) -> Seq<Html>
    decreases s, 0nat,
{
    Seq::new(
        s.len(),
        |i: int|
            if 0 <= i < s.len() {
                html_view(s[i])
            } else {
                Html::Text(Seq::empty())
            },
    )
}

impl View for HtmlNode {
    type V = Html;

    open spec fn view(&self) -> Html {
        html_view(*self)
    }
}

/// How deeply elements nest in `h`.
pub open spec fn depth(h: Html) -> nat
    decreases h, 1nat,
{
    match h {
        Html::Element { children, .. } => 1 + depth_all(children),
        Html::Text(_) => 0,
    }
}

pub open spec fn depth_all(s: Seq<Html>) -> nat
    decreases s, 0nat,
{
    if s.len() == 0 {
        0
    } else {
        let a = depth_all(s.subrange(0, s.len() - 1));
        let b = depth(s[s.len() - 1]);
        if a < b { b } else { a }
    }
}

pub proof fn lemma_depth_all(s: Seq<Html>, i: int)
    requires
        0 <= i < s.len(),
    ensures
        depth(s[i]) <= depth_all(s),
    decreases s.len(),
{
    if i < s.len() - 1 {
        lemma_depth_all(s.subrange(0, s.len() - 1), i);
        assert(s.subrange(0, s.len() - 1)[i] == s[i]);
    }
}

} // verus!
