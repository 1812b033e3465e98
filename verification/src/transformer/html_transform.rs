//! Writes an HTML tree out as text, indenting block elements with tabs.
use vstd::prelude::*;
use vstd::string::StringExecFns;
use crate::text::{push_char, push_str};
use crate::transformer::html_node::{Display, Html, HtmlNode, attrs_view, depth, depth_all,
    htmls_view, lemma_depth_all};

verus! {

/// Paragraphs and headings: their children are not indented further.
pub open spec fn is_text_block(tag: Seq<char>) -> bool {
    tag == "p"@ || tag == "h1"@ || tag == "h2"@ || tag == "h3"@ || tag == "h4"@ || tag == "h5"@ || tag
        == "h6"@
}

/// Block elements written on one line.
pub open spec fn is_one_line_block(tag: Seq<char>) -> bool {
    is_text_block(tag) || tag == "pre"@ || tag == "code"@
}

pub open spec fn tabs(n: nat) -> Seq<char> {
    Seq::new(n, |i: int| '\t')
}

/// `key="value"`.
pub open spec fn attr_text(p: (Seq<char>, Seq<char>)) -> Seq<char> {
    p.0 + seq!['=', '"'] + p.1 + seq!['"']
}

/// The attributes, separated by single spaces.
pub open spec fn join_attrs(a: Seq<(Seq<char>, Seq<char>)>) -> Seq<char>
    decreases a.len(),
{
    if a.len() == 0 {
        Seq::empty()
    } else if a.len() == 1 {
        attr_text(a[0])
    } else {
        join_attrs(a.subrange(0, a.len() - 1)) + seq![' '] + attr_text(a[a.len() - 1])
    }
}

/// An element with its tag, attribute text, content and indentation.
pub open spec fn element_text(tag: Seq<char>, attributes: Seq<char>, inner: Seq<char>, base: Seq<char>, display: Display) -> Seq<char> {
    let open = seq!['<'] + tag + attributes;
    let close = seq!['<', '/'] + tag + seq!['>'];
    match display {
        Display::Inline => open + seq!['>'] + inner + close,
        Display::Block => if is_one_line_block(tag) {
            base + open + seq!['>'] + inner + close + seq!['\n']
        } else {
            base + open + seq!['>', '\n'] + inner + base + close + seq!['\n']
        },
        Display::Void => open + seq![' ', '/', '>'],
    }
}

/// The text of `h` written at indentation `level`.
pub open spec fn render(h: Html, level: nat) -> Seq<char>
    decreases h, 1nat,
{
    match h {
        Html::Element { tag, attrs, children, display } => {
            let base = tabs(level);
            let attributes = match attrs {
                Some(a) => seq![' '] + join_attrs(a),
                None => Seq::empty(),
            };
            let next = if is_text_block(tag) { level } else { level + 1 };
            element_text(tag, attributes, render_all(children, next), base, display)
        },
        Html::Text(t) => t,
    }
}

/// The texts of `s`, one after another, at indentation `level`.
pub open spec fn render_all(s: Seq<Html>, level: nat) -> Seq<char>
    decreases s, 0nat,
{
    if s.len() == 0 {
        Seq::empty()
    } else {
        render_all(s.subrange(0, s.len() - 1), level) + render(s[s.len() - 1], level)
    }
}

fn tab_string(n: usize) -> (s: String)
    ensures
        s@ == tabs(n as nat),
{
    let mut s = String::new();
    let mut k: usize = 0;
    while k < n
        invariant
            k <= n,
            s@ == tabs(k as nat),
        decreases n - k,
    {
        push_char(&mut s, '\t');
        k += 1;
        assert(s@ =~= tabs(k as nat));
    }
    s
}

fn is_text_block_tag(tag: &String) -> (r: bool)
    ensures
        r == is_text_block(tag@),
{
    *tag == String::from_str("p") || *tag == String::from_str("h1") || *tag == String::from_str("h2")
        || *tag == String::from_str("h3") || *tag == String::from_str("h4") || *tag == String::from_str(
        "h5",
    ) || *tag == String::from_str("h6")
}

fn is_one_line_block_tag(tag: &String) -> (r: bool)
    ensures
        r == is_one_line_block(tag@),
{
    is_text_block_tag(tag) || *tag == String::from_str("pre") || *tag == String::from_str("code")
}

fn join_attributes(a: &Vec<(String, String)>) -> (s: String)
    ensures
        s@ == join_attrs(attrs_view(a@)),
{
    let ghost v = attrs_view(a@);
    let mut s = String::new();
    let mut i: usize = 0;
    while i < a.len()
        invariant
            i <= a.len(),
            v == attrs_view(a@),
            s@ == join_attrs(v.subrange(0, i as int)),
        decreases a.len() - i,
    {
        if i > 0 {
            push_char(&mut s, ' ');
        }
        push_str(&mut s, a[i].0.as_str());
        push_char(&mut s, '=');
        push_char(&mut s, '"');
        push_str(&mut s, a[i].1.as_str());
        push_char(&mut s, '"');
        i += 1;
        proof {
            let w = v.subrange(0, i as int);
            assert(w.subrange(0, w.len() - 1) =~= v.subrange(0, i - 1));
            if i == 1 {
                assert(s@ =~= join_attrs(w));
            } else {
                assert(s@ =~= join_attrs(w));
            }
        }
    }
    assert(v.subrange(0, a.len() as int) =~= v);
    s
}

fn write_element(tag: &String, attributes: &String, inner: &String, base_indent: &String, display: Display) -> (out: String)
    ensures
        out@ == element_text(tag@, attributes@, inner@, base_indent@, display),
{
    let mut out = String::new();
    match display {
        Display::Inline => {
            push_char(&mut out, '<');
            push_str(&mut out, tag.as_str());
            push_str(&mut out, attributes.as_str());
            push_char(&mut out, '>');
            push_str(&mut out, inner.as_str());
            push_char(&mut out, '<');
            push_char(&mut out, '/');
            push_str(&mut out, tag.as_str());
            push_char(&mut out, '>');
        },
        Display::Block => {
            if is_one_line_block_tag(tag) {
                push_str(&mut out, base_indent.as_str());
                push_char(&mut out, '<');
                push_str(&mut out, tag.as_str());
                push_str(&mut out, attributes.as_str());
                push_char(&mut out, '>');
                push_str(&mut out, inner.as_str());
                push_char(&mut out, '<');
                push_char(&mut out, '/');
                push_str(&mut out, tag.as_str());
                push_char(&mut out, '>');
                push_char(&mut out, '\n');
            } else {
                push_str(&mut out, base_indent.as_str());
                push_char(&mut out, '<');
                push_str(&mut out, tag.as_str());
                push_str(&mut out, attributes.as_str());
                push_char(&mut out, '>');
                push_char(&mut out, '\n');
                push_str(&mut out, inner.as_str());
                push_str(&mut out, base_indent.as_str());
                push_char(&mut out, '<');
                push_char(&mut out, '/');
                push_str(&mut out, tag.as_str());
                push_char(&mut out, '>');
                push_char(&mut out, '\n');
            }
        },
        Display::Void => {
            push_char(&mut out, '<');
            push_str(&mut out, tag.as_str());
            push_str(&mut out, attributes.as_str());
            push_char(&mut out, ' ');
            push_char(&mut out, '/');
            push_char(&mut out, '>');
        },
    }
    assert(out@ =~= element_text(tag@, attributes@, inner@, base_indent@, display));
    out
}

pub struct HtmlTransformer;

impl HtmlTransformer {
    /// The text of an HTML tree, starting without indentation.
    pub fn transform(html_node: &HtmlNode) -> (s: String)
        requires
            depth(html_node@) <= usize::MAX,
        ensures
            s@ == render(html_node@, 0),
    {
        HtmlTransformer::inner_transform(html_node, 0)
    }

    #[verifier::loop_isolation(false)]
    fn inner_transform(html_node: &HtmlNode, level: usize) -> (s: String)
        requires
            level + depth(html_node@) <= usize::MAX,
        ensures
            s@ == render(html_node@, level as nat),
        decreases html_node,
    {
        match html_node {
            HtmlNode::Element { tag, attrs, children, display } => {
                let base_indent = tab_string(level);

                let attributes = match attrs {
                    Some(attributes) => {
                        let mut s = String::new();
                        push_char(&mut s, ' ');
                        let joined = join_attributes(attributes);
                        push_str(&mut s, joined.as_str());
                        s
                    },
                    None => String::new(),
                };

                let next_level = if is_text_block_tag(tag) {
                    level
                } else {
                    level + 1
                };

                let ghost kids = htmls_view(children@);
                let mut inner = String::new();
                let mut i: usize = 0;
                while i < children.len()
                    invariant
                        i <= children.len(),
                        kids == htmls_view(children@),
                        next_level + depth_all(kids) <= usize::MAX,
                        inner@ == render_all(kids.subrange(0, i as int), next_level as nat),
                    decreases children.len() - i,
                {
                    proof {
                        lemma_depth_all(kids, i as int);
                        assert(kids[i as int] == children@[i as int]@);
                        assert(decreases_to!(*html_node => *children));
                        assert(decreases_to!(*children => children@[i as int]));
                    }
                    let part = HtmlTransformer::inner_transform(&children[i], next_level);
                    push_str(&mut inner, part.as_str());
                    i += 1;
                    proof {
                        let w = kids.subrange(0, i as int);
                        assert(w.subrange(0, w.len() - 1) =~= kids.subrange(0, i - 1));
                    }
                }
                assert(kids.subrange(0, children.len() as int) =~= kids);

                write_element(tag, &attributes, &inner, &base_indent, *display)
            },
            HtmlNode::Text(text) => text.clone(),
        }
    }
}

} // verus!
