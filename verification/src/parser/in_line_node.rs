//! Inline content of a block: text and the spans that wrap it.
use vstd::prelude::*;

verus! {

#[derive(Debug, PartialEq)]
pub enum InLineNode {
    BreakLine,
    Text(String),
    Emphasis(Vec<InLineNode>),
    Strong(Vec<InLineNode>),
    Strikethrough(Vec<InLineNode>),
    Link { content: Vec<InLineNode>, dest: String },
    Code(Vec<InLineNode>),
}

/// What an inline node holds, with text as sequences of characters.
pub enum Inline {
    BreakLine,
    Text(Seq<char>),
    Emphasis(Seq<Inline>),
    Strong(Seq<Inline>),
    Strikethrough(Seq<Inline>),
    Link { content: Seq<Inline>, dest: Seq<char> },
    Code(Seq<Inline>),
}

pub open spec fn inline_view(n: InLineNode) -> Inline
    decreases n, 1nat,
{
    match n {
        InLineNode::BreakLine => Inline::BreakLine,
        InLineNode::Text(s) => Inline::Text(s@),
        InLineNode::Emphasis(c) => Inline::Emphasis(inlines_view(c@)),
        InLineNode::Strong(c) => Inline::Strong(inlines_view(c@)),
        InLineNode::Strikethrough(c) => Inline::Strikethrough(inlines_view(c@)),
        InLineNode::Link { content, dest } => Inline::Link { content: inlines_view(content@), dest: dest@ },
        InLineNode::Code(c) => Inline::Code(inlines_view(c@)),
    }
}

pub open spec fn inlines_view(s: Seq<InLineNode>) -> Seq<Inline>
    decreases s, 0nat,
{
    Seq::new(
        s.len(),
        |i: int|
            if 0 <= i < s.len() {
                inline_view(s[i])
            } else {
                Inline::BreakLine
            },
    )
}

impl View for InLineNode {
    type V = Inline;

    open spec fn view(&self) -> Inline {
        inline_view(*self)
    }
}

pub proof fn lemma_inlines_view_push(s: Seq<InLineNode>, n: InLineNode)
    ensures
        inlines_view(s.push(n)) == inlines_view(s).push(inline_view(n)),
{
    assert(inlines_view(s.push(n)) =~= inlines_view(s).push(inline_view(n)));
}

pub proof fn lemma_inlines_view_add(s: Seq<InLineNode>, t: Seq<InLineNode>)
    ensures
        inlines_view(s + t) == inlines_view(s) + inlines_view(t),
{
    assert(inlines_view(s + t) =~= inlines_view(s) + inlines_view(t));
}

pub proof fn lemma_inlines_view_update(s: Seq<InLineNode>, i: int, n: InLineNode)
    requires
        0 <= i < s.len(),
    ensures
        inlines_view(s.update(i, n)) == inlines_view(s).update(i, inline_view(n)),
{
    assert(inlines_view(s.update(i, n)) =~= inlines_view(s).update(i, inline_view(n)));
}

impl Clone for InLineNode {
    /// A copy of the node, with the same content.
    fn clone(&self) -> (r: Self)
        ensures
            r@ == self@,
        decreases self, 1nat,
    {
        match self {
            InLineNode::BreakLine => InLineNode::BreakLine,
            InLineNode::Text(s) => InLineNode::Text(s.clone()),
            InLineNode::Emphasis(c) => InLineNode::Emphasis(clone_nodes(c)),
            InLineNode::Strong(c) => InLineNode::Strong(clone_nodes(c)),
            InLineNode::Strikethrough(c) => InLineNode::Strikethrough(clone_nodes(c)),
            InLineNode::Link { content, dest } => InLineNode::Link { content: clone_nodes(content), dest: dest.clone() },
            InLineNode::Code(c) => InLineNode::Code(clone_nodes(c)),
        }
    }
}

/// A copy of each node of `v`.
pub fn clone_nodes(v: &Vec<InLineNode>) -> (r: Vec<InLineNode>)
    ensures
        inlines_view(r@) == inlines_view(v@),
    decreases v, 0nat,
{
    let mut r: Vec<InLineNode> = Vec::new();
    let mut i: usize = 0;
    while i < v.len()
        invariant
            i <= v.len(),
            r.len() == i,
            forall|k: int| 0 <= k < i ==> (#[trigger] r@[k])@ == v@[k]@,
        decreases v.len() - i,
    {
        assert(decreases_to!(v => v@[i as int]));
        r.push(v[i].clone());
        i += 1;
    }
    assert(inlines_view(r@) =~= inlines_view(v@));
    r
}

} // verus!
