//! Wraps page content into a complete HTML document, and builds an index of pages.
use vstd::prelude::*;
use vstd::string::StringExecFns;
use std::path::Path;
use crate::text::push_str;
use crate::transformer::html_ast_transform::element;
use crate::transformer::html_node::{Display, Html, HtmlNode, attrs_view, html_view, htmls_view};

verus! {

/// The text of every text node in `h`, in document order.
pub open spec fn text_of(h: Html) -> Seq<char>
    decreases h, 1nat,
{
    match h {
        Html::Element { children, .. } => text_of_all(children),
        Html::Text(t) => t,
    }
}

pub open spec fn text_of_all(s: Seq<Html>) -> Seq<char>
    decreases s, 0nat,
{
    if s.len() == 0 {
        Seq::empty()
    } else {
        text_of_all(s.subrange(0, s.len() - 1)) + text_of(s[s.len() - 1])
    }
}

/// The title of a page: the text of its first node when that is an `h1` element, else
/// `My page`.
pub open spec fn page_title(body: Seq<Html>) -> Seq<char> {
    if body.len() > 0 && body[0] is Element && body[0]->tag == "h1"@ {
        text_of_all(body[0]->children)
    } else {
        "My page"@
    }
}

/// A document with a head that holds the title and a body that holds `body`.
pub open spec fn document_of(body: Seq<Html>) -> Html {
    element(
        "html"@,
        None,
        seq![
            element("head"@, None, seq![element("title"@, None, seq![Html::Text(page_title(body))], Display::Inline)], Display::Block),
            element("body"@, None, body, Display::Block),
        ],
        Display::Block,
    )
}

/// A link to a page, as a block: `href` is its address and `name` its text.
pub open spec fn index_link(href: Seq<char>, name: Seq<char>) -> Html {
    element("a"@, Some(seq![("href"@, href)]), seq![Html::Text(name)], Display::Block)
}

/// What `Path::with_extension` makes of a path and an extension, as text.
pub uninterp spec fn with_extension_of(path: Seq<char>, ext: Seq<char>) -> Seq<char>;

/// What `Path::file_name` gives for a path, as text: its last component, unless that is `..`
/// or the path ends in no name.
pub uninterp spec fn file_name_of(path: Seq<char>) -> Option<Seq<char>>;

/// `Path::with_extension` on a path given as text (which stays valid text). It panics on an
/// extension that holds a path separator (`/`, and `\` on Windows), so such extensions are
/// left out.
#[verifier::external_body]
fn path_with_extension(path: &str, ext: &str) -> (r: String)
    requires
        forall|k: int| 0 <= k < ext@.len() ==> #[trigger] ext@[k] != '/' && ext@[k] != '\\',
    ensures
        r@ == with_extension_of(path@, ext@),
{
    Path::new(path).with_extension(ext).to_string_lossy().into_owned()
}

/// `Path::file_name` on a path given as text.
#[verifier::external_body]
fn path_file_name(path: &str) -> (r: Option<String>)
    ensures
        match r {
            Some(n) => file_name_of(path@) == Some(n@),
            None => file_name_of(path@) is None,
        },
{
    match Path::new(path).file_name() {
        Some(n) => Some(n.to_string_lossy().into_owned()),
        None => None,
    }
}

/// The address of the page at `path` in an index.
pub open spec fn link_href(path: Seq<char>) -> Seq<char> {
    match file_name_of(with_extension_of(path, "html"@)) {
        Some(n) => n,
        None => "index.html"@,
    }
}

/// The name of the page at `path` in an index.
pub open spec fn link_name(path: Seq<char>) -> Seq<char> {
    match file_name_of(with_extension_of(path, ""@)) {
        Some(n) => n,
        None => link_href(path),
    }
}

pub struct HtmlWrapper;

impl HtmlWrapper {
    /// The address (the file name with an `html` extension, or `index.html` when the path
    /// names no file) and the name (the file name without extension, or the address when
    /// there is none) of the page at `path`.
    pub fn page_link(path: &str) -> (r: (String, String))
        ensures
            r.0@ == link_href(path@),
            r.1@ == link_name(path@),
    {
        proof {
            reveal_strlit("html");
            reveal_strlit("");
        }
        let with_html = path_with_extension(path, "html");
        let href = match path_file_name(with_html.as_str()) {
            Some(n) => n,
            None => String::from_str("index.html"),
        };
        let bare = path_with_extension(path, "");
        let name = match path_file_name(bare.as_str()) {
            Some(n) => n,
            None => href.clone(),
        };
        (href, name)
    }

    /// A document whose body holds one link per page, each made by `page_link` from the
    /// page's path.
    pub fn create_index(paths: &[String]) -> (h: HtmlNode)
        ensures
            h@ == document_of(Seq::new(paths@.len(), |i: int| index_link(link_href(paths@[i]@), link_name(paths@[i]@)))),
    {
        let ghost goal = Seq::new(paths@.len(), |i: int| index_link(link_href(paths@[i]@), link_name(paths@[i]@)));
        let mut links: Vec<HtmlNode> = Vec::new();
        let mut i: usize = 0;
        while i < paths.len()
            invariant
                i <= paths.len(),
                links.len() == i,
                goal == Seq::new(paths@.len(), |i: int| index_link(link_href(paths@[i]@), link_name(paths@[i]@))),
                forall|k: int| 0 <= k < i ==> (#[trigger] links@[k])@ == goal[k],
            decreases paths.len() - i,
        {
            let (href, name) = HtmlWrapper::page_link(paths[i].as_str());
            let ghost hv = href@;
            let ghost nv = name@;
            let mut attrs = Vec::new();
            attrs.push((String::from_str("href"), href));
            assert(attrs_view(attrs@) =~= seq![("href"@, hv)]);
            let mut children = Vec::new();
            children.push(HtmlNode::Text(name));
            assert(htmls_view(children@) =~= seq![Html::Text(nv)]);
            links.push(HtmlNode::Element {
                tag: String::from_str("a"),
                attrs: Some(attrs),
                children,
                display: Display::Block,
            });
            i += 1;
        }
        assert(htmls_view(links@) =~= goal);
        HtmlWrapper::wrap(links)
    }

    /// A document with a head that holds the title and a body that holds `hast`.
    pub fn wrap(hast: Vec<HtmlNode>) -> (h: HtmlNode)
        ensures
            h@ == document_of(htmls_view(hast@)),
    {
        let ghost body = htmls_view(hast@);
        let first = if hast.len() > 0 {
            Some(&hast[0])
        } else {
            None
        };
        let title_text = HtmlWrapper::create_title(first);
        let mut title_children = Vec::new();
        title_children.push(HtmlNode::Text(title_text));
        let title = HtmlNode::Element {
            tag: String::from_str("title"),
            attrs: None,
            display: Display::Inline,
            children: title_children,
        };
        assert(htmls_view(title_children@) =~= seq![Html::Text(page_title(body))]);
        let mut head_children = Vec::new();
        head_children.push(title);
        assert(htmls_view(head_children@) =~= seq![title@]);
        let head = HtmlNode::Element {
            tag: String::from_str("head"),
            attrs: None,
            display: Display::Block,
            children: head_children,
        };
        let body_node = HtmlNode::Element {
            tag: String::from_str("body"),
            attrs: None,
            display: Display::Block,
            children: hast,
        };
        let mut children = Vec::new();
        children.push(head);
        children.push(body_node);
        assert(htmls_view(children@) =~= seq![head@, body_node@]);
        HtmlNode::Element { tag: String::from_str("html"), attrs: None, display: Display::Block, children }
    }

    fn create_title(node: Option<&HtmlNode>) -> (title: String)
        ensures
            title@ == match node {
                Some(n) => page_title(seq![n@]),
                None => page_title(Seq::empty()),
            },
    {
        proof {
            reveal_strlit("My page");
        }
        let default_title = String::from_str("My page");
        match node {
            Some(HtmlNode::Element { tag, children, .. }) => {
                if *tag != String::from_str("h1") {
                    return default_title;
                }
                let mut title = String::new();
                HtmlWrapper::collect_title(children, &mut title);
                title
            },
            _ => default_title,
        }
    }

    fn collect_title(nodes: &Vec<HtmlNode>, out: &mut String)
        ensures
            final(out)@ == old(out)@ + text_of_all(htmls_view(nodes@)),
        decreases nodes,
    {
        let ghost kids = htmls_view(nodes@);
        let mut i: usize = 0;
        while i < nodes.len()
            invariant
                i <= nodes.len(),
                kids == htmls_view(nodes@),
                out@ == old(out)@ + text_of_all(kids.subrange(0, i as int)),
            decreases nodes.len() - i,
        {
            proof {
                assert(decreases_to!(*nodes => nodes@[i as int]));
            }
            let ghost before = out@;
            assert(kids[i as int] == html_view(nodes@[i as int]));
            match &nodes[i] {
                HtmlNode::Element { children, .. } => {
                    proof {
                        assert(decreases_to!(nodes@[i as int] => *children));
                    }
                    HtmlWrapper::collect_title(children, out);
                    assert(text_of(kids[i as int]) == text_of_all(htmls_view(children@)));
                },
                HtmlNode::Text(text) => {
                    push_str(out, text.as_str());
                    assert(text_of(kids[i as int]) == text@);
                },
            }
            assert(out@ == before + text_of(kids[i as int]));
            i += 1;
            proof {
                let w = kids.subrange(0, i as int);
                assert(w.subrange(0, w.len() - 1) =~= kids.subrange(0, i - 1));
                assert(kids[i - 1] == nodes@[i - 1]@);
            }
        }
        assert(kids.subrange(0, nodes.len() as int) =~= kids);
    }
}

} // verus!
