//! What whole pages come out of small sources: the HTML text around a paragraph or heading.
use vstd::prelude::*;
use crate::lexer::lexer::is_alphanumeric;
use crate::lexer::scanner::scan;
use crate::numbers::decimal;
use crate::parser::grammar::document;
use crate::parser::in_line_node::Inline;
use crate::parser::markdown_node::Block;
use crate::parser::parse_laws::{is_word, lemma_code_span_line, lemma_emphasis_line, lemma_heading_line,
    lemma_link_line, lemma_strikethrough_line, lemma_strong_line};
use crate::run::{convert, page_of};
use crate::transformer::html_ast_transform::{element, html_of_block, html_of_inline, html_of_inlines};
use crate::transformer::html_node::{Display, Html};
use crate::transformer::html_transform::{is_one_line_block, is_text_block, render, render_all, tabs};
use crate::transformer::html_wrapper::{document_of, page_title, text_of, text_of_all};

verus! {

/// The page around one block written as `block` (indented by two tabs), with `title` as its
/// title.
pub open spec fn page_text(title: Seq<char>, block: Seq<char>) -> Seq<char> {
    "<html>\n\t<head>\n<title>"@ + title + "</title>\t</head>\n\t<body>\n"@ + block + "\t</body>\n</html>\n"@
}

proof fn lemma_render_one(x: Html, level: nat)
    ensures
        render_all(seq![x], level) == render(x, level),
{
    assert(seq![x].subrange(0, 0) =~= Seq::<Html>::empty());
    assert(render_all(Seq::<Html>::empty(), level) == Seq::<char>::empty());
    assert(Seq::<char>::empty() + render(x, level) =~= render(x, level));
}

proof fn lemma_render_two(x: Html, y: Html, level: nat)
    ensures
        render_all(seq![x, y], level) == render(x, level) + render(y, level),
{
    assert(seq![x, y].subrange(0, 1) =~= seq![x]);
    lemma_render_one(x, level);
}

proof fn lemma_tags()
    ensures
        !is_text_block("html"@) && !is_one_line_block("html"@),
        !is_text_block("head"@) && !is_one_line_block("head"@),
        !is_text_block("body"@) && !is_one_line_block("body"@),
        !is_text_block("title"@),
        is_text_block("p"@) && is_one_line_block("p"@),
        is_text_block("h1"@) && is_one_line_block("h1"@),
        "h1"@ != "p"@,
        tabs(0) == Seq::<char>::empty(),
        tabs(1) == seq!['\t'],
        tabs(2) == seq!['\t', '\t'],
{
    reveal_strlit("html");
    reveal_strlit("head");
    reveal_strlit("body");
    reveal_strlit("title");
    reveal_strlit("p");
    reveal_strlit("h1");
    reveal_strlit("h2");
    reveal_strlit("h3");
    reveal_strlit("h4");
    reveal_strlit("h5");
    reveal_strlit("h6");
    reveal_strlit("pre");
    reveal_strlit("code");
    assert forall|x: Seq<char>| x.len() == 4 && x[0] != 'c' implies !is_text_block(x) && !is_one_line_block(x) by {
        assert(x.len() != "p"@.len() && x.len() != "h1"@.len() && x.len() != "pre"@.len());
        assert(x[0] != "code"@[0]);
    }
    assert("html"@.len() == 4 && "html"@[0] == 'h');
    assert("head"@.len() == 4 && "head"@[0] == 'h');
    assert("body"@.len() == 4 && "body"@[0] == 'b');
    assert("title"@.len() == 5);
    assert("h1"@[0] != "p"@[0]);
    assert(tabs(0) =~= Seq::<char>::empty());
    assert(tabs(1) =~= seq!['\t']);
    assert(tabs(2) =~= seq!['\t', '\t']);
}

proof fn lemma_render_title(title: Seq<char>)
    ensures
        render(element("title"@, None, seq![Html::Text(title)], Display::Inline), 2) == "<title>"@ + title
            + "</title>"@,
{
    reveal_strlit("title");
    reveal_strlit("<title>");
    reveal_strlit("</title>");
    lemma_tags();
    lemma_render_one(Html::Text(title), 3);
    assert(render(element("title"@, None, seq![Html::Text(title)], Display::Inline), 2) =~= "<title>"@ + title
        + "</title>"@);
}

proof fn lemma_render_head(title: Seq<char>)
    ensures
        render(element("head"@, None, seq![element("title"@, None, seq![Html::Text(title)], Display::Inline)],
            Display::Block), 1) == "\t<head>\n<title>"@ + title + "</title>\t</head>\n"@,
{
    reveal_strlit("head");
    reveal_strlit("<title>");
    reveal_strlit("</title>");
    reveal_strlit("\t<head>\n<title>");
    reveal_strlit("</title>\t</head>\n");
    lemma_tags();
    let t = element("title"@, None, seq![Html::Text(title)], Display::Inline);
    lemma_render_title(title);
    lemma_render_one(t, 2);
    assert(render(element("head"@, None, seq![t], Display::Block), 1) =~= "\t<head>\n<title>"@ + title
        + "</title>\t</head>\n"@);
}

proof fn lemma_render_body(b: Html)
    ensures
        render(element("body"@, None, seq![b], Display::Block), 1) == "\t<body>\n"@ + render(b, 2) + "\t</body>\n"@,
{
    reveal_strlit("body");
    reveal_strlit("\t<body>\n");
    reveal_strlit("\t</body>\n");
    lemma_tags();
    lemma_render_one(b, 2);
    assert(render(element("body"@, None, seq![b], Display::Block), 1) =~= "\t<body>\n"@ + render(b, 2)
        + "\t</body>\n"@);
}

/// The text of a page whose body is the one block `b`.
proof fn lemma_page_of_one(b: Html)
    ensures
        render(document_of(seq![b]), 0) == page_text(page_title(seq![b]), render(b, 2)),
{
    reveal_strlit("html");
    reveal_strlit("<html>\n\t<head>\n<title>");
    reveal_strlit("</title>\t</head>\n\t<body>\n");
    reveal_strlit("\t</body>\n</html>\n");
    reveal_strlit("\t<head>\n<title>");
    reveal_strlit("</title>\t</head>\n");
    reveal_strlit("\t<body>\n");
    reveal_strlit("\t</body>\n");
    lemma_tags();
    let title = page_title(seq![b]);
    let t = element("title"@, None, seq![Html::Text(title)], Display::Inline);
    let head = element("head"@, None, seq![t], Display::Block);
    let body = element("body"@, None, seq![b], Display::Block);
    lemma_render_head(title);
    lemma_render_body(b);
    lemma_render_two(head, body, 1);
    assert(render(document_of(seq![b]), 0) =~= page_text(title, render(b, 2)));
}

/// A span of inline HTML around the text `w`.
proof fn lemma_span_render(tag: Seq<char>, w: Seq<char>)
    ensures
        html_of_inlines(seq![Inline::Text(w)]) == seq![Html::Text(w)],
        render_all(html_of_inlines(seq![Inline::Text(w)]), 3) == w,
        render(element(tag, None, seq![Html::Text(w)], Display::Inline), 2) == seq!['<'] + tag + seq!['>'] + w
            + seq!['<', '/'] + tag + seq!['>'],
{
    assert(html_of_inlines(seq![Inline::Text(w)]) =~= seq![Html::Text(w)]);
    lemma_render_one(Html::Text(w), 3);
    lemma_render_one(Html::Text(w), if is_text_block(tag) { 2nat } else { 3nat });
    assert(render(element(tag, None, seq![Html::Text(w)], Display::Inline), 2) =~= seq!['<'] + tag + seq!['>'] + w
        + seq!['<', '/'] + tag + seq!['>']);
}

/// A paragraph holding the one inline node `n`, on a page.
proof fn lemma_paragraph_page(n: Inline)
    ensures
        render(page_of(seq![Block::Paragraph(seq![n])]), 0) == page_text("My page"@, "\t\t<p>"@ + render(
            html_of_inline(n), 2) + "</p>\n"@),
{
    reveal_strlit("p");
    reveal_strlit("h1");
    reveal_strlit("\t\t<p>");
    reveal_strlit("</p>\n");
    lemma_tags();
    let b = html_of_block(Block::Paragraph(seq![n]));
    assert(Seq::new(1, |i: int| html_of_block(seq![Block::Paragraph(seq![n])][i])) =~= seq![b]);
    assert(page_of(seq![Block::Paragraph(seq![n])]) == document_of(seq![b]));
    assert(html_of_inlines(seq![n]) =~= seq![html_of_inline(n)]);
    lemma_render_one(html_of_inline(n), 2);
    lemma_page_of_one(b);
    assert(page_title(seq![b]) == "My page"@);
    assert(render(b, 2) =~= "\t\t<p>"@ + render(html_of_inline(n), 2) + "</p>\n"@);
}

/// `*w*` becomes a page holding `<p><em>w</em></p>`.
pub proof fn lemma_emphasis_page(w: Seq<char>)
    requires
        is_word(w),
        is_alphanumeric(w.last()),
        w.len() + 4 < usize::MAX,
    ensures
        convert(seq!['*'] + w + seq!['*']) == Some(page_text("My page"@, "\t\t<p><em>"@ + w + "</em></p>\n"@)),
{
    reveal_strlit("em");
    reveal_strlit("\t\t<p><em>");
    reveal_strlit("</em></p>\n");
    reveal_strlit("\t\t<p>");
    reveal_strlit("</p>\n");
    lemma_emphasis_line(w);
    let n = Inline::Emphasis(seq![Inline::Text(w)]);
    lemma_paragraph_page(n);
    lemma_span_render("em"@, w);
    assert("\t\t<p>"@ + render(html_of_inline(n), 2) + "</p>\n"@ =~= "\t\t<p><em>"@ + w + "</em></p>\n"@);
}

/// `**w**` becomes a page holding `<p><strong>w</strong></p>`.
pub proof fn lemma_strong_page(w: Seq<char>)
    requires
        is_word(w),
        is_alphanumeric(w.last()),
        w.len() + 4 < usize::MAX,
    ensures
        convert(seq!['*', '*'] + w + seq!['*', '*']) == Some(page_text("My page"@, "\t\t<p><strong>"@ + w
            + "</strong></p>\n"@)),
{
    reveal_strlit("strong");
    reveal_strlit("\t\t<p><strong>");
    reveal_strlit("</strong></p>\n");
    reveal_strlit("\t\t<p>");
    reveal_strlit("</p>\n");
    lemma_strong_line(w);
    let n = Inline::Strong(seq![Inline::Text(w)]);
    lemma_paragraph_page(n);
    lemma_span_render("strong"@, w);
    assert("\t\t<p>"@ + render(html_of_inline(n), 2) + "</p>\n"@ =~= "\t\t<p><strong>"@ + w + "</strong></p>\n"@);
}

/// `~~w~~` becomes a page holding `<p><del>w</del></p>`.
pub proof fn lemma_strikethrough_page(w: Seq<char>)
    requires
        is_word(w),
        w.len() + 4 < usize::MAX,
    ensures
        convert(seq!['~', '~'] + w + seq!['~', '~']) == Some(page_text("My page"@, "\t\t<p><del>"@ + w
            + "</del></p>\n"@)),
{
    reveal_strlit("del");
    reveal_strlit("\t\t<p><del>");
    reveal_strlit("</del></p>\n");
    reveal_strlit("\t\t<p>");
    reveal_strlit("</p>\n");
    lemma_strikethrough_line(w);
    let n = Inline::Strikethrough(seq![Inline::Text(w)]);
    lemma_paragraph_page(n);
    lemma_span_render("del"@, w);
    assert("\t\t<p>"@ + render(html_of_inline(n), 2) + "</p>\n"@ =~= "\t\t<p><del>"@ + w + "</del></p>\n"@);
}

/// `` `w` `` becomes a page holding `<p><code>w</code></p>`.
pub proof fn lemma_code_span_page(w: Seq<char>)
    requires
        is_word(w),
        w.len() + 2 < usize::MAX,
    ensures
        convert(seq!['`'] + w + seq!['`']) == Some(page_text("My page"@, "\t\t<p><code>"@ + w + "</code></p>\n"@)),
{
    reveal_strlit("code");
    reveal_strlit("\t\t<p><code>");
    reveal_strlit("</code></p>\n");
    reveal_strlit("\t\t<p>");
    reveal_strlit("</p>\n");
    lemma_code_span_line(w);
    let n = Inline::Code(seq![Inline::Text(w)]);
    lemma_paragraph_page(n);
    lemma_span_render("code"@, w);
    assert("\t\t<p>"@ + render(html_of_inline(n), 2) + "</p>\n"@ =~= "\t\t<p><code>"@ + w + "</code></p>\n"@);
}

/// `[w](d)` becomes a page holding `<p><a href="d">w</a></p>`.
pub proof fn lemma_link_page(w: Seq<char>, d: Seq<char>)
    requires
        is_word(w),
        is_word(d),
        w.len() + d.len() + 4 < usize::MAX,
    ensures
        convert(seq!['['] + w + seq![']', '('] + d + seq![')']) == Some(page_text("My page"@, "\t\t<p><a href=\""@
            + d + "\">"@ + w + "</a></p>\n"@)),
{
    reveal_strlit("a");
    reveal_strlit("href");
    reveal_strlit("\t\t<p><a href=\"");
    reveal_strlit("\">");
    reveal_strlit("</a></p>\n");
    reveal_strlit("\t\t<p>");
    reveal_strlit("</p>\n");
    lemma_link_line(w, d);
    let n = Inline::Link { content: seq![Inline::Text(w)], dest: d };
    lemma_paragraph_page(n);
    assert(html_of_inlines(seq![Inline::Text(w)]) =~= seq![Html::Text(w)]);
    lemma_render_one(Html::Text(w), 3);
    lemma_render_one(Html::Text(w), 2);
    let a = seq![("href"@, d)];
    assert(crate::transformer::html_transform::join_attrs(a) == crate::transformer::html_transform::attr_text(a[0]));
    assert(render(html_of_inline(n), 2) =~= "<a href=\""@ + d + "\">"@ + w + "</a>"@) by {
        reveal_strlit("<a href=\"");
        reveal_strlit("</a>");
    }
    reveal_strlit("<a href=\"");
    reveal_strlit("</a>");
    assert("\t\t<p>"@ + render(html_of_inline(n), 2) + "</p>\n"@ =~= "\t\t<p><a href=\""@ + d + "\">"@ + w
        + "</a></p>\n"@);
}

/// `# w` becomes a page titled `w` that holds `<h1>w</h1>`.
pub proof fn lemma_heading_page(w: Seq<char>)
    requires
        is_word(w),
        w.len() + 2 < usize::MAX,
    ensures
        convert(seq!['#', ' '] + w) == Some(page_text(w, "\t\t<h1>"@ + w + "</h1>\n"@)),
{
    reveal_strlit("h1");
    reveal_strlit("\t\t<h1>");
    reveal_strlit("</h1>\n");
    lemma_tags();
    lemma_heading_line(w);
    let blk = Block::Heading { level: 1, content: seq![Inline::Text(w)] };
    let b = html_of_block(blk);
    assert(decimal(1) =~= seq!['1']);
    assert(seq!['h'] + decimal(1) =~= "h1"@);
    assert(Seq::new(1, |i: int| html_of_block(seq![blk][i])) =~= seq![b]);
    assert(page_of(seq![blk]) == document_of(seq![b]));
    assert(html_of_inlines(seq![Inline::Text(w)]) =~= seq![Html::Text(w)]);
    lemma_render_one(Html::Text(w), 2);
    lemma_page_of_one(b);
    assert(seq![Html::Text(w)].subrange(0, 0) =~= Seq::<Html>::empty());
    assert(text_of_all(Seq::<Html>::empty()) == Seq::<char>::empty());
    assert(seq![Html::Text(w)][0] == Html::Text(w));
    assert(text_of(Html::Text(w)) == w);
    assert(Seq::<char>::empty() + w =~= w);
    assert(text_of_all(seq![Html::Text(w)]) == w);
    assert(b->children == seq![Html::Text(w)]);
    assert(b->tag == "h1"@);
    assert(seq![b][0] == b);
    assert(page_title(seq![b]) == w);
    assert(render(b, 2) =~= "\t\t<h1>"@ + w + "</h1>\n"@);
}

} // verus!
