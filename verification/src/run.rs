//! Markdown source text to a complete HTML page.
use vstd::prelude::*;
use vstd::string::StrSliceExecFns;
use crate::lexer::scanner::{Scanner, scan, scan_from, scan_step, text_end, is_text_end, tok};
use crate::lexer::token::{TokenType, TokenView};
use crate::parser::grammar::{block_loop, block_step, para_loop, paragraph, in_line_until, inline_loop, inline_item, text_item, add_inline, all_whitespace, lemma_resolve_without_closers, can_close_at, count_run, at_end};
use crate::parser::in_line_node::Inline;
use crate::text::spec_is_whitespace;
use crate::parser::core_parser::Parser;
use crate::parser::grammar::document;
use crate::parser::markdown_node::{Block, blocks_view};
use crate::transformer::html_ast_transform::{HtmlAstTransformer, html_of_block};
use crate::transformer::html_node::{Html, HtmlNode, depth, depth_all, htmls_view};
use crate::transformer::html_transform::{HtmlTransformer, render};
use crate::transformer::html_wrapper::{HtmlWrapper, document_of};

verus! {

/// The HTML page for a list of blocks.
pub open spec fn page_of(blocks: Seq<Block>) -> Html {
    document_of(Seq::new(blocks.len(), |i: int| html_of_block(blocks[i])))
}

/// The HTML text for markdown source `src`, when it can be parsed.
pub open spec fn convert(src: Seq<char>) -> Option<Seq<char>> {
    match document(scan(src), 0) {
        None => None,
        Some(blocks) => Some(render(page_of(blocks), 0)),
    }
}

/// How deeply elements nest in `h`, or `usize::MAX` if that is more.
#[verifier::loop_isolation(false)]
pub fn html_depth(h: &HtmlNode) -> (d: usize)
    ensures
        d == if depth(h@) < usize::MAX { depth(h@) } else { usize::MAX as nat },
    decreases h,
{
    match h {
        HtmlNode::Element { children, .. } => {
            let ghost kids = htmls_view(children@);
            let mut m: usize = 0;
            let mut i: usize = 0;
            while i < children.len()
                invariant
                    i <= children.len(),
                    kids == htmls_view(children@),
                    m == if depth_all(kids.subrange(0, i as int)) < usize::MAX {
                        depth_all(kids.subrange(0, i as int))
                    } else {
                        usize::MAX as nat
                    },
                decreases children.len() - i,
            {
                proof {
                    assert(decreases_to!(*h => *children));
                    assert(decreases_to!(*children => children@[i as int]));
                    assert(kids[i as int] == children@[i as int]@);
                }
                let d = html_depth(&children[i]);
                if d > m {
                    m = d;
                }
                i += 1;
                proof {
                    let w = kids.subrange(0, i as int);
                    assert(w.subrange(0, w.len() - 1) =~= kids.subrange(0, i - 1));
                }
            }
            assert(kids.subrange(0, children.len() as int) =~= kids);
            if m == usize::MAX {
                m
            } else {
                m + 1
            }
        },
        HtmlNode::Text(_) => 0,
    }
}

/// The HTML page for markdown source text. `None` on the sources that cannot be parsed, and
/// on those whose HTML would nest more than `usize::MAX` deep or that hold `usize::MAX`
/// characters or more.
pub fn run(source: &str) -> (html: Option<String>)
    ensures
        html matches Some(h) ==> convert(source@) == Some(h@),
        convert(source@) is None ==> html is None,
        html is None ==> convert(source@) is None || source@.len() >= usize::MAX || depth(page_of(
            document(scan(source@), 0)->0)) >= usize::MAX,
{
    if source.unicode_len() == usize::MAX {
        return None;
    }
    let mut lexer = Scanner::new(source);
    let tokens = lexer.scan_tokens();
    proof {
        assert(lexer@.tokens =~= scan(source@));
    }
    let mut parser = Parser::new(tokens);
    let asts = match parser.try_parse() {
        Some(a) => a,
        None => {
            return None;
        },
    };
    let ghost blocks = blocks_view(asts@);
    let mut ast_trans = HtmlAstTransformer;
    let mut hast: Vec<HtmlNode> = Vec::new();
    let mut i: usize = 0;
    while i < asts.len()
        invariant
            i <= asts.len(),
            blocks == blocks_view(asts@),
            hast.len() == i,
            forall|k: int| 0 <= k < i ==> (#[trigger] hast@[k])@ == html_of_block(blocks[k]),
        decreases asts.len() - i,
    {
        let h = ast_trans.transform(&asts[i]);
        hast.push(h);
        i += 1;
    }
    assert(htmls_view(hast@) =~= Seq::new(blocks.len(), |i: int| html_of_block(blocks[i])));
    let page = HtmlWrapper::wrap(hast);
    if html_depth(&page) == usize::MAX {
        return None;
    }
    Some(HtmlTransformer::transform(&page))
}


/// A character with no markdown meaning: not whitespace, and none of the characters that end
/// plain text or start a heading, a link or code.
pub open spec fn is_plain(c: char) -> bool {
    !spec_is_whitespace(c) && !is_text_end(c) && c != '#'
}

proof fn lemma_plain_text_end(src: Seq<char>, i: int)
    requires
        1 <= i <= src.len(),
        forall|k: int| 1 <= k < src.len() ==> !is_text_end(#[trigger] src[k]),
    ensures
        text_end(src, i) == src.len(),
    decreases src.len() - i,
{
    if i < src.len() {
        assert(!is_text_end(src[i]));
        lemma_plain_text_end(src, i + 1);
    }
}

/// A source that starts with a plain character and holds no character that ends plain text
/// (words with spaces and tabs between them, say) is one paragraph that holds it as text.
pub proof fn lemma_plain_text_is_one_paragraph(src: Seq<char>)
    requires
        0 < src.len() < usize::MAX,
        is_plain(src[0]),
        forall|k: int| 1 <= k < src.len() ==> !is_text_end(#[trigger] src[k]),
    ensures
        document(scan(src), 0) == Some(seq![Block::Paragraph(seq![Inline::Text(src)])]),
{
    lemma_plain_text_end(src, 1);
    assert(is_plain(src[0]));
    let content = tok(TokenType::Content, src.subrange(0, src.len() as int), 1, 0);
    assert(scan_step(src, 0, 1) == (Some(content), src.len() as int, 1int));
    assert(scan_from(src, src.len() as int, 1, 0) == (Seq::<TokenView>::empty(), 0int, 1int));
    assert(scan_from(src, 0, 1, 0) == (seq![content], 0int, 1int)) by {
        assert(seq![content] + Seq::<TokenView>::empty() =~= seq![content]);
    }
    let t = scan(src);
    assert(t =~= seq![content, tok(TokenType::Eof, Seq::empty(), 1, 0)]);
    assert(src.subrange(0, src.len() as int) =~= src);
    lemma_resolve_without_closers(t);
    // the paragraph
    let stops = seq![TokenType::NewLine, TokenType::HorizontalRule];
    assert(!all_whitespace(src)) by {
        assert(!spec_is_whitespace(src[0]));
    }
    assert(text_item(t, 0) == Some((Inline::Text(src), 1int)));
    assert(inline_item(t, 0) == Some((Inline::Text(src), 1int)));
    assert(add_inline(Seq::empty(), Inline::Text(src)) =~= seq![Inline::Text(src)]);
    assert(at_end(t, 1));
    assert(inline_loop(t, 1, stops, seq![Inline::Text(src)]) == Some((seq![Inline::Text(src)], 1int)));
    assert(in_line_until(t, 0, stops) == Some((seq![Inline::Text(src)], 1int)));
    assert(para_loop(t, 1, seq![Inline::Text(src)]) == Some((Block::Paragraph(seq![Inline::Text(src)]), 1int)));
    assert(Seq::<Inline>::empty() + seq![Inline::Text(src)] =~= seq![Inline::Text(src)]);
    assert(paragraph(t, 0) == Some((Block::Paragraph(seq![Inline::Text(src)]), 1int)));
    assert(count_run(t, 0, TokenType::Backtick) == 0);
    assert(block_step(t, 0) == Some((Some(Block::Paragraph(seq![Inline::Text(src)])), 1int)));
    assert(block_loop(t, 1, seq![Block::Paragraph(seq![Inline::Text(src)])]) == Some(seq![Block::Paragraph(seq![Inline::Text(src)])]));
}

/// A character of plain prose: a space or a plain character.
pub open spec fn is_prose(c: char) -> bool {
    c == ' ' || is_plain(c)
}

/// The first index at or after `i` that does not hold a space, or the end of `s`.
pub open spec fn first_non_space(s: Seq<char>, i: int) -> int
    decreases s.len() - i,
{
    if i < 0 || i >= s.len() {
        s.len() as int
    } else if s[i] != ' ' {
        i
    } else {
        first_non_space(s, i + 1)
    }
}

proof fn lemma_first_non_space(s: Seq<char>, i: int)
    requires
        0 <= i <= s.len(),
    ensures
        i <= first_non_space(s, i) <= s.len(),
        forall|m: int| i <= m < first_non_space(s, i) ==> #[trigger] s[m] == ' ',
        first_non_space(s, i) < s.len() ==> s[first_non_space(s, i)] != ' ',
    decreases s.len() - i,
{
    if i < s.len() && s[i] == ' ' {
        lemma_first_non_space(s, i + 1);
    }
}

proof fn lemma_prose_text_end(src: Seq<char>, i: int)
    requires
        0 <= i <= src.len(),
        forall|m: int| 0 <= m < src.len() ==> is_prose(#[trigger] src[m]),
    ensures
        text_end(src, i) == src.len(),
    decreases src.len() - i,
{
    if i < src.len() {
        assert(is_prose(src[i]));
        lemma_prose_text_end(src, i + 1);
    }
}

proof fn lemma_scan_prose(src: Seq<char>, start: int, line: int, last: int)
    requires
        0 <= start <= src.len(),
        forall|m: int| 0 <= m < src.len() ==> is_prose(#[trigger] src[m]),
    ensures
        ({
            let r = scan_from(src, start, line, last).0;
            let k = first_non_space(src, start);
            &&& r.len() == (k - start) + (if k < src.len() { 1int } else { 0int })
            &&& forall|m: int| 0 <= m < k - start ==> (#[trigger] r[m]).token_type == TokenType::Whitespace
                && r[m].lexeme == seq![' ']
            &&& k < src.len() ==> r[k - start].token_type == TokenType::Content && r[k - start].lexeme
                == src.subrange(k, src.len() as int)
        }),
    decreases src.len() - start,
{
    if start < src.len() {
        assert(is_prose(src[start]));
        if src[start] == ' ' {
            lemma_scan_prose(src, start + 1, line, start);
            let (rest, _, _) = scan_from(src, start + 1, line, start);
            let w = tok(TokenType::Whitespace, seq![' '], line, start);
            let r = seq![w] + rest;
            assert(scan_from(src, start, line, last).0 == r);
            assert forall|m: int| 0 <= m < first_non_space(src, start) - start implies (#[trigger] r[m]).token_type
                == TokenType::Whitespace && r[m].lexeme == seq![' '] by {
                if m > 0 {
                    assert(r[m] == rest[m - 1]);
                }
            }
            if first_non_space(src, start) < src.len() {
                assert(r[first_non_space(src, start) - start] == rest[first_non_space(src, start) - start - 1]);
            }
        } else {
            lemma_prose_text_end(src, start + 1);
            let c = tok(TokenType::Content, src.subrange(start, src.len() as int), line, start);
            assert(scan_step(src, start, line) == (Some(c), src.len() as int, line));
            assert(scan_from(src, src.len() as int, line, start).0 == Seq::<TokenView>::empty());
            assert(scan_from(src, start, line, last).0 =~= seq![c]);
        }
    }
}

proof fn lemma_skip_blanks(t: Seq<TokenView>, cur: int, k: int)
    requires
        0 <= cur <= k < t.len(),
        forall|m: int| cur <= m < k ==> (#[trigger] t[m]).token_type == TokenType::Whitespace && t[m].lexeme
            == seq![' '],
    ensures
        inline_loop(t, cur, seq![TokenType::NewLine, TokenType::HorizontalRule], Seq::empty()) == inline_loop(t, k,
            seq![TokenType::NewLine, TokenType::HorizontalRule], Seq::empty()),
    decreases k - cur,
{
    if cur < k {
        let stops = seq![TokenType::NewLine, TokenType::HorizontalRule];
        assert(t[cur].token_type == TokenType::Whitespace);
        assert(!stops.contains(TokenType::Whitespace)) by {
            if stops.contains(TokenType::Whitespace) {
                let x = choose|x: int| 0 <= x < stops.len() && stops[x] == TokenType::Whitespace;
                assert(x == 0 || x == 1);
            }
        }
        assert(all_whitespace(seq![' ']));
        assert(text_item(t, cur) == Some((Inline::Text(seq![' ']), cur + 1)));
        assert(inline_item(t, cur) == Some((Inline::Text(seq![' ']), cur + 1)));
        assert(add_inline(Seq::empty(), Inline::Text(seq![' '])) == Seq::<Inline>::empty());
        lemma_skip_blanks(t, cur + 1, k);
    }
}

/// A source of plain prose (spaces and plain characters only) parses as nothing when it is
/// empty, as one empty paragraph when it holds only spaces, and otherwise as one paragraph
/// that holds the text after its leading spaces.
pub proof fn lemma_prose_is_one_paragraph(src: Seq<char>)
    requires
        src.len() < usize::MAX,
        forall|m: int| 0 <= m < src.len() ==> is_prose(#[trigger] src[m]),
    ensures
        document(scan(src), 0) == if src.len() == 0 {
            Some(Seq::<Block>::empty())
        } else if first_non_space(src, 0) == src.len() {
            Some(seq![Block::Paragraph(Seq::empty())])
        } else {
            Some(seq![Block::Paragraph(seq![Inline::Text(src.subrange(first_non_space(src, 0), src.len() as int))])])
        },
{
    lemma_scan_prose(src, 0, 1, 0);
    lemma_first_non_space(src, 0);
    let (toks, last, line) = scan_from(src, 0, 1, 0);
    let e = tok(TokenType::Eof, Seq::empty(), line, last);
    let t = scan(src);
    assert(t == toks.push(e));
    let k = first_non_space(src, 0);
    let n = toks.len() as int;
    assert forall|m: int| 0 <= m < t.len() implies !#[trigger] can_close_at(t, m) by {
        if m < n {
            assert(t[m] == toks[m]);
        }
    }
    lemma_resolve_without_closers(t);
    assert(t[n] == e);
    if src.len() > 0 {
        let stops = seq![TokenType::NewLine, TokenType::HorizontalRule];
        assert forall|m: int| 0 <= m < k implies (#[trigger] t[m]).token_type == TokenType::Whitespace && t[m].lexeme
            == seq![' '] by {
            assert(t[m] == toks[m]);
        }
        let content = if k < src.len() {
            seq![Inline::Text(src.subrange(k, src.len() as int))]
        } else {
            Seq::<Inline>::empty()
        };
        if k < src.len() {
            lemma_skip_blanks(t, 0, k);
            let lex = src.subrange(k, src.len() as int);
            assert(t[k] == toks[k]);
            assert(is_prose(src[k]));
            assert(lex[0] == src[k]);
            assert(!all_whitespace(lex));
            assert(text_item(t, k) == Some((Inline::Text(lex), k + 1)));
            assert(inline_item(t, k) == Some((Inline::Text(lex), k + 1)));
            assert(add_inline(Seq::empty(), Inline::Text(lex)) =~= content);
            assert(at_end(t, k + 1));
            assert(inline_loop(t, k + 1, stops, content) == Some((content, k + 1)));
        } else {
            lemma_skip_blanks(t, 0, n);
            assert(at_end(t, n));
        }
        assert(in_line_until(t, 0, stops) == Some((content, n)));
        assert(para_loop(t, n, content) == Some((Block::Paragraph(content), n)));
        assert(Seq::<Inline>::empty() + content =~= content);
        assert(t[0] == toks[0]);
        assert(paragraph(t, 0) == Some((Block::Paragraph(content), n)));
        assert(count_run(t, 0, TokenType::Backtick) == 0);
        assert(block_step(t, 0) == Some((Some(Block::Paragraph(content)), n)));
        assert(block_loop(t, n, seq![Block::Paragraph(content)]) == Some(seq![Block::Paragraph(content)]));
    }
}

} // verus!
