//! What the parsers make of small sources: spans, links, inline code and headings around words.
use vstd::prelude::*;
use crate::lexer::lexer::is_alphanumeric;
use crate::lexer::scanner::{delimiter_type, lemma_line_end, lemma_scan_word, line_end, rule_line, run_end, scan, scan_from, scan_step, tok};
use crate::lexer::token::{TokenType, TokenView};
use crate::parser::grammar::{adv, code_block, find_block_fence, line_stop, DelimView, apply_emphasis, delim_loop, delim_step, match_delims, remove_delim, resolve_delimiters, set_length, shift_down, shift_up, truncate_lexeme, with_kind, emphasis_lexeme, span, add_inline, all_whitespace, at_end, block_loop, block_step, can_close_at, check,
    collect_until, concat_lexemes, count_run, document, find_fence, heading, in_line_until, inline_item,
    inline_loop, lemma_resolve_without_closers, para_loop, paragraph, peek_match, push_text, strip_code, text_item};
use crate::parser::in_line_node::Inline;
use crate::parser::markdown_node::Block;
use crate::text::spec_is_whitespace;

verus! {

/// Letters, digits and spaces, starting with a letter or digit.
pub open spec fn is_word(w: Seq<char>) -> bool {
    &&& w.len() > 0
    &&& is_alphanumeric(w[0])
    &&& forall|k: int| 0 <= k < w.len() ==> is_alphanumeric(#[trigger] w[k]) || w[k] == ' '
}

pub proof fn lemma_word_not_blank(w: Seq<char>)
    requires
        is_word(w),
    ensures
        !all_whitespace(w),
{
    assert(!spec_is_whitespace(w[0]));
}

/// Scanning `src` where `src[a..b]` is a word followed by the end or a character that ends text.
pub proof fn lemma_word_in(src: Seq<char>, w: Seq<char>, a: int, line: int)
    requires
        is_word(w),
        0 <= a,
        a + w.len() <= src.len(),
        src.subrange(a, a + w.len()) == w,
        a + w.len() == src.len() || {
            let d = src[a + w.len()];
            d == '~' || d == ']' || d == ')' || d == '`' || d == '*' || d == '_' || d == '\n'
        },
    ensures
        scan_step(src, a, line) == (Some(tok(TokenType::Content, w, line, a)), a + w.len(), line),
{
    assert forall|k: int| a <= k < a + w.len() implies ('a' <= #[trigger] src[k] <= 'z') || ('A' <= src[k] <= 'Z')
        || ('0' <= src[k] <= '9') || src[k] == ' ' by {
        assert(src[k] == w[k - a]);
    }
    assert(src[a] == w[0]);
    lemma_scan_word(src, a, a + w.len(), line);
}

/// With the main parser: tokens whose first inline item runs up to the end of the input, and
/// is not text, form one paragraph holding that item.
proof fn lemma_single_item_resolved(t0: Seq<TokenView>, t: Seq<TokenView>, n: Inline)
    requires
        t.len() >= 2,
        resolve_delimiters(t0) == Some(t),
        t[t.len() - 1].token_type == TokenType::Eof,
        t[0].token_type != TokenType::Eof,
        t[0].token_type != TokenType::NewLine,
        t[0].token_type != TokenType::HorizontalRule,
        t[0].token_type != TokenType::Hash,
        count_run(t, 0, TokenType::Backtick) < 3,
        !(n is Text),
        inline_item(t, 0) == Some((n, t.len() - 1)),
    ensures
        document(t0, 0) == Some(seq![Block::Paragraph(seq![n])]),
{
    let e = t.len() - 1;
    let stops = seq![TokenType::NewLine, TokenType::HorizontalRule];
    assert(!peek_match(t, 0, stops)) by {
        if stops.contains(t[0].token_type) {
            let x = choose|x: int| 0 <= x < stops.len() && stops[x] == t[0].token_type;
            assert(x == 0 || x == 1);
        }
    }
    assert(add_inline(Seq::empty(), n) =~= seq![n]);
    assert(at_end(t, e));
    assert(inline_loop(t, e, stops, seq![n]) == Some((seq![n], e)));
    assert(in_line_until(t, 0, stops) == Some((seq![n], e)));
    assert(para_loop(t, e, seq![n]) == Some((Block::Paragraph(seq![n]), e)));
    assert(Seq::<Inline>::empty() + seq![n] =~= seq![n]);
    assert(paragraph(t, 0) == Some((Block::Paragraph(seq![n]), e)));
    assert(block_step(t, 0) == Some((Some(Block::Paragraph(seq![n])), e)));
    assert(block_loop(t, e, seq![Block::Paragraph(seq![n])]) == Some(seq![Block::Paragraph(seq![n])]));
}

proof fn lemma_single_item(t: Seq<TokenView>, n: Inline)
    requires
        t.len() >= 2,
        forall|k: int| 0 <= k < t.len() ==> !((#[trigger] t[k]).token_type is Delimiter),
        t[t.len() - 1].token_type == TokenType::Eof,
        t[0].token_type != TokenType::Eof,
        t[0].token_type != TokenType::NewLine,
        t[0].token_type != TokenType::HorizontalRule,
        t[0].token_type != TokenType::Hash,
        count_run(t, 0, TokenType::Backtick) < 3,
        !(n is Text),
        inline_item(t, 0) == Some((n, t.len() - 1)),
    ensures
        document(t, 0) == Some(seq![Block::Paragraph(seq![n])]),
{
    assert forall|k: int| 0 <= k < t.len() implies !#[trigger] can_close_at(t, k) by {
        assert(!(t[k].token_type is Delimiter));
    }
    lemma_resolve_without_closers(t);
    lemma_single_item_resolved(t, t, n);
}

pub proof fn lemma_stops_without(stops: Seq<TokenType>, k: TokenType)
    requires
        forall|x: int| 0 <= x < stops.len() ==> stops[x] != k,
    ensures
        !stops.contains(k),
{
}

/// `~~w~~` is one paragraph holding a strikethrough of `w`.
pub proof fn lemma_strikethrough_line(w: Seq<char>)
    requires
        is_word(w),
        w.len() + 4 < usize::MAX,
    ensures
        document(scan(seq!['~', '~'] + w + seq!['~', '~']), 0) == Some(
            seq![Block::Paragraph(seq![Inline::Strikethrough(seq![Inline::Text(w)])])],
        ),
{
    let src = seq!['~', '~'] + w + seq!['~', '~'];
    let n = w.len() as int;
    assert(src[0] == '~' && src[1] == '~' && src[n + 2] == '~' && src[n + 3] == '~');
    assert(src.subrange(2, n + 2) =~= w);
    lemma_word_in(src, w, 2, 1);
    let t1 = tok(TokenType::Tilde, src.subrange(0, 2), 1, 0);
    let t2 = tok(TokenType::Content, w, 1, 2);
    let t3 = tok(TokenType::Tilde, src.subrange(n + 2, n + 4), 1, n + 2);
    assert(scan_step(src, 0, 1) == (Some(t1), 2int, 1int));
    assert(scan_step(src, n + 2, 1) == (Some(t3), n + 4, 1int));
    assert(scan_from(src, n + 4, 1, n + 2) == (Seq::<TokenView>::empty(), n + 2, 1int));
    assert(scan_from(src, n + 2, 1, 2).0 =~= seq![t3]);
    assert(scan_from(src, 2, 1, 0).0 =~= seq![t2, t3]);
    assert(scan_from(src, 0, 1, 0).0 =~= seq![t1, t2, t3]);
    let t = scan(src);
    assert(t =~= seq![t1, t2, t3, tok(TokenType::Eof, Seq::empty(), 1, n + 2)]);
    lemma_word_not_blank(w);
    let text = Inline::Text(w);
    lemma_stops_without(seq![TokenType::Tilde], TokenType::Content);
    assert(text_item(t, 1) == Some((text, 2int)));
    assert(inline_item(t, 1) == Some((text, 2int)));
    assert(add_inline(Seq::empty(), text) =~= seq![text]);
    assert(peek_match(t, 2, seq![TokenType::Tilde])) by {
        assert(seq![TokenType::Tilde][0] == TokenType::Tilde);
    }
    assert(!peek_match(t, 1, seq![TokenType::Tilde]));
    assert(inline_loop(t, 2, seq![TokenType::Tilde], seq![text]) == Some((seq![text], 2int)));
    assert(inline_loop(t, 1, seq![TokenType::Tilde], Seq::empty()) == Some((seq![text], 2int)));
    assert(inline_item(t, 0) == Some((Inline::Strikethrough(seq![text]), 3int)));
    assert(count_run(t, 0, TokenType::Backtick) == 0);
    lemma_single_item(t, Inline::Strikethrough(seq![text]));
}

/// `[w](d)` is one paragraph holding a link to `d` whose content is the text `w`.
pub proof fn lemma_link_line(w: Seq<char>, d: Seq<char>)
    requires
        is_word(w),
        is_word(d),
        w.len() + d.len() + 4 < usize::MAX,
    ensures
        document(scan(seq!['['] + w + seq![']', '('] + d + seq![')']), 0) == Some(
            seq![Block::Paragraph(seq![Inline::Link { content: seq![Inline::Text(w)], dest: d }])],
        ),
{
    let src = seq!['['] + w + seq![']', '('] + d + seq![')'];
    let n = w.len() as int;
    let m = d.len() as int;
    assert(src[0] == '[' && src[n + 1] == ']' && src[n + 2] == '(' && src[n + m + 3] == ')');
    assert(src.subrange(1, n + 1) =~= w);
    assert(src.subrange(n + 3, n + m + 3) =~= d);
    lemma_word_in(src, w, 1, 1);
    lemma_word_in(src, d, n + 3, 1);
    let t0 = tok(TokenType::OpeningBracket, src.subrange(0, 1), 1, 0);
    let t1 = tok(TokenType::Content, w, 1, 1);
    let t2 = tok(TokenType::ClosingBracket, src.subrange(n + 1, n + 2), 1, n + 1);
    let t3 = tok(TokenType::OpeningParenthesis, src.subrange(n + 2, n + 3), 1, n + 2);
    let t4 = tok(TokenType::Content, d, 1, n + 3);
    let t5 = tok(TokenType::ClosingParenthesis, src.subrange(n + m + 3, n + m + 4), 1, n + m + 3);
    assert(scan_step(src, 0, 1) == (Some(t0), 1int, 1int));
    assert(scan_step(src, n + 1, 1) == (Some(t2), n + 2, 1int));
    assert(scan_step(src, n + 2, 1) == (Some(t3), n + 3, 1int));
    assert(scan_step(src, n + m + 3, 1) == (Some(t5), n + m + 4, 1int));
    assert(scan_from(src, n + m + 4, 1, n + m + 3) == (Seq::<TokenView>::empty(), n + m + 3, 1int));
    assert(scan_from(src, n + m + 3, 1, n + 3).0 =~= seq![t5]);
    assert(scan_from(src, n + 3, 1, n + 2).0 =~= seq![t4, t5]);
    assert(scan_from(src, n + 2, 1, n + 1).0 =~= seq![t3, t4, t5]);
    assert(scan_from(src, n + 1, 1, 1).0 =~= seq![t2, t3, t4, t5]);
    assert(scan_from(src, 1, 1, 0).0 =~= seq![t1, t2, t3, t4, t5]);
    assert(scan_from(src, 0, 1, 0).0 =~= seq![t0, t1, t2, t3, t4, t5]);
    let t = scan(src);
    assert(t =~= seq![t0, t1, t2, t3, t4, t5, tok(TokenType::Eof, Seq::empty(), 1, n + m + 3)]);
    lemma_word_not_blank(w);
    let text = Inline::Text(w);
    lemma_stops_without(seq![TokenType::ClosingBracket], TokenType::Content);
    assert(inline_item(t, 1) == Some((text, 2int)));
    assert(add_inline(Seq::empty(), text) =~= seq![text]);
    assert(peek_match(t, 2, seq![TokenType::ClosingBracket])) by {
        assert(seq![TokenType::ClosingBracket][0] == TokenType::ClosingBracket);
    }
    assert(!peek_match(t, 1, seq![TokenType::ClosingBracket]));
    assert(inline_loop(t, 2, seq![TokenType::ClosingBracket], seq![text]) == Some((seq![text], 2int)));
    assert(inline_loop(t, 1, seq![TokenType::ClosingBracket], Seq::empty()) == Some((seq![text], 2int)));
    assert(peek_match(t, 5, seq![TokenType::ClosingParenthesis])) by {
        assert(seq![TokenType::ClosingParenthesis][0] == TokenType::ClosingParenthesis);
    }
    lemma_stops_without(seq![TokenType::ClosingParenthesis], TokenType::Content);
    assert(collect_until(t, 5, seq![TokenType::ClosingParenthesis]) == (Seq::<char>::empty(), 5int));
    assert(d + Seq::<char>::empty() =~= d);
    assert(collect_until(t, 4, seq![TokenType::ClosingParenthesis]) == (d, 5int));
    let l = Inline::Link { content: seq![text], dest: d };
    assert(inline_item(t, 0) == Some((l, 6int)));
    assert(count_run(t, 0, TokenType::Backtick) == 0);
    lemma_single_item(t, l);
}

/// `` `w` `` is one paragraph holding inline code with the text `w`.
pub proof fn lemma_code_span_line(w: Seq<char>)
    requires
        is_word(w),
        w.len() + 2 < usize::MAX,
    ensures
        document(scan(seq!['`'] + w + seq!['`']), 0) == Some(
            seq![Block::Paragraph(seq![Inline::Code(seq![Inline::Text(w)])])],
        ),
{
    let src = seq!['`'] + w + seq!['`'];
    let n = w.len() as int;
    assert(src[0] == '`' && src[n + 1] == '`');
    assert(src.subrange(1, n + 1) =~= w);
    lemma_word_in(src, w, 1, 1);
    let t0 = tok(TokenType::Backtick, src.subrange(0, 1), 1, 0);
    let t1 = tok(TokenType::Content, w, 1, 1);
    let t2 = tok(TokenType::Backtick, src.subrange(n + 1, n + 2), 1, n + 1);
    assert(scan_step(src, 0, 1) == (Some(t0), 1int, 1int));
    assert(scan_step(src, n + 1, 1) == (Some(t2), n + 2, 1int));
    assert(scan_from(src, n + 2, 1, n + 1) == (Seq::<TokenView>::empty(), n + 1, 1int));
    assert(scan_from(src, n + 1, 1, 1).0 =~= seq![t2]);
    assert(scan_from(src, 1, 1, 0).0 =~= seq![t1, t2]);
    assert(scan_from(src, 0, 1, 0).0 =~= seq![t0, t1, t2]);
    let t = scan(src);
    assert(t =~= seq![t0, t1, t2, tok(TokenType::Eof, Seq::empty(), 1, n + 1)]);
    assert(count_run(t, 1, TokenType::Backtick) == 0);
    assert(count_run(t, 3, TokenType::Backtick) == 0);
    assert(count_run(t, 2, TokenType::Backtick) == 1);
    assert(find_fence(t, 2, 1) == Some(2int));
    assert(find_fence(t, 1, 1) == Some(2int));
    assert(concat_lexemes(t, 1, 1) == Seq::<char>::empty());
    assert(Seq::<char>::empty() + w =~= w);
    assert(concat_lexemes(t, 1, 2) == w);
    assert(strip_code(w) == w) by {
        assert(w[0] != ' ');
    }
    let c = Inline::Code(seq![Inline::Text(w)]);
    assert(inline_item(t, 0) == Some((c, 3int)));
    assert(count_run(t, 0, TokenType::Backtick) == 1);
    lemma_single_item(t, c);
}

/// `# w` is one heading of level 1 that holds the text `w`.
pub proof fn lemma_heading_line(w: Seq<char>)
    requires
        is_word(w),
        w.len() + 2 < usize::MAX,
    ensures
        document(scan(seq!['#', ' '] + w), 0) == Some(
            seq![Block::Heading { level: 1, content: seq![Inline::Text(w)] }],
        ),
{
    let src = seq!['#', ' '] + w;
    let n = w.len() as int;
    assert(src[0] == '#' && src[1] == ' ');
    assert(src.subrange(2, n + 2) =~= w);
    lemma_word_in(src, w, 2, 1);
    let t0 = tok(TokenType::Hash, src.subrange(0, 1), 1, 0);
    let t1 = tok(TokenType::Whitespace, seq![' '], 1, 1);
    let t2 = tok(TokenType::Content, w, 1, 2);
    assert(scan_step(src, 0, 1) == (Some(t0), 1int, 1int));
    assert(scan_step(src, 1, 1) == (Some(t1), 2int, 1int));
    assert(scan_from(src, n + 2, 1, 2) == (Seq::<TokenView>::empty(), 2int, 1int));
    assert(scan_from(src, 2, 1, 1).0 =~= seq![t2]);
    assert(scan_from(src, 1, 1, 0).0 =~= seq![t1, t2]);
    assert(scan_from(src, 0, 1, 0).0 =~= seq![t0, t1, t2]);
    assert(scan_from(src, 0, 1, 0).1 == 2);
    let t = scan(src);
    assert(t =~= seq![t0, t1, t2, tok(TokenType::Eof, Seq::empty(), 1, 2)]);
    assert forall|k: int| 0 <= k < t.len() implies !#[trigger] can_close_at(t, k) by {}
    lemma_resolve_without_closers(t);
    let stops = seq![TokenType::NewLine];
    lemma_stops_without(stops, TokenType::Whitespace);
    lemma_stops_without(stops, TokenType::Content);
    lemma_word_not_blank(w);
    assert(all_whitespace(seq![' ']));
    assert(inline_item(t, 1) == Some((Inline::Text(seq![' ']), 2int)));
    assert(add_inline(Seq::empty(), Inline::Text(seq![' '])) == Seq::<Inline>::empty());
    assert(inline_item(t, 2) == Some((Inline::Text(w), 3int)));
    assert(add_inline(Seq::empty(), Inline::Text(w)) =~= seq![Inline::Text(w)]);
    assert(inline_loop(t, 3, stops, seq![Inline::Text(w)]) == Some((seq![Inline::Text(w)], 3int)));
    assert(!peek_match(t, 1, stops));
    assert(!peek_match(t, 2, stops));
    assert(inline_loop(t, 2, stops, Seq::empty()) == Some((seq![Inline::Text(w)], 3int)));
    assert(inline_loop(t, 1, stops, Seq::empty()) == Some((seq![Inline::Text(w)], 3int)));
    assert(count_run(t, 1, TokenType::Hash) == 0);
    let h = Block::Heading { level: 1, content: seq![Inline::Text(w)] };
    assert(heading(t, 1) == Some((h, 3int)));
    assert(block_step(t, 0) == Some((Some(h), 3int)));
    assert(block_loop(t, 3, seq![h]) == Some(seq![h]));
}

/// `m` stars.
pub open spec fn stars(m: int) -> Seq<char> {
    Seq::new(m as nat, |k: int| '*')
}

proof fn lemma_alnum_plain(c: char)
    requires
        is_alphanumeric(c),
    ensures
        !spec_is_whitespace(c),
        !crate::text::spec_is_punctuation(c),
        c != '*' && c != '\n' && c != ' ',
{
}

/// The tokens of `*w*` (one star) or `**w**` (two).
pub proof fn lemma_scan_starred(w: Seq<char>, m: int)
    requires
        is_word(w),
        is_alphanumeric(w.last()),
        m == 1 || m == 2,
        w.len() + 4 < usize::MAX,
    ensures
        ({
            let src = stars(m) + w + stars(m);
            let n = w.len() as int;
            scan(src) == seq![
                tok(TokenType::Delimiter { length: m as usize, can_open: true, can_close: false }, stars(m), 1, 0),
                tok(TokenType::Content, w, 1, m),
                tok(TokenType::Delimiter { length: m as usize, can_open: false, can_close: true }, stars(m), 1, n + m),
                tok(TokenType::Eof, Seq::empty(), 1, n + m),
            ]
        }),
{
    let src = stars(m) + w + stars(m);
    let n = w.len() as int;
    let len = n + 2 * m;
    assert(src.len() == len);
    assert forall|k: int| 0 <= k < m implies #[trigger] src[k] == '*' by {}
    assert forall|k: int| 0 <= k < m implies #[trigger] src[n + m + k] == '*' by {}
    assert forall|k: int| 0 <= k < n implies #[trigger] src[m + k] == w[k] by {}
    lemma_alnum_plain(w[0]);
    lemma_alnum_plain(w.last());
    assert(src[m] == w[0]);
    assert(src[n + m - 1] == w[n - 1]);
    // the opening run
    assert(run_end(src, 1, '*') == m) by {
        if m == 2 {
            assert(src[1] == '*');
            assert(run_end(src, 2, '*') == 2);
        }
    }
    assert(!rule_line(src, 1, '*')) by {
        lemma_line_end(src, 1);
        if line_end(src, 1) <= m {
            assert(src[line_end(src, 1)] == '\n');
        }
        assert(!(src[m] == '*' || src[m] == ' '));
    }
    assert(src.subrange(0, m) =~= stars(m));
    let d0 = tok(TokenType::Delimiter { length: m as usize, can_open: true, can_close: false }, stars(m), 1, 0);
    assert(delimiter_type(src, 0, m, '*') == TokenType::Delimiter { length: m as usize, can_open: true, can_close: false });
    assert(scan_step(src, 0, 1) == (Some(d0), m, 1int));
    // the word
    assert(src.subrange(m, m + n) =~= w);
    lemma_word_in(src, w, m, 1);
    let c = tok(TokenType::Content, w, 1, m);
    // the closing run
    assert(run_end(src, n + m + 1, '*') == len) by {
        if m == 2 {
            assert(src[n + m + 1] == '*');
            assert(run_end(src, n + m + 2, '*') == len);
        }
    }
    assert(src.subrange(n + m, len) =~= stars(m));
    let d1 = tok(TokenType::Delimiter { length: m as usize, can_open: false, can_close: true }, stars(m), 1, n + m);
    assert(delimiter_type(src, n + m, len, '*') == TokenType::Delimiter { length: m as usize, can_open: false, can_close: true });
    assert(scan_step(src, n + m, 1) == (Some(d1), len, 1int));
    assert(scan_from(src, len, 1, n + m) == (Seq::<TokenView>::empty(), n + m, 1int));
    assert(scan_from(src, n + m, 1, m).0 =~= seq![d1]);
    assert(scan_from(src, m, 1, 0).0 =~= seq![c, d1]);
    assert(scan_from(src, 0, 1, 0).0 =~= seq![d0, c, d1]);
    assert(scan(src) =~= seq![d0, c, d1, tok(TokenType::Eof, Seq::empty(), 1, n + m)]);
}

/// The delimiter pass on the tokens of `*w*` or `**w**`: the two runs become the opening and
/// closing tokens around the word.
proof fn lemma_resolve_starred(t: Seq<TokenView>, w: Seq<char>, m: int)
    requires
        m == 1 || m == 2,
        w.len() + 4 < usize::MAX,
        t == seq![
            tok(TokenType::Delimiter { length: m as usize, can_open: true, can_close: false }, stars(m), 1, 0),
            tok(TokenType::Content, w, 1, m),
            tok(TokenType::Delimiter { length: m as usize, can_open: false, can_close: true }, stars(m), 1, w.len() + m),
            tok(TokenType::Eof, Seq::empty(), 1, w.len() + m),
        ],
    ensures
        ({
            let strong = m == 2;
            let open = if strong { TokenType::OpenStrong } else { TokenType::OpenEmphasis };
            let close = if strong { TokenType::CloseStrong } else { TokenType::CloseEmphasis };
            resolve_delimiters(t) == Some(seq![
                with_kind(t[0], open, emphasis_lexeme(strong)),
                t[1],
                with_kind(t[2], close, emphasis_lexeme(strong)),
                t[3],
            ])
        }),
{
    let strong = m == 2;
    let open = if strong { TokenType::OpenStrong } else { TokenType::OpenEmphasis };
    let close = if strong { TokenType::CloseStrong } else { TokenType::CloseEmphasis };
    let s0 = Seq::<DelimView>::empty();
    let e0 = DelimView { position: 0, length: m, can_open: true };
    let s1 = s0.push(e0);
    assert(delim_step(t, s0, 0) == Some((t, s1, 1int)));
    assert(delim_step(t, s1, 1) == Some((t, s1, 2int)));
    let e1 = DelimView { position: 2, length: m, can_open: false };
    let s1b = s1.push(e1);
    assert(s1b[0] == e0 && s1b[1] == e1);
    let nt = with_kind(t[0], open, emphasis_lexeme(strong));
    let t1 = t.insert(1, nt);
    let ct = with_kind(t1[3], close, emphasis_lexeme(strong));
    let t2 = t1.insert(3, ct);
    assert(apply_emphasis(t, 0, strong, 2) == Some((t2, 4int, 1int)));
    let s2 = shift_up(s1b, 0, 2);
    assert(s2 =~= seq![e0, DelimView { position: 4, length: m, can_open: false }]);
    let s3 = s2.update(1, set_length(s2[1], 0));
    let t3 = truncate_lexeme(t2, 4, 0);
    assert(shift_down(s3, 2) =~= s3);
    let t4 = t3.remove(4);
    let s4 = s3.remove(1);
    assert(remove_delim(t3, s3, 1, 4) == Some((t4, s4, 3int)));
    assert(s4 =~= seq![e0]);
    let s5 = s4.update(0, set_length(s4[0], 0));
    assert(shift_down(s5, 1) =~= s5);
    let t5 = t4.remove(0);
    assert(remove_delim(t4, s5, 0, 3) == Some((t5, shift_down(s5, 1).remove(0), 2int)));
    assert(shift_down(s5, 1).remove(0) =~= Seq::<DelimView>::empty());
    assert(match_delims(t, s1b, 2, m) == Some((t5, Seq::<DelimView>::empty(), 2int)));
    assert(delim_step(t, s1, 2) == Some((t5, Seq::<DelimView>::empty(), 3int)));
    assert(t5 =~= seq![nt, t[1], with_kind(t[2], close, emphasis_lexeme(strong)), t[3]]);
    assert(delim_step(t5, Seq::<DelimView>::empty(), 3) == Some((t5, Seq::<DelimView>::empty(), 4int)));
    assert(delim_loop(t5, Seq::<DelimView>::empty(), 4) == Some(t5));
    assert(delim_loop(t5, Seq::<DelimView>::empty(), 3) == Some(t5));
    assert(delim_loop(t, s1, 2) == Some(t5));
    assert(delim_loop(t, s1, 1) == Some(t5));
    assert(delim_loop(t, s0, 0) == Some(t5));
}

proof fn lemma_starred_line(w: Seq<char>, m: int)
    requires
        is_word(w),
        is_alphanumeric(w.last()),
        m == 1 || m == 2,
        w.len() + 4 < usize::MAX,
    ensures
        document(scan(stars(m) + w + stars(m)), 0) == Some(seq![Block::Paragraph(seq![
            if m == 2 { Inline::Strong(seq![Inline::Text(w)]) } else { Inline::Emphasis(seq![Inline::Text(w)]) },
        ])]),
{
    let t = scan(stars(m) + w + stars(m));
    lemma_scan_starred(w, m);
    lemma_resolve_starred(t, w, m);
    let strong = m == 2;
    let open = if strong { TokenType::OpenStrong } else { TokenType::OpenEmphasis };
    let close = if strong { TokenType::CloseStrong } else { TokenType::CloseEmphasis };
    let r = seq![with_kind(t[0], open, emphasis_lexeme(strong)), t[1], with_kind(t[2], close, emphasis_lexeme(strong)), t[3]];
    let text = Inline::Text(w);
    lemma_word_not_blank(w);
    lemma_stops_without(seq![close], TokenType::Content);
    assert(text_item(r, 1) == Some((text, 2int)));
    assert(inline_item(r, 1) == Some((text, 2int)));
    assert(add_inline(Seq::empty(), text) =~= seq![text]);
    assert(peek_match(r, 2, seq![close])) by {
        assert(seq![close][0] == close);
    }
    assert(!peek_match(r, 1, seq![close]));
    assert(inline_loop(r, 2, seq![close], seq![text]) == Some((seq![text], 2int)));
    assert(inline_loop(r, 1, seq![close], Seq::empty()) == Some((seq![text], 2int)));
    assert(span(r, 1, close) == Some((seq![text], 3int)));
    let n = if strong { Inline::Strong(seq![text]) } else { Inline::Emphasis(seq![text]) };
    assert(inline_item(r, 0) == Some((n, 3int)));
    assert(count_run(r, 0, TokenType::Backtick) == 0);
    lemma_single_item_resolved(t, r, n);
}

/// `*w*`, with `w` letters, digits and spaces that starts and ends with a letter or digit, is
/// one paragraph holding the text `w` with emphasis.
pub proof fn lemma_emphasis_line(w: Seq<char>)
    requires
        is_word(w),
        is_alphanumeric(w.last()),
        w.len() + 4 < usize::MAX,
    ensures
        document(scan(seq!['*'] + w + seq!['*']), 0) == Some(
            seq![Block::Paragraph(seq![Inline::Emphasis(seq![Inline::Text(w)])])],
        ),
{
    assert(stars(1) =~= seq!['*']);
    lemma_starred_line(w, 1);
}

/// `**w**`, with `w` letters, digits and spaces that starts and ends with a letter or digit, is
/// one paragraph holding the text `w` with strong emphasis.
pub proof fn lemma_strong_line(w: Seq<char>)
    requires
        is_word(w),
        is_alphanumeric(w.last()),
        w.len() + 4 < usize::MAX,
    ensures
        document(scan(seq!['*', '*'] + w + seq!['*', '*']), 0) == Some(
            seq![Block::Paragraph(seq![Inline::Strong(seq![Inline::Text(w)])])],
        ),
{
    assert(stars(2) =~= seq!['*', '*']);
    lemma_starred_line(w, 2);
}

/// The tokens of a fenced code block of one line `w` in language `l`.
pub open spec fn fenced_tokens(l: Seq<char>, w: Seq<char>) -> Seq<TokenView> {
    let a = l.len() as int;
    let b = w.len() as int;
    seq![
        tok(TokenType::Backtick, seq!['`'], 1, 0),
        tok(TokenType::Backtick, seq!['`'], 1, 1),
        tok(TokenType::Backtick, seq!['`'], 1, 2),
        tok(TokenType::Content, l, 1, 3),
        tok(TokenType::NewLine, seq!['\n'], 1, a + 3),
        tok(TokenType::Content, w, 2, a + 4),
        tok(TokenType::NewLine, seq!['\n'], 2, a + b + 4),
        tok(TokenType::Backtick, seq!['`'], 3, a + b + 5),
        tok(TokenType::Backtick, seq!['`'], 3, a + b + 6),
        tok(TokenType::Backtick, seq!['`'], 3, a + b + 7),
        tok(TokenType::Eof, Seq::empty(), 3, a + b + 7),
    ]
}

#[verifier::rlimit(100)]
#[verifier::spinoff_prover]
proof fn lemma_scan_fenced(l: Seq<char>, w: Seq<char>)
    requires
        is_word(l),
        is_word(w),
        is_alphanumeric(l.last()),
        is_alphanumeric(w.last()),
        l.len() + w.len() + 8 < usize::MAX,
    ensures
        scan(seq!['`', '`', '`'] + l + seq!['\n'] + w + seq!['\n', '`', '`', '`']) == fenced_tokens(l, w),
{
    let src = seq!['`', '`', '`'] + l + seq!['\n'] + w + seq!['\n', '`', '`', '`'];
    let a = l.len() as int;
    let b = w.len() as int;
    let len = src.len() as int;
    let ft = fenced_tokens(l, w);
    assert(len == a + b + 8);
    assert(src[0] == '`' && src[1] == '`' && src[2] == '`');
    assert(src[a + 3] == '\n');
    assert(src[a + b + 4] == '\n' && src[a + b + 5] == '`' && src[a + b + 6] == '`' && src[a + b + 7] == '`');
    assert(src.subrange(3, a + 3) =~= l);
    assert(src.subrange(a + 4, a + b + 4) =~= w);
    lemma_word_in(src, l, 3, 1);
    lemma_word_in(src, w, a + 4, 2);
    assert(src[a + 2] == l.last());
    assert(src[a + b + 3] == w.last());
    assert forall|p: int| 0 <= p < len && src[p] == '`' implies #[trigger] src.subrange(p, p + 1) =~= seq!['`'] by {}
    assert(src.subrange(a + 3, a + 4) =~= seq!['\n']);
    assert(src.subrange(a + b + 4, a + b + 5) =~= seq!['\n']);
    assert(scan_step(src, 0, 1) == (Some(ft[0]), 1int, 1int));
    assert(scan_step(src, 1, 1) == (Some(ft[1]), 2int, 1int));
    assert(scan_step(src, 2, 1) == (Some(ft[2]), 3int, 1int));
    assert(scan_step(src, a + 3, 1) == (Some(ft[4]), a + 4, 2int));
    assert(scan_step(src, a + b + 4, 2) == (Some(ft[6]), a + b + 5, 3int));
    assert(scan_step(src, a + b + 5, 3) == (Some(ft[7]), a + b + 6, 3int));
    assert(scan_step(src, a + b + 6, 3) == (Some(ft[8]), a + b + 7, 3int));
    assert(scan_step(src, a + b + 7, 3) == (Some(ft[9]), a + b + 8, 3int));
    assert(scan_from(src, len, 3, a + b + 7) == (Seq::<TokenView>::empty(), a + b + 7, 3int));
    assert(scan_from(src, a + b + 7, 3, a + b + 6).0 =~= ft.subrange(9, 10));
    assert(scan_from(src, a + b + 6, 3, a + b + 5).0 =~= ft.subrange(8, 10));
    assert(scan_from(src, a + b + 5, 3, a + b + 4).0 =~= ft.subrange(7, 10));
    assert(scan_from(src, a + b + 4, 2, a + 4).0 =~= ft.subrange(6, 10));
    assert(scan_from(src, a + 4, 2, a + 3).0 =~= ft.subrange(5, 10));
    assert(scan_from(src, a + 3, 1, 3).0 =~= ft.subrange(4, 10));
    assert(scan_from(src, 3, 1, 2).0 =~= ft.subrange(3, 10));
    assert(scan_from(src, 2, 1, 1).0 =~= ft.subrange(2, 10));
    assert(scan_from(src, 1, 1, 0).0 =~= ft.subrange(1, 10));
    assert(scan_from(src, 0, 1, 0).0 =~= ft.subrange(0, 10));
    assert(scan_from(src, 0, 1, 0).1 == a + b + 7);
    assert(scan_from(src, 0, 1, 0).2 == 3);
    assert(scan(src) =~= ft);
}

/// A fenced code block: three backticks and the language `l`, a newline, the line `w`, a
/// newline and three backticks, is one code block in language `l` holding the text `w`.
#[verifier::rlimit(100)]
#[verifier::spinoff_prover]
pub proof fn lemma_code_block_lines(l: Seq<char>, w: Seq<char>)
    requires
        is_word(l),
        is_word(w),
        is_alphanumeric(l.last()),
        is_alphanumeric(w.last()),
        l.len() + w.len() + 8 < usize::MAX,
    ensures
        document(scan(seq!['`', '`', '`'] + l + seq!['\n'] + w + seq!['\n', '`', '`', '`']), 0) == Some(
            seq![Block::Code { language: l, content: seq![Inline::Text(w)] }],
        ),
{
    lemma_scan_fenced(l, w);
    let t = fenced_tokens(l, w);
    assert forall|k: int| 0 <= k < t.len() implies !#[trigger] can_close_at(t, k) by {}
    lemma_resolve_without_closers(t);
    assert(count_run(t, 3, TokenType::Backtick) == 0);
    assert(count_run(t, 2, TokenType::Backtick) == 1);
    assert(count_run(t, 1, TokenType::Backtick) == 2);
    assert(count_run(t, 0, TokenType::Backtick) == 3);
    assert(count_run(t, 10, TokenType::Backtick) == 0);
    assert(count_run(t, 9, TokenType::Backtick) == 1);
    assert(count_run(t, 8, TokenType::Backtick) == 2);
    assert(count_run(t, 7, TokenType::Backtick) == 3);
    assert(line_stop(t, 4) == 4);
    assert(line_stop(t, 3) == 4);
    assert(concat_lexemes(t, 3, 3) == Seq::<char>::empty());
    assert(Seq::<char>::empty() + l =~= l);
    assert(concat_lexemes(t, 3, 4) == l);
    assert(adv(t, 4) == 5);
    assert(find_block_fence(t, 7, 3) == Some(7int));
    assert(find_block_fence(t, 6, 3) == Some(7int));
    assert(find_block_fence(t, 5, 3) == Some(7int));
    assert(concat_lexemes(t, 5, 5) == Seq::<char>::empty());
    assert(Seq::<char>::empty() + w =~= w);
    assert(concat_lexemes(t, 5, 6) == w);
    let c = Block::Code { language: l, content: seq![Inline::Text(w)] };
    assert(code_block(t, 0) == Some((c, 10int)));
    assert(block_step(t, 0) == Some((Some(c), 10int)));
    assert(block_loop(t, 10, seq![c]) == Some(seq![c]));
}

} // verus!
