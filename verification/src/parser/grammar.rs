//! What the parser computes, as functions over token sequences.
//!
//! A result of `None` stands for an input on which parsing cannot finish: a required closing
//! token is missing, an index falls outside the tokens, a count would go below zero, or a
//! paragraph stops making progress.
use vstd::prelude::*;
use crate::lexer::token::{TokenType, TokenView};
use crate::parser::in_line_node::Inline;
use crate::parser::markdown_node::Block;
use crate::text::spec_is_whitespace;

verus! {

// ---------------------------------------------------------------------------------------------
// Looking at tokens
// ---------------------------------------------------------------------------------------------

/// The kind of the token at `cur`; past either end the input counts as finished.
pub open spec fn kind_at(t: Seq<TokenView>, cur: int) -> TokenType {
    if 0 <= cur < t.len() {
        t[cur].token_type
    } else {
        TokenType::Eof
    }
}

pub open spec fn at_end(t: Seq<TokenView>, cur: int) -> bool {
    kind_at(t, cur) == TokenType::Eof
}

pub open spec fn check(t: Seq<TokenView>, cur: int, k: TokenType) -> bool {
    !at_end(t, cur) && kind_at(t, cur) == k
}

pub open spec fn peek_match(t: Seq<TokenView>, cur: int, stops: Seq<TokenType>) -> bool {
    !at_end(t, cur) && stops.contains(kind_at(t, cur))
}

/// The position after consuming one token, unless the input is finished.
pub open spec fn adv(t: Seq<TokenView>, cur: int) -> int {
    if at_end(t, cur) {
        cur
    } else {
        cur + 1
    }
}

/// How many tokens of kind `k` follow one another from `start`.
pub open spec fn count_run(t: Seq<TokenView>, start: int, k: TokenType) -> int
    decreases t.len() - start,
{
    if 0 <= start < t.len() && t[start].token_type == k {
        1 + count_run(t, start + 1, k)
    } else {
        0
    }
}

pub proof fn lemma_count_run(t: Seq<TokenView>, start: int, k: TokenType)
    requires
        0 <= start,
    ensures
        0 <= count_run(t, start, k),
        start < t.len() ==> count_run(t, start, k) <= t.len() - start,
        start >= t.len() ==> count_run(t, start, k) == 0,
        start < t.len() && t[start].token_type == k ==> count_run(t, start, k) >= 1,
        forall|m: int| start <= m < start + count_run(t, start, k) ==> (#[trigger] t[m]).token_type == k,
        start + count_run(t, start, k) < t.len() ==> t[start + count_run(t, start, k)].token_type != k,
    decreases t.len() - start,
{
    if 0 <= start < t.len() && t[start].token_type == k {
        lemma_count_run(t, start + 1, k);
    }
}

/// The lexemes of `t[a..b]`, one after another.
pub open spec fn concat_lexemes(t: Seq<TokenView>, a: int, b: int) -> Seq<char>
    decreases b - a,
{
    if a >= b {
        Seq::empty()
    } else {
        concat_lexemes(t, a, b - 1) + t[b - 1].lexeme
    }
}

pub open spec fn repeat_char(c: char, n: int) -> Seq<char> {
    Seq::new(n as nat, |i: int| c)
}

pub open spec fn all_whitespace(s: Seq<char>) -> bool {
    forall|i: int| 0 <= i < s.len() ==> spec_is_whitespace(#[trigger] s[i])
}

// ---------------------------------------------------------------------------------------------
// Inline content
// ---------------------------------------------------------------------------------------------

/// Adds text to a list of inline nodes: it joins a text node at the end, starts a new one
/// otherwise, and is dropped when it is blank and the list is still empty.
pub open spec fn push_text(nodes: Seq<Inline>, lex: Seq<char>) -> Seq<Inline> {
    if all_whitespace(lex) && nodes.len() == 0 {
        nodes
    } else if nodes.len() > 0 && nodes.last() is Text {
        nodes.update(nodes.len() - 1, Inline::Text(nodes.last()->Text_0 + lex))
    } else {
        nodes.push(Inline::Text(lex))
    }
}

/// Adds one parsed inline node to a list.
pub open spec fn add_inline(nodes: Seq<Inline>, n: Inline) -> Seq<Inline> {
    match n {
        Inline::Text(lex) => push_text(nodes, lex),
        _ => nodes.push(n),
    }
}

/// Inline nodes from `cur` up to a token of a kind in `stops` (not consumed) or the end,
/// appended to `acc`; with the position where they stop.
pub open spec fn inline_loop(t: Seq<TokenView>, cur: int, stops: Seq<TokenType>, acc: Seq<Inline>) -> Option<(Seq<Inline>, int)>
    decreases t.len() - cur, 1int,
{
    if cur < 0 || at_end(t, cur) || peek_match(t, cur, stops) {
        Some((acc, cur))
    } else {
        match inline_item(t, cur) {
            None => None,
            Some((n, c)) => if c <= cur || c > t.len() {
                None
            } else {
                inline_loop(t, c, stops, add_inline(acc, n))
            },
        }
    }
}

/// The nodes of `inline_loop` started from an empty list.
pub open spec fn in_line_until(t: Seq<TokenView>, cur: int, stops: Seq<TokenType>) -> Option<(Seq<Inline>, int)> {
    inline_loop(t, cur, stops, Seq::empty())
}

/// A span opened just before `cur`: its content up to `close`, which must follow.
pub open spec fn span(t: Seq<TokenView>, cur: int, close: TokenType) -> Option<(Seq<Inline>, int)>
    decreases t.len() - cur, 2int,
{
    if cur < 0 || cur > t.len() {
        None
    } else {
        match inline_loop(t, cur, seq![close], Seq::empty()) {
            None => None,
            Some((content, c)) => if check(t, c, close) {
                Some((content, c + 1))
            } else {
                None
            },
        }
    }
}

/// The lexemes from `cur` up to a token of a kind in `stops` or the end.
pub open spec fn collect_until(t: Seq<TokenView>, cur: int, stops: Seq<TokenType>) -> (Seq<char>, int)
    decreases t.len() - cur,
{
    if cur < 0 || at_end(t, cur) || peek_match(t, cur, stops) {
        (Seq::empty(), cur)
    } else {
        let (rest, c) = collect_until(t, cur + 1, stops);
        (t[cur].lexeme + rest, c)
    }
}

/// A link whose `[` was just consumed: `content](dest)`.
pub open spec fn link(t: Seq<TokenView>, cur: int) -> Option<(Inline, int)>
    decreases t.len() - cur, 2int,
{
    if cur < 0 || cur > t.len() {
        None
    } else {
        match inline_loop(t, cur, seq![TokenType::ClosingBracket], Seq::empty()) {
            None => None,
            Some((content, c1)) => if check(t, c1, TokenType::ClosingBracket) && check(t, c1 + 1,
                TokenType::OpeningParenthesis) {
                let (dest, c2) = collect_until(t, c1 + 2, seq![TokenType::ClosingParenthesis]);
                if check(t, c2, TokenType::ClosingParenthesis) {
                    Some((Inline::Link { content, dest }, c2 + 1))
                } else {
                    None
                }
            } else {
                None
            },
        }
    }
}

/// The start of the first run of exactly `count` backticks at or after `m`.
pub open spec fn find_fence(t: Seq<TokenView>, m: int, count: int) -> Option<int>
    decreases t.len() - m,
{
    if m < 0 || m >= t.len() {
        None
    } else if t[m].token_type == TokenType::Backtick {
        let sc = count_run(t, m, TokenType::Backtick);
        if sc == count {
            Some(m)
        } else {
            proof {
                lemma_count_run(t, m, TokenType::Backtick);
            }
            find_fence(t, m + sc, count)
        }
    } else {
        find_fence(t, m + 1, count)
    }
}

/// Inline code text loses one space at each end when it has a space at both ends and is not
/// blank.
pub open spec fn strip_code(s: Seq<char>) -> Seq<char> {
    if s.len() > 0 && s[0] == ' ' && s.last() == ' ' && !all_whitespace(s) {
        s.subrange(1, s.len() - 1)
    } else {
        s
    }
}

/// Inline code whose first backtick was just consumed: a run of `count` backticks closes it;
/// without one the backticks are text.
pub open spec fn backtick(t: Seq<TokenView>, cur: int) -> (Inline, int) {
    let count = 1 + count_run(t, cur, TokenType::Backtick);
    match find_fence(t, cur, count) {
        Some(m) => (Inline::Code(seq![Inline::Text(strip_code(concat_lexemes(t, cur, m)))]), m + count),
        None => (Inline::Text(repeat_char('`', count)), cur),
    }
}

/// A token taken as text: whitespace, an unmatched delimiter, or content.
pub open spec fn text_item(t: Seq<TokenView>, cur: int) -> Option<(Inline, int)> {
    if check(t, cur, TokenType::Whitespace) || (!at_end(t, cur) && kind_at(t, cur) is Delimiter) || check(
        t,
        cur,
        TokenType::Content,
    ) {
        Some((Inline::Text(t[cur].lexeme), cur + 1))
    } else {
        None
    }
}

/// One inline node at `cur`.
pub open spec fn inline_item(t: Seq<TokenView>, cur: int) -> Option<(Inline, int)>
    decreases t.len() - cur, 0int,
{
    if cur < 0 || cur >= t.len() {
        None
    } else if check(t, cur, TokenType::OpenStrong) {
        match span(t, cur + 1, TokenType::CloseStrong) {
            Some((c, n)) => Some((Inline::Strong(c), n)),
            None => None,
        }
    } else if check(t, cur, TokenType::OpenEmphasis) {
        match span(t, cur + 1, TokenType::CloseEmphasis) {
            Some((c, n)) => Some((Inline::Emphasis(c), n)),
            None => None,
        }
    } else if check(t, cur, TokenType::Tilde) {
        match span(t, cur + 1, TokenType::Tilde) {
            Some((c, n)) => Some((Inline::Strikethrough(c), n)),
            None => None,
        }
    } else if check(t, cur, TokenType::OpeningBracket) {
        link(t, cur + 1)
    } else if check(t, cur, TokenType::Backtick) {
        Some(backtick(t, cur + 1))
    } else if check(t, cur, TokenType::BreakLine) {
        Some((Inline::BreakLine, cur + 1))
    } else {
        text_item(t, cur)
    }
}

// ---------------------------------------------------------------------------------------------
// Blocks
// ---------------------------------------------------------------------------------------------

/// A heading whose first `#` was just consumed: more `#` raise the level; the content runs to
/// the end of the line, whose newline is consumed.
pub open spec fn heading(t: Seq<TokenView>, cur: int) -> Option<(Block, int)> {
    let h = count_run(t, cur, TokenType::Hash);
    match in_line_until(t, cur + h, seq![TokenType::NewLine]) {
        None => None,
        Some((content, c)) => Some((Block::Heading { level: (1 + h) as usize, content }, adv(t, c))),
    }
}

/// The first position at or after `i` that is the end or a newline.
pub open spec fn line_stop(t: Seq<TokenView>, i: int) -> int
    decreases t.len() - i,
{
    if i < 0 || at_end(t, i) || kind_at(t, i) == TokenType::NewLine {
        i
    } else {
        line_stop(t, i + 1)
    }
}

/// The start of the first run of exactly `count` backticks at or after `m` that follows a
/// newline token.
pub open spec fn find_block_fence(t: Seq<TokenView>, m: int, count: int) -> Option<int>
    decreases t.len() - m,
{
    if m < 1 || m >= t.len() {
        None
    } else if t[m].token_type == TokenType::Backtick && t[m - 1].token_type == TokenType::NewLine {
        let sc = count_run(t, m, TokenType::Backtick);
        if sc == count {
            Some(m)
        } else {
            proof {
                lemma_count_run(t, m, TokenType::Backtick);
            }
            find_block_fence(t, m + sc, count)
        }
    } else {
        find_block_fence(t, m + 1, count)
    }
}

/// A fenced code block at `cur`: the opening run of backticks, the language up to the end of
/// the line, and the lines up to a closing run of the same length at the start of a line.
/// Without a closing run the opening backticks become a paragraph of text.
pub open spec fn code_block(t: Seq<TokenView>, cur: int) -> Option<(Block, int)> {
    let opening = count_run(t, cur, TokenType::Backtick);
    let c1 = cur + opening;
    let c2 = line_stop(t, c1);
    let language = concat_lexemes(t, c1, c2);
    let c3 = adv(t, c2);
    match find_block_fence(t, c3, opening) {
        Some(m) => if m - 1 < c3 {
            None
        } else {
            Some((
                Block::Code { language, content: seq![Inline::Text(concat_lexemes(t, c3, m - 1))] },
                m + opening,
            ))
        },
        None => Some((Block::Paragraph(seq![Inline::Text(repeat_char('`', opening))]), c3)),
    }
}

/// The lines of a paragraph from `cur`, appended to `acc`.
pub open spec fn para_loop(t: Seq<TokenView>, cur: int, acc: Seq<Inline>) -> Option<(Block, int)>
    decreases t.len() - cur,
{
    if cur < 0 || at_end(t, cur) {
        Some((Block::Paragraph(acc), cur))
    } else if check(t, cur, TokenType::NewLine) {
        Some((Block::Paragraph(acc), cur + 1))
    } else {
        match in_line_until(t, cur, seq![TokenType::NewLine, TokenType::HorizontalRule]) {
            None => None,
            Some((content, c2)) => {
                let lb = kind_at(t, c2) == TokenType::NewLine && kind_at(t, c2 + 1) == TokenType::NewLine;
                let c3 = if lb { adv(t, c2) } else { c2 };
                let content2 = if !at_end(t, c3) && !lb { push_text(content, seq![' ']) } else { content };
                if c3 <= cur || c3 > t.len() {
                    None
                } else {
                    para_loop(t, c3, acc + content2)
                }
            },
        }
    }
}

pub open spec fn paragraph(t: Seq<TokenView>, cur: int) -> Option<(Block, int)> {
    para_loop(t, cur, Seq::empty())
}

/// One step of the block loop at `cur`: the block it adds, if any, and where it ends.
pub open spec fn block_step(t: Seq<TokenView>, cur: int) -> Option<(Option<Block>, int)> {
    if check(t, cur, TokenType::NewLine) {
        Some((None, cur + 1 + count_run(t, cur + 1, TokenType::NewLine)))
    } else if check(t, cur, TokenType::HorizontalRule) {
        Some((Some(Block::HorizontalRule), cur + 1))
    } else {
        let r = if check(t, cur, TokenType::Hash) {
            heading(t, cur + 1)
        } else if count_run(t, cur, TokenType::Backtick) >= 3 {
            code_block(t, cur)
        } else {
            paragraph(t, cur)
        };
        match r {
            Some((b, c)) => Some((Some(b), c)),
            None => None,
        }
    }
}

/// The blocks from `cur` to the end, appended to `acc`.
pub open spec fn block_loop(t: Seq<TokenView>, cur: int, acc: Seq<Block>) -> Option<Seq<Block>>
    decreases t.len() - cur,
{
    if cur < 0 || at_end(t, cur) {
        Some(acc)
    } else {
        match block_step(t, cur) {
            None => None,
            Some((b, c)) => if c <= cur || c > t.len() {
                None
            } else {
                block_loop(t, c, match b {
                    Some(x) => acc.push(x),
                    None => acc,
                })
            },
        }
    }
}

// ---------------------------------------------------------------------------------------------
// Matching emphasis delimiters
// ---------------------------------------------------------------------------------------------

/// A delimiter run waiting on the stack: where its token is, how many of its characters are
/// left, and whether it can open.
pub struct DelimView {
    pub position: int,
    pub length: int,
    pub can_open: bool,
}

pub open spec fn emphasis_lexeme(strong: bool) -> Seq<char> {
    if strong {
        seq!['*', '*']
    } else {
        seq!['*']
    }
}

pub open spec fn with_kind(tv: TokenView, k: TokenType, lexeme: Seq<char>) -> TokenView {
    TokenView { token_type: k, lexeme, line: tv.line, pos: tv.pos }
}

/// Puts an opening token after the opener at `op` (after a closing token that directly follows
/// it, if any) and a closing token before the delimiter at `i`. The result holds the tokens,
/// the new index of that delimiter, and by how much the opening token's position was shifted.
pub open spec fn apply_emphasis(t: Seq<TokenView>, op: int, strong: bool, i: int) -> Option<(Seq<TokenView>, int, int)> {
    if !(0 <= op && op + 1 < t.len()) {
        None
    } else {
        let open = if strong { TokenType::OpenStrong } else { TokenType::OpenEmphasis };
        let close = if strong { TokenType::CloseStrong } else { TokenType::CloseEmphasis };
        let nt = with_kind(t[op], open, emphasis_lexeme(strong));
        let k = t[op + 1].token_type;
        let (nop, shift) = if k == TokenType::CloseEmphasis || k == TokenType::CloseStrong {
            (op + 2, 2int)
        } else {
            (op + 1, 1int)
        };
        if nop > t.len() {
            None
        } else {
            let t1 = t.insert(nop, nt);
            let i1 = i + 1;
            if !(0 <= i1 < t1.len()) {
                None
            } else {
                let t2 = t1.insert(i1, with_kind(t1[i1], close, emphasis_lexeme(strong)));
                Some((t2, i1 + 1, shift))
            }
        }
    }
}

/// Positions after `op` move up by `by`, none of them past `usize::MAX`.
pub open spec fn can_shift_up(s: Seq<DelimView>, op: int, by: int) -> bool {
    forall|k: int| 0 <= k < s.len() && s[k].position > op ==> s[k].position + by <= usize::MAX
}

pub open spec fn shift_up(s: Seq<DelimView>, op: int, by: int) -> Seq<DelimView> {
    Seq::new(
        s.len(),
        |k: int|
            if s[k].position > op {
                DelimView { position: s[k].position + by, length: s[k].length, can_open: s[k].can_open }
            } else {
                s[k]
            },
    )
}

/// Positions of the entries from `from` on move down by one, none of them below zero.
pub open spec fn can_shift_down(s: Seq<DelimView>, from: int) -> bool {
    forall|k: int| from <= k < s.len() ==> s[k].position >= 1
}

pub open spec fn shift_down(s: Seq<DelimView>, from: int) -> Seq<DelimView> {
    Seq::new(
        s.len(),
        |k: int|
            if from <= k {
                DelimView { position: s[k].position - 1, length: s[k].length, can_open: s[k].can_open }
            } else {
                s[k]
            },
    )
}

/// Removes the token of the stack entry `k`, and the entry itself.
pub open spec fn remove_delim(t: Seq<TokenView>, s: Seq<DelimView>, k: int, i: int) -> Option<(Seq<TokenView>, Seq<DelimView>, int)> {
    let p = s[k].position;
    if !(0 <= p < t.len()) || !can_shift_down(s, k + 1) || i == 0 {
        None
    } else {
        Some((t.remove(p), shift_down(s, k + 1).remove(k), i - 1))
    }
}

pub open spec fn set_length(d: DelimView, l: int) -> DelimView {
    DelimView { position: d.position, length: l, can_open: d.can_open }
}

/// Keeps the first `n` characters of the lexeme at `p`.
pub open spec fn truncate_lexeme(t: Seq<TokenView>, p: int, n: int) -> Seq<TokenView> {
    let l = t[p].lexeme;
    t.update(p, with_kind(t[p], t[p].token_type, l.take(if n < l.len() { n } else { l.len() as int })))
}

/// A closing delimiter at `i` with the opener at stack entry `o`, just below it (entry `j`):
/// emphasis (one character from each) or strong emphasis (two) is marked, spent runs are
/// removed, and the state after it is returned.
pub open spec fn match_delims(t: Seq<TokenView>, s1: Seq<DelimView>, i: int, length: int) -> Option<(Seq<TokenView>, Seq<DelimView>, int)> {
    let j = s1.len() - 1;
    let o = j - 1;
    let op_len = s1[o].length;
    let op_pos = s1[o].position;
    let strong = length >= 2 && op_len >= 2;
    let use_len = if strong { 2int } else { 1int };
    match apply_emphasis(t, op_pos, strong, i) {
        None => None,
        Some((t2, i2, shift)) => if !can_shift_up(s1, op_pos, 1 + shift) {
            None
        } else {
            let s2 = shift_up(s1, op_pos, 1 + shift);
            let nl = s2[j].length - use_len;
            let p = s2[j].position;
            if nl < 0 || !(0 <= p < t2.len()) {
                None
            } else {
                let s3 = s2.update(j, set_length(s2[j], nl));
                let t3 = truncate_lexeme(t2, p, nl);
                let r1 = if nl == 0 { remove_delim(t3, s3, j, i2) } else { Some((t3, s3, i2)) };
                match r1 {
                    None => None,
                    Some((t4, s4, i3)) => {
                        let ol = s4[o].length - use_len;
                        if ol < 0 {
                            None
                        } else {
                            let s5 = s4.update(o, set_length(s4[o], ol));
                            if ol == 0 {
                                remove_delim(t4, s5, o, i3)
                            } else {
                                Some((t4, s5, i3))
                            }
                        }
                    },
                }
            }
        },
    }
}

/// One step of the delimiter pass at `i < t.len()`; the index returned is the next one to look at.
pub open spec fn delim_step(t: Seq<TokenView>, s: Seq<DelimView>, i: int) -> Option<(Seq<TokenView>, Seq<DelimView>, int)> {
    match t[i].token_type {
        TokenType::Delimiter { length, can_open, can_close } => {
            let s1 = s.push(DelimView { position: i, length: length as int, can_open });
            if !can_close {
                Some((t, s1, i + 1))
            } else if s.len() == 0 {
                None
            } else if s1[s.len() - 1].position == i || !s1[s.len() - 1].can_open {
                Some((t, s1, i + 1))
            } else {
                match match_delims(t, s1, i, length as int) {
                    None => None,
                    Some((t5, s6, i4)) => Some((t5, s6, i4 + 1)),
                }
            }
        },
        _ => Some((t, s, i + 1)),
    }
}

pub proof fn lemma_delim_step(t: Seq<TokenView>, s: Seq<DelimView>, i: int)
    requires
        0 <= i < t.len(),
    ensures
        delim_step(t, s, i) matches Some((t2, s2, i2)) ==> t2.len() - i2 == t.len() - i - 1 && i2 >= 1,
{
}

/// The delimiter pass from `i` with stack `s`: the tokens at the end.
pub open spec fn delim_loop(t: Seq<TokenView>, s: Seq<DelimView>, i: int) -> Option<Seq<TokenView>>
    decreases t.len() - i,
{
    if i < 0 || i >= t.len() {
        Some(t)
    } else {
        match delim_step(t, s, i) {
            None => None,
            Some((t2, s2, i2)) => {
                proof {
                    lemma_delim_step(t, s, i);
                }
                delim_loop(t2, s2, i2)
            },
        }
    }
}

/// Tokens after the delimiter pass: matched runs of `*` and `_` become opening and closing
/// emphasis tokens.
pub open spec fn resolve_delimiters(t: Seq<TokenView>) -> Option<Seq<TokenView>> {
    delim_loop(t, Seq::empty(), 0)
}

/// The blocks of a token sequence, parsed from `cur` after the delimiter pass.
pub open spec fn document(t: Seq<TokenView>, cur: int) -> Option<Seq<Block>> {
    match resolve_delimiters(t) {
        None => None,
        Some(t2) => block_loop(t2, cur, Seq::empty()),
    }
}

// ---------------------------------------------------------------------------------------------
// Laws
// ---------------------------------------------------------------------------------------------

/// No two text nodes follow one another, and a text node in first place is not blank.
pub open spec fn text_merged(s: Seq<Inline>) -> bool {
    &&& forall|i: int| 0 <= i < s.len() - 1 ==> !((#[trigger] s[i]) is Text && s[i + 1] is Text)
    &&& s.len() > 0 && s[0] is Text ==> !all_whitespace(s[0]->Text_0)
}

proof fn lemma_add_inline_merged(acc: Seq<Inline>, n: Inline)
    requires
        text_merged(acc),
    ensures
        text_merged(add_inline(acc, n)),
{
    let r = add_inline(acc, n);
    match n {
        Inline::Text(lex) => {
            if all_whitespace(lex) && acc.len() == 0 {
            } else if acc.len() > 0 && acc.last() is Text {
                assert forall|i: int| 0 <= i < r.len() - 1 implies !((#[trigger] r[i]) is Text && r[i + 1] is Text) by {
                    assert(r[i] is Text == acc[i] is Text);
                    assert(r[i + 1] is Text == acc[i + 1] is Text);
                }
                if acc.len() == 1 {
                    let t0 = acc[0]->Text_0;
                    assert(!all_whitespace(t0));
                    let k = choose|k: int| 0 <= k < t0.len() && !spec_is_whitespace(t0[k]);
                    assert((t0 + lex)[k] == t0[k]);
                }
            } else {
                assert forall|i: int| 0 <= i < r.len() - 1 implies !((#[trigger] r[i]) is Text && r[i + 1] is Text) by {
                    if i < acc.len() - 1 {
                        assert(r[i] == acc[i] && r[i + 1] == acc[i + 1]);
                    }
                }
            }
        },
        _ => {
            assert forall|i: int| 0 <= i < r.len() - 1 implies !((#[trigger] r[i]) is Text && r[i + 1] is Text) by {
                if i < acc.len() - 1 {
                    assert(r[i] == acc[i] && r[i + 1] == acc[i + 1]);
                }
            }
        },
    }
}

proof fn lemma_inline_loop_merged(t: Seq<TokenView>, cur: int, stops: Seq<TokenType>, acc: Seq<Inline>)
    requires
        text_merged(acc),
    ensures
        inline_loop(t, cur, stops, acc) matches Some((nodes, _)) ==> text_merged(nodes),
    decreases t.len() - cur,
{
    if !(cur < 0 || at_end(t, cur) || peek_match(t, cur, stops)) {
        match inline_item(t, cur) {
            None => {},
            Some((n, c)) => {
                if !(c <= cur || c > t.len()) {
                    lemma_add_inline_merged(acc, n);
                    lemma_inline_loop_merged(t, c, stops, add_inline(acc, n));
                }
            },
        }
    }
}

/// Inline content never holds two text nodes in a row (adjacent text is joined), and does not
/// start with blank text (leading whitespace is dropped).
pub proof fn lemma_in_line_text_merged(t: Seq<TokenView>, cur: int, stops: Seq<TokenType>)
    ensures
        in_line_until(t, cur, stops) matches Some((nodes, _)) ==> text_merged(nodes),
{
    lemma_inline_loop_merged(t, cur, stops, Seq::empty());
}

/// The token at `k` is a delimiter run that can close emphasis.
pub open spec fn can_close_at(t: Seq<TokenView>, k: int) -> bool {
    t[k].token_type matches TokenType::Delimiter { can_close, .. } && can_close
}

proof fn lemma_delim_loop_no_closer(t: Seq<TokenView>, s: Seq<DelimView>, i: int)
    requires
        0 <= i,
        forall|k: int| 0 <= k < t.len() ==> !#[trigger] can_close_at(t, k),
    ensures
        delim_loop(t, s, i) == Some(t),
    decreases t.len() - i,
{
    if i < t.len() {
        assert(!can_close_at(t, i));
        match t[i].token_type {
            TokenType::Delimiter { length, can_open, can_close } => {
                let s1 = s.push(DelimView { position: i, length: length as int, can_open });
                lemma_delim_loop_no_closer(t, s1, i + 1);
            },
            _ => {
                lemma_delim_loop_no_closer(t, s, i + 1);
            },
        }
    }
}

/// When no delimiter run can close emphasis (in particular when there is no delimiter run at
/// all), the delimiter pass changes nothing.
pub proof fn lemma_resolve_without_closers(t: Seq<TokenView>)
    requires
        forall|k: int| 0 <= k < t.len() ==> !#[trigger] can_close_at(t, k),
    ensures
        resolve_delimiters(t) == Some(t),
{
    lemma_delim_loop_no_closer(t, Seq::empty(), 0);
}

} // verus!
