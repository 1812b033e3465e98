//! Turns markdown source text into tokens.
use vstd::prelude::*;
use crate::lexer::token::{Token, TokenType, TokenView, tokens_view, duplicate_tokens};
use crate::text::{chars_of, is_whitespace, is_punctuation, push_char, string_of_range,
    spec_is_whitespace, spec_is_punctuation};

verus! {

pub struct Scanner {
    source: Vec<char>,
    tokens: Vec<Token>,
    start: usize,
    current: usize,
    line: usize,
}

/// The state of a scanner.
pub struct ScannerView {
    pub source: Seq<char>,
    pub tokens: Seq<TokenView>,
    pub start: int,
    pub current: int,
    pub line: int,
}

impl View for Scanner {
    type V = ScannerView;

    closed spec fn view(&self) -> ScannerView {
        ScannerView {
            source: self.source@,
            tokens: tokens_view(self.tokens@),
            start: self.start as int,
            current: self.current as int,
            line: self.line as int,
        }
    }
}

/// Characters that end a run of plain text.
pub open spec fn is_text_end(c: char) -> bool {
    c == '\0' || c == '\n' || c == '*' || c == '_' || c == '-' || c == '~' || c == '['
        || c == ']' || c == '(' || c == ')' || c == '`'
}

/// The first index at or after `i` that ends a run of text, or the end of `src`.
pub open spec fn text_end(src: Seq<char>, i: int) -> int
    decreases src.len() - i,
{
    if i >= src.len() || i < 0 {
        src.len() as int
    } else if is_text_end(src[i]) {
        i
    } else {
        text_end(src, i + 1)
    }
}

/// The first index at or after `i` that holds a newline, or the end of `src`.
pub open spec fn line_end(src: Seq<char>, i: int) -> int
    decreases src.len() - i,
{
    if i >= src.len() || i < 0 {
        src.len() as int
    } else if src[i] == '\n' {
        i
    } else {
        line_end(src, i + 1)
    }
}

/// The first index at or after `i` that does not hold `m`, or the end of `src`.
pub open spec fn run_end(src: Seq<char>, i: int, m: char) -> int
    decreases src.len() - i,
{
    if i >= src.len() || i < 0 {
        src.len() as int
    } else if src[i] != m {
        i
    } else {
        run_end(src, i + 1, m)
    }
}

/// How many times `m` occurs in `s`.
pub open spec fn count_of(s: Seq<char>, m: char) -> nat
    decreases s.len(),
{
    if s.len() == 0 {
        0
    } else {
        count_of(s.drop_last(), m) + if s.last() == m { 1nat } else { 0nat }
    }
}

/// The rest of the line from `from` holds only `m` and spaces, and `m` at `from - 1` together
/// with those occurrences makes at least three.
pub open spec fn rule_line(src: Seq<char>, from: int, m: char) -> bool {
    let e = line_end(src, from);
    &&& forall|k: int| from <= k < e ==> src[k] == m || src[k] == ' '
    &&& 1 + count_of(src.subrange(from, e), m) >= 3
}

/// The kind of a run of `m` that covers `src[start..e]`, with the flanking rules for opening and
/// closing emphasis.
pub open spec fn delimiter_type(src: Seq<char>, start: int, e: int, m: char) -> TokenType {
    let prev_ws = start == 0 || spec_is_whitespace(src[start - 1]);
    let prev_p = start != 0 && spec_is_punctuation(src[start - 1]);
    let next_ws = e >= src.len() || spec_is_whitespace(src[e]);
    let next_p = e < src.len() && spec_is_punctuation(src[e]);
    let left = !next_ws && (!next_p || prev_ws || prev_p);
    let right = !prev_ws && (!prev_p || next_ws || next_p);
    let can_open = if m == '*' { left } else { left && !(right && !prev_p) };
    let can_close = if m == '*' { right } else { right && !(left && !next_p) };
    TokenType::Delimiter { length: (e - start) as usize, can_open, can_close }
}

pub open spec fn tok(t: TokenType, lexeme: Seq<char>, line: int, pos: int) -> TokenView {
    TokenView { token_type: t, lexeme, line: line as usize, pos: pos as usize }
}

/// One scanning step at `start`: the token it emits, if any, where the next step starts, and the
/// line number after it.
pub open spec fn scan_step(src: Seq<char>, start: int, line: int) -> (Option<TokenView>, int, int) {
    let c = src[start];
    let n = start + 1;
    if c == '#' {
        (Some(tok(TokenType::Hash, src.subrange(start, n), line, start)), n, line)
    } else if c == '[' {
        (Some(tok(TokenType::OpeningBracket, src.subrange(start, n), line, start)), n, line)
    } else if c == ']' {
        (Some(tok(TokenType::ClosingBracket, src.subrange(start, n), line, start)), n, line)
    } else if c == '(' {
        (Some(tok(TokenType::OpeningParenthesis, src.subrange(start, n), line, start)), n, line)
    } else if c == ')' {
        (Some(tok(TokenType::ClosingParenthesis, src.subrange(start, n), line, start)), n, line)
    } else if c == '`' {
        (Some(tok(TokenType::Backtick, src.subrange(start, n), line, start)), n, line)
    } else if c == ' ' || c == '\t' {
        (Some(tok(TokenType::Whitespace, seq![' '], line, start)), n, line)
    } else if c == '\n' {
        let kind = if n > 2 && src[n - 3] == ' ' && src[n - 2] == ' ' {
            TokenType::BreakLine
        } else {
            TokenType::NewLine
        };
        (Some(tok(kind, src.subrange(start, n), line, start)), n, line + 1)
    } else if c == '-' {
        if rule_line(src, n, '-') {
            (Some(tok(TokenType::HorizontalRule, src.subrange(start, n), line, start)), line_end(src, n), line)
        } else if n < src.len() && src[n] == ' ' {
            (Some(tok(TokenType::Dash, src.subrange(start, n + 1), line, start)), n + 1, line)
        } else {
            let e = text_end(src, n);
            (Some(tok(TokenType::Content, src.subrange(start, e), line, start)), e, line)
        }
    } else if c == '~' {
        if n < src.len() && src[n] == '~' {
            (Some(tok(TokenType::Tilde, src.subrange(start, n + 1), line, start)), n + 1, line)
        } else {
            let e = text_end(src, n);
            (Some(tok(TokenType::Content, src.subrange(start, e), line, start)), e, line)
        }
    } else if c == '*' || c == '_' {
        if start == 0 && rule_line(src, 1, c) {
            (Some(tok(TokenType::HorizontalRule, src.subrange(start, n), line, start)), line_end(src, n), line)
        } else {
            let e = run_end(src, n, c);
            (Some(tok(delimiter_type(src, start, e, c), src.subrange(start, e), line, start)), e, line)
        }
    } else if c == '\0' {
        (None, n, line)
    } else {
        let e = text_end(src, n);
        (Some(tok(TokenType::Content, src.subrange(start, e), line, start)), e, line)
    }
}

/// Scanning from `start` to the end of `src`: the tokens emitted, where the last step started
/// (`last` if none is taken), and the final line number.
pub open spec fn scan_from(src: Seq<char>, start: int, line: int, last: int) -> (Seq<TokenView>, int, int)
    decreases src.len() - start,
{
    if start >= src.len() || start < 0 {
        (Seq::empty(), last, line)
    } else {
        let (t, n, l) = scan_step(src, start, line);
        if n <= start || n > src.len() {
            (Seq::empty(), last, line)
        } else {
            let (rest, ls, ll) = scan_from(src, n, l, start);
            (match t {
                Some(tv) => seq![tv] + rest,
                None => rest,
            }, ls, ll)
        }
    }
}

/// The tokens of `src`, ending with an end-of-file token.
pub open spec fn scan(src: Seq<char>) -> Seq<TokenView> {
    let (toks, last, line) = scan_from(src, 0, 1, 0);
    toks.push(tok(TokenType::Eof, Seq::empty(), line, last))
}

pub proof fn lemma_text_end(src: Seq<char>, i: int)
    requires
        0 <= i <= src.len(),
    ensures
        i <= text_end(src, i) <= src.len(),
        forall|k: int| i <= k < text_end(src, i) ==> !is_text_end(#[trigger] src[k]),
        text_end(src, i) < src.len() ==> is_text_end(src[text_end(src, i)]),
    decreases src.len() - i,
{
    if i < src.len() && !is_text_end(src[i]) {
        lemma_text_end(src, i + 1);
    }
}

pub proof fn lemma_line_end(src: Seq<char>, i: int)
    requires
        0 <= i <= src.len(),
    ensures
        i <= line_end(src, i) <= src.len(),
        forall|k: int| i <= k < line_end(src, i) ==> #[trigger] src[k] != '\n',
        line_end(src, i) < src.len() ==> src[line_end(src, i)] == '\n',
    decreases src.len() - i,
{
    if i < src.len() && src[i] != '\n' {
        lemma_line_end(src, i + 1);
    }
}

pub proof fn lemma_run_end(src: Seq<char>, i: int, m: char)
    requires
        0 <= i <= src.len(),
    ensures
        i <= run_end(src, i, m) <= src.len(),
        forall|k: int| i <= k < run_end(src, i, m) ==> #[trigger] src[k] == m,
        run_end(src, i, m) < src.len() ==> src[run_end(src, i, m)] != m,
    decreases src.len() - i,
{
    if i < src.len() && src[i] == m {
        lemma_run_end(src, i + 1, m);
    }
}

/// Every step moves forward and stays within the source.
pub proof fn lemma_scan_step(src: Seq<char>, start: int, line: int)
    requires
        0 <= start < src.len(),
    ensures
        start < scan_step(src, start, line).1 <= src.len(),
        line <= scan_step(src, start, line).2 <= line + 1,
{
    lemma_text_end(src, start + 1);
    lemma_line_end(src, start + 1);
    lemma_run_end(src, start + 1, src[start]);
}


/// A token read from the source: it is not the end-of-file token, it starts within the source
/// at or after `start`, and its text is the source text at its position (a whitespace token
/// reads as a single space).
pub open spec fn read_from_source(src: Seq<char>, tv: TokenView, start: int) -> bool {
    &&& tv.token_type != TokenType::Eof
    &&& start <= tv.pos < src.len()
    &&& tv.token_type == TokenType::Whitespace ==> tv.lexeme == seq![' ']
    &&& tv.token_type != TokenType::Whitespace ==> tv.pos + tv.lexeme.len() <= src.len() && tv.lexeme
        == src.subrange(tv.pos as int, tv.pos + tv.lexeme.len())
}

proof fn lemma_step_read_from_source(src: Seq<char>, start: int, line: int)
    requires
        0 <= start < src.len() < usize::MAX,
        0 <= line <= usize::MAX,
    ensures
        scan_step(src, start, line).0 matches Some(tv) ==> read_from_source(src, tv, start) && tv.pos == start
            && tv.lexeme.len() <= scan_step(src, start, line).1 - start,
{
    lemma_scan_step(src, start, line);
}

proof fn lemma_scan_from_read(src: Seq<char>, start: int, line: int, last: int)
    requires
        0 <= start <= src.len(),
        src.len() < usize::MAX,
        1 <= line <= start + 1,
        0 <= last <= start,
    ensures
        forall|k: int| 0 <= k < scan_from(src, start, line, last).0.len() ==> read_from_source(src,
            #[trigger] scan_from(src, start, line, last).0[k], start),
        forall|k: int, m: int| 0 <= k < m < scan_from(src, start, line, last).0.len() ==>
            (#[trigger] scan_from(src, start, line, last).0[k]).pos < (#[trigger] scan_from(src, start, line, last).0[m]).pos,
        forall|k: int| 0 <= k < scan_from(src, start, line, last).0.len() ==>
            (#[trigger] scan_from(src, start, line, last).0[k]).pos <= scan_from(src, start, line, last).1,
        last <= scan_from(src, start, line, last).1 <= src.len(),
        1 <= scan_from(src, start, line, last).2 <= src.len() + 1,
    decreases src.len() - start,
{
    if start < src.len() {
        let (t, n, l) = scan_step(src, start, line);
        lemma_scan_step(src, start, line);
        lemma_step_read_from_source(src, start, line);
        lemma_scan_from_read(src, n, l, start);
        let (rest, ls, ll) = scan_from(src, n, l, start);
        match t {
            Some(tv) => {
                let all = seq![tv] + rest;
                assert(scan_from(src, start, line, last).0 == all);
                assert forall|k: int| 0 <= k < all.len() implies read_from_source(src, #[trigger] all[k], start) by {
                    if k > 0 {
                        assert(all[k] == rest[k - 1]);
                    }
                }
                assert forall|k: int, m: int| 0 <= k < m < all.len() implies (#[trigger] all[k]).pos
                    < (#[trigger] all[m]).pos by {
                    assert(all[m] == rest[m - 1]);
                    if k > 0 {
                        assert(all[k] == rest[k - 1]);
                    }
                }
                assert forall|k: int| 0 <= k < all.len() implies (#[trigger] all[k]).pos <= ls by {
                    if k > 0 {
                        assert(all[k] == rest[k - 1]);
                    }
                }
            },
            None => {},
        }
    }
}

/// The tokens of a source come in the order of their positions; each but the last is read from
/// the source text at its position, and only the last marks the end of the input.
pub proof fn lemma_scan_tokens_follow_source(src: Seq<char>)
    requires
        src.len() < usize::MAX,
    ensures
        scan(src).len() >= 1,
        scan(src).last().token_type == TokenType::Eof,
        scan(src).last().lexeme == Seq::<char>::empty(),
        forall|k: int| 0 <= k < scan(src).len() - 1 ==> read_from_source(src, #[trigger] scan(src)[k], 0),
        forall|k: int, m: int| 0 <= k < m < scan(src).len() - 1 ==> (#[trigger] scan(src)[k]).pos
            < (#[trigger] scan(src)[m]).pos,
        forall|k: int| 0 <= k < scan(src).len() ==> (#[trigger] scan(src)[k]).pos <= scan(src).last().pos,
{
    lemma_scan_from_read(src, 0, 1, 0);
    let (toks, last, line) = scan_from(src, 0, 1, 0);
    let all = scan(src);
    assert(all == toks.push(tok(TokenType::Eof, Seq::empty(), line, last)));
    assert forall|k: int| 0 <= k < all.len() - 1 implies read_from_source(src, #[trigger] all[k], 0) by {
        assert(all[k] == toks[k]);
    }
    assert forall|k: int, m: int| 0 <= k < m < all.len() - 1 implies (#[trigger] all[k]).pos
        < (#[trigger] all[m]).pos by {
        assert(all[k] == toks[k]);
        assert(all[m] == toks[m]);
    }
    assert forall|k: int| 0 <= k < all.len() implies (#[trigger] all[k]).pos <= all.last().pos by {
        if k < all.len() - 1 {
            assert(all[k] == toks[k]);
        }
    }
}

/// How many newlines come before position `p`.
pub open spec fn newlines_before(src: Seq<char>, p: int) -> nat {
    count_of(src.subrange(0, p), '\n')
}

pub proof fn lemma_count_extend(src: Seq<char>, a: int, b: int)
    requires
        0 <= a <= b <= src.len(),
        forall|k: int| a <= k < b ==> src[k] != '\n',
    ensures
        newlines_before(src, b) == newlines_before(src, a),
    decreases b - a,
{
    if a < b {
        lemma_count_extend(src, a, b - 1);
        assert(src.subrange(0, b).drop_last() =~= src.subrange(0, b - 1));
    }
}

proof fn lemma_step_lines(src: Seq<char>, start: int, line: int)
    requires
        0 <= start < src.len(),
    ensures
        ({
            let (t, n, l) = scan_step(src, start, line);
            &&& newlines_before(src, n) + line == newlines_before(src, start) + l
        }),
{
    let (t, n, l) = scan_step(src, start, line);
    lemma_scan_step(src, start, line);
    lemma_text_end(src, start + 1);
    lemma_line_end(src, start + 1);
    lemma_run_end(src, start + 1, src[start]);
    assert(src.subrange(0, start + 1).drop_last() =~= src.subrange(0, start));
    lemma_count_extend(src, start + 1, n);
}

proof fn lemma_scan_from_lines(src: Seq<char>, start: int, line: int, last: int)
    requires
        0 <= start <= src.len(),
        src.len() < usize::MAX,
        line == 1 + newlines_before(src, start),
    ensures
        forall|k: int| 0 <= k < scan_from(src, start, line, last).0.len() ==> {
            let tv = #[trigger] scan_from(src, start, line, last).0[k];
            tv.line == 1 + newlines_before(src, tv.pos as int)
        },
        scan_from(src, start, line, last).2 == 1 + newlines_before(src, src.len() as int),
    decreases src.len() - start,
{
    if start < src.len() {
        let (t, n, l) = scan_step(src, start, line);
        lemma_scan_step(src, start, line);
        lemma_step_lines(src, start, line);
        lemma_count_bound(src.subrange(0, start), '\n');
        lemma_step_read_from_source(src, start, line);
        lemma_scan_from_lines(src, n, l, start);
        let (rest, ls, ll) = scan_from(src, n, l, start);
        match t {
            Some(tv) => {
                let all = seq![tv] + rest;
                assert forall|k: int| 0 <= k < all.len() implies (#[trigger] all[k]).line == 1 + newlines_before(
                    src,
                    all[k].pos as int,
                ) by {
                    if k > 0 {
                        assert(all[k] == rest[k - 1]);
                    }
                }
            },
            None => {},
        }
    } else {
        assert(src.subrange(0, start) =~= src.subrange(0, src.len() as int));
    }
}

pub proof fn lemma_count_bound(s: Seq<char>, m: char)
    ensures
        count_of(s, m) <= s.len(),
    decreases s.len(),
{
    if s.len() > 0 {
        lemma_count_bound(s.drop_last(), m);
    }
}

/// Every token carries the line it starts on: one more than the number of newlines before it.
pub proof fn lemma_scan_lines(src: Seq<char>)
    requires
        src.len() < usize::MAX,
    ensures
        forall|k: int| 0 <= k < scan(src).len() - 1 ==> (#[trigger] scan(src)[k]).line == 1 + newlines_before(
            src,
            scan(src)[k].pos as int,
        ),
        scan(src).last().line == 1 + newlines_before(src, src.len() as int),
{
    assert(src.subrange(0, 0) =~= Seq::<char>::empty());
    lemma_scan_from_lines(src, 0, 1, 0);
    lemma_count_bound(src, '\n');
    assert(src.subrange(0, src.len() as int) =~= src);
    let (toks, last, line) = scan_from(src, 0, 1, 0);
    let all = scan(src);
    assert forall|k: int| 0 <= k < all.len() - 1 implies (#[trigger] all[k]).line == 1 + newlines_before(
        src,
        all[k].pos as int,
    ) by {
        assert(all[k] == toks[k]);
    }
}

/// The lexemes of `t`, one after another.
pub open spec fn lexemes_of(t: Seq<TokenView>) -> Seq<char>
    decreases t.len(),
{
    if t.len() == 0 {
        Seq::empty()
    } else {
        t[0].lexeme + lexemes_of(t.drop_first())
    }
}

proof fn lemma_lexemes_of_push(t: Seq<TokenView>, x: TokenView)
    ensures
        lexemes_of(t.push(x)) == lexemes_of(t) + x.lexeme,
    decreases t.len(),
{
    if t.len() > 0 {
        assert(t.push(x).drop_first() =~= t.drop_first().push(x));
        lemma_lexemes_of_push(t.drop_first(), x);
        assert(lexemes_of(t.push(x)) =~= lexemes_of(t) + x.lexeme);
    } else {
        assert(t.push(x).drop_first() =~= Seq::<TokenView>::empty());
        assert(t.push(x)[0] == x);
        assert(lexemes_of(t.push(x).drop_first()) == Seq::<char>::empty());
        assert(lexemes_of(t.push(x)) =~= lexemes_of(t) + x.lexeme);
    }
}

proof fn lemma_step_lexeme(src: Seq<char>, start: int, line: int)
    requires
        0 <= start < src.len(),
        src[start] != '\t',
        src[start] != '\0',
    ensures
        scan_step(src, start, line).0 is Some,
        scan_step(src, start, line).0->0.token_type != TokenType::HorizontalRule ==> scan_step(src, start,
            line).0->0.lexeme == src.subrange(start, scan_step(src, start, line).1),
{
    lemma_scan_step(src, start, line);
    if src[start] == ' ' {
        assert(seq![' '] =~= src.subrange(start, start + 1));
    }
}

proof fn lemma_scan_from_lexemes(src: Seq<char>, start: int, line: int, last: int)
    requires
        0 <= start <= src.len(),
        forall|k: int| start <= k < src.len() ==> #[trigger] src[k] != '\t' && src[k] != '\0',
        forall|k: int| 0 <= k < scan_from(src, start, line, last).0.len() ==> (#[trigger] scan_from(src, start,
            line, last).0[k]).token_type != TokenType::HorizontalRule,
    ensures
        lexemes_of(scan_from(src, start, line, last).0) == src.subrange(start, src.len() as int),
    decreases src.len() - start,
{
    if start < src.len() {
        let (t, n, l) = scan_step(src, start, line);
        lemma_scan_step(src, start, line);
        lemma_step_lexeme(src, start, line);
        let (rest, ls, ll) = scan_from(src, n, l, start);
        let tv = t->0;
        let all = seq![tv] + rest;
        assert(scan_from(src, start, line, last).0 == all);
        assert(all[0] == tv);
        assert forall|k: int| 0 <= k < rest.len() implies (#[trigger] rest[k]).token_type
            != TokenType::HorizontalRule by {
            assert(rest[k] == all[k + 1]);
        }
        lemma_scan_from_lexemes(src, n, l, start);
        assert(all.drop_first() =~= rest);
        assert(src.subrange(start, src.len() as int) =~= src.subrange(start, n) + src.subrange(n, src.len() as int));
    } else {
        assert(src.subrange(start, src.len() as int) =~= Seq::<char>::empty());
    }
}

/// Without tabs, NUL characters and horizontal rules, the lexemes of the tokens, one after
/// another, give back the whole source.
pub proof fn lemma_scan_lexemes_rebuild_source(src: Seq<char>)
    requires
        forall|k: int| 0 <= k < src.len() ==> #[trigger] src[k] != '\t' && src[k] != '\0',
        forall|k: int| 0 <= k < scan(src).len() ==> (#[trigger] scan(src)[k]).token_type
            != TokenType::HorizontalRule,
    ensures
        lexemes_of(scan(src)) == src,
{
    let (toks, last, line) = scan_from(src, 0, 1, 0);
    let e = tok(TokenType::Eof, Seq::empty(), line, last);
    assert(scan(src) == toks.push(e));
    assert forall|k: int| 0 <= k < toks.len() implies (#[trigger] toks[k]).token_type
        != TokenType::HorizontalRule by {
        assert(toks[k] == scan(src)[k]);
    }
    lemma_scan_from_lexemes(src, 0, 1, 0);
    lemma_lexemes_of_push(toks, e);
    assert(src.subrange(0, src.len() as int) =~= src);
    assert(lexemes_of(scan(src)) =~= src);
}

/// A character that is neither whitespace nor punctuation, such as a letter or a digit.
pub open spec fn is_word_like(c: char) -> bool {
    !spec_is_whitespace(c) && !spec_is_punctuation(c)
}

/// A delimiter token read from the source at its position: its kind is that of the run of the
/// source's character there, up to the end of its text.
spec fn delimiter_from_source(src: Seq<char>, tv: TokenView) -> bool {
    tv.token_type is Delimiter ==> {
        &&& 0 <= tv.pos < src.len()
        &&& tv.pos + tv.lexeme.len() <= src.len()
        &&& tv.token_type == delimiter_type(src, tv.pos as int, tv.pos + tv.lexeme.len(), src[tv.pos as int])
    }
}

proof fn lemma_step_delimiter(src: Seq<char>, start: int, line: int)
    requires
        0 <= start < src.len() < usize::MAX,
    ensures
        scan_step(src, start, line).0 matches Some(tv) ==> delimiter_from_source(src, tv),
{
    lemma_scan_step(src, start, line);
    lemma_run_end(src, start + 1, src[start]);
}

proof fn lemma_scan_from_delimiters(src: Seq<char>, start: int, line: int, last: int)
    requires
        0 <= start <= src.len(),
        src.len() < usize::MAX,
    ensures
        forall|k: int| 0 <= k < scan_from(src, start, line, last).0.len() ==> delimiter_from_source(src,
            #[trigger] scan_from(src, start, line, last).0[k]),
    decreases src.len() - start,
{
    if start < src.len() {
        let (t, n, l) = scan_step(src, start, line);
        lemma_scan_step(src, start, line);
        lemma_step_delimiter(src, start, line);
        lemma_scan_from_delimiters(src, n, l, start);
        let (rest, ls, ll) = scan_from(src, n, l, start);
        if let Some(tv) = t {
            let all = seq![tv] + rest;
            assert forall|k: int| 0 <= k < all.len() implies delimiter_from_source(src, #[trigger] all[k]) by {
                if k > 0 {
                    assert(all[k] == rest[k - 1]);
                }
            }
        }
    }
}

/// The flanking rule for runs of `*`: a run that comes right after a letter or digit (a
/// character that is neither whitespace nor punctuation) can close emphasis, whatever follows
/// it; and a run that comes right before one can open emphasis, whatever precedes it.
pub proof fn lemma_star_runs_flank(src: Seq<char>)
    requires
        src.len() < usize::MAX,
    ensures
        forall|k: int| 0 <= k < scan(src).len() ==> {
            let tv = #[trigger] scan(src)[k];
            let p = tv.pos as int;
            let e = p + tv.lexeme.len();
            tv.token_type matches TokenType::Delimiter { can_open, can_close, .. } ==> (src[p] == '*' ==> (p > 0
                && is_word_like(src[p - 1]) ==> can_close) && (e < src.len() && is_word_like(src[e]) ==> can_open))
        },
{
    lemma_scan_from_delimiters(src, 0, 1, 0);
    let (toks, last, line) = scan_from(src, 0, 1, 0);
    let all = scan(src);
    assert(all == toks.push(tok(TokenType::Eof, Seq::empty(), line, last)));
    assert forall|k: int| 0 <= k < all.len() implies delimiter_from_source(src, #[trigger] all[k]) by {
        if k < toks.len() {
            assert(all[k] == toks[k]);
        }
    }
}

/// What the source says of the token that starts at `tv.pos`: the kind that its first
/// character calls for, a line break after two spaces, a `~~` pair, a `*` or `_` run, and plain
/// text that runs up to the next character with a meaning in markdown.
pub open spec fn kind_fits_source(src: Seq<char>, tv: TokenView) -> bool {
    let p = tv.pos as int;
    let c = src[p];
    let end = p + tv.lexeme.len();
    &&& c == '#' ==> tv.token_type == TokenType::Hash
    &&& c == '[' ==> tv.token_type == TokenType::OpeningBracket
    &&& c == ']' ==> tv.token_type == TokenType::ClosingBracket
    &&& c == '(' ==> tv.token_type == TokenType::OpeningParenthesis
    &&& c == ')' ==> tv.token_type == TokenType::ClosingParenthesis
    &&& c == '`' ==> tv.token_type == TokenType::Backtick
    &&& (c == ' ' || c == '\t') ==> tv.token_type == TokenType::Whitespace
    &&& c == '\n' ==> tv.token_type == (if p >= 2 && src[p - 1] == ' ' && src[p - 2] == ' ' {
        TokenType::BreakLine
    } else {
        TokenType::NewLine
    })
    &&& c == '~' ==> (tv.token_type == TokenType::Tilde <==> (p + 1 < src.len() && src[p + 1] == '~'))
    &&& c == '~' && !(p + 1 < src.len() && src[p + 1] == '~') ==> tv.token_type == TokenType::Content
    &&& c == '-' && p + 1 < src.len() && src[p + 1] == ' ' ==> (tv.token_type == TokenType::Dash || tv.token_type
        == TokenType::HorizontalRule)
    &&& (c == '*' || c == '_') ==> (tv.token_type is Delimiter || (p == 0 && tv.token_type
        == TokenType::HorizontalRule))
    &&& tv.token_type is Delimiter ==> (c == '*' || c == '_') && end <= src.len() && (forall|k: int|
        p <= k < end ==> #[trigger] src[k] == c) && (end == src.len() || src[end] != c)
    &&& tv.token_type == TokenType::Content ==> end <= src.len() && (forall|k: int| p < k < end ==> {
        let d = #[trigger] src[k];
        d != '\0' && d != '\n' && d != '*' && d != '_' && d != '-' && d != '~' && d != '[' && d != ']'
            && d != '(' && d != ')' && d != '`'
    }) && (end == src.len() || {
        let d = src[end];
        d == '\0' || d == '\n' || d == '*' || d == '_' || d == '-' || d == '~' || d == '[' || d == ']'
            || d == '(' || d == ')' || d == '`'
    })
}

proof fn lemma_step_kind(src: Seq<char>, start: int, line: int)
    requires
        0 <= start < src.len() < usize::MAX,
    ensures
        scan_step(src, start, line).0 matches Some(tv) ==> kind_fits_source(src, tv),
{
    lemma_scan_step(src, start, line);
    lemma_run_end(src, start + 1, src[start]);
    lemma_text_end(src, start + 1);
}

proof fn lemma_scan_from_kinds(src: Seq<char>, start: int, line: int, last: int)
    requires
        0 <= start <= src.len(),
        src.len() < usize::MAX,
    ensures
        forall|k: int| 0 <= k < scan_from(src, start, line, last).0.len() ==> kind_fits_source(src,
            #[trigger] scan_from(src, start, line, last).0[k]),
    decreases src.len() - start,
{
    if start < src.len() {
        let (t, n, l) = scan_step(src, start, line);
        lemma_scan_step(src, start, line);
        lemma_step_kind(src, start, line);
        lemma_scan_from_kinds(src, n, l, start);
        let (rest, ls, ll) = scan_from(src, n, l, start);
        if let Some(tv) = t {
            let all = seq![tv] + rest;
            assert forall|k: int| 0 <= k < all.len() implies kind_fits_source(src, #[trigger] all[k]) by {
                if k > 0 {
                    assert(all[k] == rest[k - 1]);
                }
            }
        }
    }
}

/// Each token but the end of the input has the kind that the source calls for at its position
/// (see `kind_fits_source`).
pub proof fn lemma_scan_kinds_fit_source(src: Seq<char>)
    requires
        src.len() < usize::MAX,
    ensures
        forall|k: int| 0 <= k < scan(src).len() - 1 ==> kind_fits_source(src, #[trigger] scan(src)[k]),
{
    lemma_scan_from_kinds(src, 0, 1, 0);
    let (toks, last, line) = scan_from(src, 0, 1, 0);
    let all = scan(src);
    assert(all == toks.push(tok(TokenType::Eof, Seq::empty(), line, last)));
    assert forall|k: int| 0 <= k < all.len() - 1 implies kind_fits_source(src, #[trigger] all[k]) by {
        assert(all[k] == toks[k]);
    }
}

/// The flanking rules at their edges: a run of `*` or `_` right after whitespace (or at the
/// start) cannot close, and one right before whitespace (or at the end) cannot open; a run of
/// `_` between two letters or digits can do neither; a run of `_` after a letter or digit and
/// before whitespace (or at the end) can close, and one after whitespace (or at the start) and
/// before a letter or digit can open.
pub proof fn lemma_runs_flank_at_edges(src: Seq<char>)
    requires
        src.len() < usize::MAX,
    ensures
        forall|k: int| 0 <= k < scan(src).len() ==> {
            let tv = #[trigger] scan(src)[k];
            let p = tv.pos as int;
            let e = p + tv.lexeme.len();
            let before_ws = p == 0 || spec_is_whitespace(src[p - 1]);
            let after_ws = e >= src.len() || spec_is_whitespace(src[e]);
            let before_word = p > 0 && is_word_like(src[p - 1]);
            let after_word = e < src.len() && is_word_like(src[e]);
            tv.token_type matches TokenType::Delimiter { can_open, can_close, .. } ==> {
                &&& before_ws ==> !can_close
                &&& after_ws ==> !can_open
                &&& src[p] == '_' && before_word && after_word ==> !can_open && !can_close
                &&& src[p] == '_' && before_word && after_ws ==> can_close
                &&& src[p] == '_' && before_ws && after_word ==> can_open
            }
        },
{
    lemma_scan_from_delimiters(src, 0, 1, 0);
    let (toks, last, line) = scan_from(src, 0, 1, 0);
    let all = scan(src);
    assert(all == toks.push(tok(TokenType::Eof, Seq::empty(), line, last)));
    assert forall|k: int| 0 <= k < all.len() implies delimiter_from_source(src, #[trigger] all[k]) by {
        if k < toks.len() {
            assert(all[k] == toks[k]);
        }
    }
}

/// A word of letters, digits and spaces that starts with a letter or digit, at `a..b` and
/// followed by the end or by a character that ends plain text, is read as one content token.
pub proof fn lemma_scan_word(src: Seq<char>, a: int, b: int, line: int)
    requires
        0 <= a < b <= src.len(),
        ('a' <= src[a] <= 'z') || ('A' <= src[a] <= 'Z') || ('0' <= src[a] <= '9'),
        forall|k: int| a <= k < b ==> ('a' <= #[trigger] src[k] <= 'z') || ('A' <= src[k] <= 'Z') || ('0' <= src[k]
            <= '9') || src[k] == ' ',
        b == src.len() || is_text_end(src[b]),
    ensures
        scan_step(src, a, line) == (Some(tok(TokenType::Content, src.subrange(a, b), line, a)), b, line),
{
    lemma_word_end(src, a + 1, b);
}

proof fn lemma_word_end(src: Seq<char>, i: int, b: int)
    requires
        0 <= i <= b <= src.len(),
        forall|k: int| i <= k < b ==> ('a' <= #[trigger] src[k] <= 'z') || ('A' <= src[k] <= 'Z') || ('0' <= src[k]
            <= '9') || src[k] == ' ',
        b == src.len() || is_text_end(src[b]),
    ensures
        text_end(src, i) == b,
    decreases b - i,
{
    if i < b {
        assert(('a' <= src[i] <= 'z') || ('A' <= src[i] <= 'Z') || ('0' <= src[i] <= '9') || src[i] == ' ');
        lemma_word_end(src, i + 1, b);
    }
}

impl ScannerView {
    /// The positions are ordered within the source, and the line count can still grow by one
    /// per remaining character.
    pub open spec fn wf(&self) -> bool {
        &&& 0 <= self.start <= self.current <= self.source.len()
        &&& self.source.len() < usize::MAX
        &&& 1 <= self.line <= self.current + 1
    }
}

/// The token that `add_token` makes for `src[start..current]`.
pub open spec fn made_token(src: Seq<char>, t: TokenType, start: int, current: int, line: int) -> TokenView {
    tok(t, if t == TokenType::Whitespace { seq![' '] } else { src.subrange(start, current) }, line, start)
}

impl Scanner {
    pub fn new(source: &str) -> (s: Self)
        requires
            source@.len() < usize::MAX,
        ensures
            s@.source == source@,
            s@.tokens == Seq::<TokenView>::empty(),
            s@.start == 0,
            s@.current == 0,
            s@.line == 1,
            s@.wf(),
    {
        let chars: Vec<char> = chars_of(source);
        let s = Scanner { source: chars, tokens: Vec::new(), start: 0, current: 0, line: 1 };
        assert(tokens_view(s.tokens@) =~= Seq::<TokenView>::empty());
        s
    }

    fn scan_token(&mut self)
        requires
            old(self)@.wf(),
            old(self).current < old(self).source.len(),
            old(self).start == old(self).current,
        ensures
            final(self)@.wf(),
            final(self).source@ == old(self).source@,
            final(self).start == old(self).start,
            ({
                let (t, n, l) = scan_step(old(self).source@, old(self).start as int, old(self).line as int);
                &&& final(self).current == n
                &&& final(self).line == l
                &&& final(self)@.tokens == match t {
                    Some(tv) => old(self)@.tokens.push(tv),
                    None => old(self)@.tokens,
                }
            }),
    {
        proof {
            lemma_scan_step(self.source@, self.start as int, self.line as int);
        }
        let c = self.advance();
        match c {
            '#' => self.add_token(TokenType::Hash),
            '[' => self.add_token(TokenType::OpeningBracket),
            ']' => self.add_token(TokenType::ClosingBracket),
            '(' => self.add_token(TokenType::OpeningParenthesis),
            ')' => self.add_token(TokenType::ClosingParenthesis),
            '`' => self.add_token(TokenType::Backtick),
            ' ' | '\t' => self.add_token(TokenType::Whitespace),
            '\n' => {
                if self.current > 2 && self.source[self.current - 3] == ' ' && self.source[self.current
                    - 2] == ' ' {
                    self.add_token(TokenType::BreakLine);
                } else {
                    self.add_token(TokenType::NewLine);
                }
                self.line += 1;
            },
            '-' => {
                if self.is_horizontal_rule('-') {
                    self.add_token(TokenType::HorizontalRule);
                    self.skip_line();
                } else if self.matching(' ') {
                    self.add_token(TokenType::Dash);
                } else {
                    self.scan_text();
                }
            },
            '~' => {
                if self.matching('~') {
                    self.add_token(TokenType::Tilde);
                } else {
                    self.scan_text();
                }
            },
            '*' | '_' => {
                if self.current == 1 && self.is_horizontal_rule(c) {
                    self.add_token(TokenType::HorizontalRule);
                    self.skip_line();
                    return;
                }
                let marker = c;
                let mut length: usize = 1;

                while self.peek() == marker
                    invariant
                        self.source@ == old(self).source@,
                        self.tokens@ == old(self).tokens@,
                        self.start == old(self).start,
                        self.line == old(self).line,
                        self.start + 1 <= self.current <= self.source.len(),
                        length == self.current - self.start,
                        marker == '*' || marker == '_',
                        run_end(self.source@, self.start + 1, marker) == run_end(self.source@, self.current as int, marker),
                    decreases self.source.len() - self.current,
                {
                    self.advance();
                    length += 1;
                }
                proof {
                    lemma_run_end(self.source@, self.current as int, marker);
                }
                let prev = if self.start == 0 {
                    None
                } else {
                    Some(self.source[self.start - 1])
                };

                let next = if self.is_at_end() {
                    None
                } else {
                    Some(self.peek())
                };

                let prev_is_whitespace = match prev { None => true, Some(p) => is_whitespace(p) };
                let prev_is_punctuation = match prev { None => false, Some(p) => is_punctuation(p) };

                let next_is_whitespace = match next { None => true, Some(p) => is_whitespace(p) };
                let next_is_punctuation = match next { None => false, Some(p) => is_punctuation(p) };

                let left_flanking = !next_is_whitespace && (!next_is_punctuation || prev_is_whitespace
                    || prev_is_punctuation);

                let right_flanking = !prev_is_whitespace && (!prev_is_punctuation || next_is_whitespace
                    || next_is_punctuation);

                let can_open = if marker == '*' {
                    left_flanking
                } else {
                    left_flanking && !(right_flanking && !prev_is_punctuation)
                };

                let can_close = if marker == '*' {
                    right_flanking
                } else {
                    right_flanking && !(left_flanking && !next_is_punctuation)
                };

                self.add_token(TokenType::Delimiter { length, can_open, can_close });
            },
            _ => {
                if !self.is_content_closing(c) {
                    self.scan_text();
                }
            },
        }
    }

    /// Moves to the end of the current line (the newline itself is left).
    fn skip_line(&mut self)
        requires
            old(self)@.wf(),
        ensures
            final(self)@.wf(),
            final(self).source@ == old(self).source@,
            final(self).tokens@ == old(self).tokens@,
            final(self).start == old(self).start,
            final(self).line == old(self).line,
            final(self).current == line_end(old(self).source@, old(self).current as int),
    {
        proof {
            lemma_line_end(self.source@, self.current as int);
        }
        while !self.is_at_end() && self.peek() != '\n'
            invariant
                self.source@ == old(self).source@,
                self.tokens@ == old(self).tokens@,
                self.start == old(self).start,
                self.line == old(self).line,
                old(self).current <= self.current <= self.source.len(),
                line_end(self.source@, old(self).current as int) == line_end(self.source@, self.current as int),
            decreases self.source.len() - self.current,
        {
            self.advance();
        }
    }

    fn is_horizontal_rule(&self, marker: char) -> (r: bool)
        requires
            self.current <= self.source.len() < usize::MAX,
        ensures
            r == rule_line(self.source@, self.current as int, marker),
    {
        let ghost src = self.source@;
        let ghost from = self.current as int;
        proof {
            lemma_line_end(src, from);
        }
        let ghost e = line_end(src, from);
        let mut count: usize = 1;
        let mut i = self.current;
        while i < self.source.len()
            invariant_except_break
                from <= i <= e,
                forall|k: int| from <= k < i ==> src[k] == marker || src[k] == ' ',
                count == 1 + count_of(src.subrange(from, i as int), marker),
            invariant
                src == self.source@,
                from == self.current,
                e == line_end(src, from),
                from <= e <= src.len(),
                forall|k: int| from <= k < e ==> #[trigger] src[k] != '\n',
                e < src.len() ==> src[e] == '\n',
                src.len() < usize::MAX,
                count <= i + 1,
            ensures
                i == e,
                forall|k: int| from <= k < i ==> src[k] == marker || src[k] == ' ',
                count == 1 + count_of(src.subrange(from, i as int), marker),
            decreases self.source.len() - i,
        {
            let ch = self.source[i];
            if ch == '\n' {
                break;
            }
            assert(src.subrange(from, i + 1).drop_last() =~= src.subrange(from, i as int));
            if ch == marker {
                count += 1;
            } else if ch != ' ' {
                return false;
            }
            i += 1;
        }
        count >= 3
    }

    fn scan_text(&mut self)
        requires
            old(self)@.wf(),
        ensures
            final(self)@.wf(),
            final(self).source@ == old(self).source@,
            final(self).start == old(self).start,
            final(self).line == old(self).line,
            final(self).current == text_end(old(self).source@, old(self).current as int),
            final(self)@.tokens == old(self)@.tokens.push(made_token(old(self).source@, TokenType::Content,
                old(self).start as int, final(self).current as int, old(self).line as int)),
    {
        proof {
            lemma_text_end(self.source@, self.current as int);
        }
        while !self.is_at_end()
            invariant
                self.source@ == old(self).source@,
                self.tokens@ == old(self).tokens@,
                self.start == old(self).start,
                self.line == old(self).line,
                old(self).current <= self.current <= self.source.len(),
                text_end(self.source@, old(self).current as int) == text_end(self.source@, self.current as int),
            ensures
                text_end(self.source@, old(self).current as int) == self.current,
            decreases self.source.len() - self.current,
        {
            let c = self.peek();

            if self.is_content_closing(c) {
                assert(text_end(self.source@, self.current as int) == self.current);
                break;
            }
            assert(text_end(self.source@, self.current as int) == text_end(self.source@, self.current + 1));
            self.advance();
        }
        self.add_token(TokenType::Content);
    }

    fn is_content_closing(&mut self, c: char) -> (r: bool)
        requires
            old(self).current <= old(self).source.len(),
        ensures
            final(self).source@ == old(self).source@,
            final(self).tokens@ == old(self).tokens@,
            final(self).start == old(self).start,
            final(self).line == old(self).line,
            ({
                let m = c == '#' && old(self).current < old(self).source.len()
                    && old(self).source@[old(self).current as int] == ' ';
                &&& r == (is_text_end(c) || m)
                &&& final(self).current == old(self).current + if m { 1int } else { 0int }
            }),
    {
        match c {
            '\0' | '\n' | '*' | '_' | '-' | '~' | '[' | ']' | '(' | ')' | '`' => true,
            '#' => self.matching(' '),
            _ => false,
        }
    }

    fn peek(&self) -> (c: char)
        ensures
            c == if self.current < self.source.len() { self.source@[self.current as int] } else { '\0' },
    {
        if self.is_at_end() {
            return '\0';
        }
        self.source[self.current]
    }

    /// Scans the rest of the source and returns every token produced so far, the last being the
    /// end of the input.
    pub fn scan_tokens(&mut self) -> (r: Vec<Token>)
        requires
            old(self)@.wf(),
        ensures
            final(self)@.wf(),
            final(self)@.source == old(self)@.source,
            final(self)@.current == old(self)@.source.len(),
            ({
                let (toks, last, line) = scan_from(old(self)@.source, old(self)@.current, old(self)@.line,
                    old(self)@.start);
                final(self)@.tokens == old(self)@.tokens + toks.push(tok(TokenType::Eof, Seq::empty(), line, last))
            }),
            tokens_view(r@) == final(self)@.tokens,
    {
        let ghost src = self.source@;
        let ghost old_tokens = tokens_view(self.tokens@);
        let ghost goal = scan_from(src, self.current as int, self.line as int, self.start as int);
        while !self.is_at_end()
            invariant
                self@.wf(),
                self.source@ == src,
                ({
                    let (rest, last, line) = scan_from(src, self.current as int, self.line as int,
                        self.start as int);
                    &&& tokens_view(self.tokens@) + rest == old_tokens + goal.0
                    &&& last == goal.1
                    &&& line == goal.2
                }),
            decreases self.source.len() - self.current,
        {
            self.start = self.current;
            let ghost before = tokens_view(self.tokens@);
            let ghost step = scan_step(src, self.start as int, self.line as int);
            proof {
                lemma_scan_step(src, self.start as int, self.line as int);
            }
            self.scan_token();
            proof {
                let (rest, _, _) = scan_from(src, self.current as int, self.line as int, self.start as int);
                match step.0 {
                    Some(tv) => {
                        assert(before + (seq![tv] + rest) =~= before.push(tv) + rest);
                    },
                    None => {},
                }
            }
        }
        assert(tokens_view(self.tokens@) == old_tokens + goal.0);
        let eof = Token::new(TokenType::Eof, String::new(), self.line, self.start);
        let ghost mid = self.tokens@;
        self.tokens.push(eof);
        proof {
            assert(tokens_view(self.tokens@) =~= tokens_view(mid).push(eof@));
            assert(tokens_view(self.tokens@) =~= old_tokens + goal.0.push(tok(TokenType::Eof, Seq::empty(), goal.2, goal.1)));
        }
        duplicate_tokens(&self.tokens)
    }

    fn is_at_end(&self) -> (r: bool)
        ensures
            r == (self.current >= self.source.len()),
    {
        self.current >= self.source.len()
    }

    fn advance(&mut self) -> (c: char)
        requires
            old(self).current < old(self).source.len(),
        ensures
            c == old(self).source@[old(self).current as int],
            final(self).current == old(self).current + 1,
            final(self).source@ == old(self).source@,
            final(self).tokens@ == old(self).tokens@,
            final(self).start == old(self).start,
            final(self).line == old(self).line,
    {
        let c = self.peek();
        self.current += 1;
        c
    }

    fn add_token(&mut self, token_type: TokenType)
        requires
            old(self).start <= old(self).current <= old(self).source.len(),
        ensures
            final(self).source@ == old(self).source@,
            final(self).current == old(self).current,
            final(self).start == old(self).start,
            final(self).line == old(self).line,
            final(self)@.tokens == old(self)@.tokens.push(made_token(old(self).source@, token_type,
                old(self).start as int, old(self).current as int, old(self).line as int)),
    {
        let text = string_of_range(&self.source, self.start, self.current);

        let final_text = if token_type == TokenType::Whitespace {
            let mut w = String::new();
            push_char(&mut w, ' ');
            w
        } else {
            text
        };
        let ghost old_tokens = self.tokens@;
        self.tokens.push(Token::new(token_type, final_text, self.line, self.start));
        proof {
            assert(tokens_view(self.tokens@) =~= tokens_view(old_tokens).push(made_token(self.source@, token_type,
                self.start as int, self.current as int, self.line as int)));
        }
    }

    fn matching(&mut self, expected: char) -> (r: bool)
        requires
            old(self).current <= old(self).source.len(),
        ensures
            r == (old(self).current < old(self).source.len() && old(self).source@[old(self).current as int] == expected),
            final(self).current == old(self).current + if r { 1int } else { 0int },
            final(self).source@ == old(self).source@,
            final(self).tokens@ == old(self).tokens@,
            final(self).start == old(self).start,
            final(self).line == old(self).line,
    {
        if self.is_at_end() {
            return false;
        }
        if self.source[self.current] != expected {
            return false;
        }
        self.current += 1;
        true
    }
}

} // verus!
