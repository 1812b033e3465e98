//! A simpler tokenizer: single and double stars and underscores are marked as such, without
//! delimiter runs, and whitespace runs become one token.
use vstd::prelude::*;
use crate::lexer::scanner::{ScannerView, made_token, tok, newlines_before, lemma_count_extend, lemma_count_bound};
use crate::lexer::token::{Token, TokenType, TokenView, tokens_view, duplicate_tokens};
use crate::text::{chars_of, push_char, string_of_range};

verus! {

pub struct Lexer {
    source: Vec<char>,
    tokens: Vec<Token>,
    start: usize,
    current: usize,
    line: usize,
}

impl View for Lexer {
    type V = ScannerView;

    closed spec fn view(&self) -> ScannerView {
        ScannerView {
            source: self.source@,
            tokens: tokens_view(self.tokens@),
            start: self.start as int,
            current: self.current as int,
            line: self.line as int,
        }
    }
}

/// Characters that end a run of plain text for this tokenizer.
pub open spec fn ends_text(c: char) -> bool {
    c == '\0' || c == '\n' || c == '*' || c == '_' || c == '-' || c == '~' || c == '[' || c == ']'
        || c == '(' || c == ')'
}

/// The first index at or after `i` that ends a run of text, or the end of `src`.
pub open spec fn plain_end(src: Seq<char>, i: int) -> int
    decreases src.len() - i,
{
    if i >= src.len() || i < 0 {
        src.len() as int
    } else if ends_text(src[i]) {
        i
    } else {
        plain_end(src, i + 1)
    }
}

/// The first index at or after `i` that holds neither a space nor a tab, or the end of `src`.
pub open spec fn blank_end(src: Seq<char>, i: int) -> int
    decreases src.len() - i,
{
    if i >= src.len() || i < 0 {
        src.len() as int
    } else if src[i] != ' ' && src[i] != '\t' {
        i
    } else {
        blank_end(src, i + 1)
    }
}

pub proof fn lemma_plain_end(src: Seq<char>, i: int)
    requires
        0 <= i <= src.len(),
    ensures
        i <= plain_end(src, i) <= src.len(),
        plain_end(src, i) < src.len() ==> ends_text(src[plain_end(src, i)]),
        forall|k: int| i <= k < plain_end(src, i) ==> !ends_text(#[trigger] src[k]),
    decreases src.len() - i,
{
    if i < src.len() && !ends_text(src[i]) {
        lemma_plain_end(src, i + 1);
    }
}

pub proof fn lemma_blank_end(src: Seq<char>, i: int)
    requires
        0 <= i <= src.len(),
    ensures
        i <= blank_end(src, i) <= src.len(),
        blank_end(src, i) < src.len() ==> src[blank_end(src, i)] != ' ' && src[blank_end(src, i)] != '\t',
        forall|k: int| i <= k < blank_end(src, i) ==> #[trigger] src[k] == ' ' || src[k] == '\t',
    decreases src.len() - i,
{
    if i < src.len() && (src[i] == ' ' || src[i] == '\t') {
        lemma_blank_end(src, i + 1);
    }
}

/// One step of this tokenizer at `start`: the token it emits, if any, where the next step
/// starts, and the line number after it.
pub open spec fn lex_step(src: Seq<char>, start: int, line: int) -> (Option<TokenView>, int, int) {
    let c = src[start];
    let n = start + 1;
    let one = |k: TokenType| (Some(tok(k, src.subrange(start, n), line, start)), n, line);
    let text = (Some(tok(TokenType::Content, src.subrange(start, plain_end(src, n)), line, start)), plain_end(src, n), line);
    if c == '#' {
        one(TokenType::Hash)
    } else if c == '_' {
        one(TokenType::Underscore)
    } else if c == '[' {
        one(TokenType::OpeningBracket)
    } else if c == ']' {
        one(TokenType::ClosingBracket)
    } else if c == '(' {
        one(TokenType::OpeningParenthesis)
    } else if c == ')' {
        one(TokenType::ClosingParenthesis)
    } else if c == ' ' || c == '\t' {
        (Some(tok(TokenType::Whitespace, seq![' '], line, start)), blank_end(src, n), line)
    } else if c == '\n' {
        (Some(tok(TokenType::NewLine, src.subrange(start, n), line, start)), n, line + 1)
    } else if c == '*' {
        if n < src.len() && src[n] == '*' {
            (Some(tok(TokenType::DoubleStar, src.subrange(start, n + 1), line, start)), n + 1, line)
        } else {
            one(TokenType::Star)
        }
    } else if c == '-' {
        if n < src.len() && src[n] == ' ' {
            (Some(tok(TokenType::Dash, src.subrange(start, n + 1), line, start)), n + 1, line)
        } else {
            text
        }
    } else if c == '~' {
        if n < src.len() && src[n] == '~' {
            (Some(tok(TokenType::Tilde, src.subrange(start, n + 1), line, start)), n + 1, line)
        } else {
            text
        }
    } else if c == '\0' {
        (None, n, line)
    } else {
        text
    }
}

/// Tokenizing from `start` to the end of `src`: the tokens emitted, where the last step started
/// (`last` if none is taken), and the final line number.
pub open spec fn lex_from(src: Seq<char>, start: int, line: int, last: int) -> (Seq<TokenView>, int, int)
    decreases src.len() - start,
{
    if start >= src.len() || start < 0 {
        (Seq::empty(), last, line)
    } else {
        let (t, n, l) = lex_step(src, start, line);
        if n <= start || n > src.len() {
            (Seq::empty(), last, line)
        } else {
            let (rest, ls, ll) = lex_from(src, n, l, start);
            (match t {
                Some(tv) => seq![tv] + rest,
                None => rest,
            }, ls, ll)
        }
    }
}

/// Every step moves forward and stays within the source.
pub proof fn lemma_lex_step(src: Seq<char>, start: int, line: int)
    requires
        0 <= start < src.len(),
    ensures
        start < lex_step(src, start, line).1 <= src.len(),
        line <= lex_step(src, start, line).2 <= line + 1,
{
    lemma_plain_end(src, start + 1);
    lemma_blank_end(src, start + 1);
}

/// The tokens of `src`, ending with an end-of-file token.
pub open spec fn lex(src: Seq<char>) -> Seq<TokenView> {
    let (toks, last, line) = lex_from(src, 0, 1, 0);
    toks.push(tok(TokenType::Eof, Seq::empty(), line, last))
}

/// The kinds this tokenizer gives to the tokens it reads from the source.
pub open spec fn lexed_kind(k: TokenType) -> bool {
    k == TokenType::Hash || k == TokenType::Underscore || k == TokenType::OpeningBracket
        || k == TokenType::ClosingBracket || k == TokenType::OpeningParenthesis
        || k == TokenType::ClosingParenthesis || k == TokenType::Whitespace || k == TokenType::NewLine
        || k == TokenType::DoubleStar || k == TokenType::Star || k == TokenType::Dash
        || k == TokenType::Tilde || k == TokenType::Content
}

#[verifier::rlimit(40)]
proof fn lemma_lex_step_shape(src: Seq<char>, start: int, line: int)
    requires
        0 <= start < src.len(),
    ensures
        ({
            let (t, n, l) = lex_step(src, start, line);
            &&& src[start] != '\0' ==> t is Some
            &&& t matches Some(tv) ==> lexed_kind(tv.token_type) && (tv.token_type == TokenType::Whitespace
                ==> tv.lexeme == seq![' '] && (n < src.len() ==> src[n] != ' ' && src[n] != '\t'))
            &&& (src[start] != ' ' && src[start] != '\t' && src[start] != '\0') ==> t->0.token_type
                != TokenType::Whitespace
            &&& newlines_before(src, n) + line == newlines_before(src, start) + l
        }),
{
    lemma_lex_step(src, start, line);
    lemma_plain_end(src, start + 1);
    lemma_blank_end(src, start + 1);
    let (t, n, l) = lex_step(src, start, line);
    assert(src.subrange(0, start + 1).drop_last() =~= src.subrange(0, start));
    lemma_count_extend(src, start + 1, n);
}

#[verifier::rlimit(40)]
proof fn lemma_lex_from_shape(src: Seq<char>, start: int, line: int, last: int)
    requires
        0 <= start <= src.len(),
        line == 1 + newlines_before(src, start),
        forall|k: int| start <= k < src.len() ==> #[trigger] src[k] != '\0',
    ensures
        ({
            let r = lex_from(src, start, line, last).0;
            &&& lexed_shape(r)
            &&& start < src.len() && src[start] != ' ' && src[start] != '\t' ==> r.len() > 0 && r[0].token_type
                != TokenType::Whitespace
            &&& lex_from(src, start, line, last).2 == 1 + newlines_before(src, src.len() as int)
        }),
    decreases src.len() - start,
{
    if start < src.len() {
        let (t, n, l) = lex_step(src, start, line);
        lemma_lex_step(src, start, line);
        lemma_lex_step_shape(src, start, line);
        lemma_lex_from_shape(src, n, l, start);
        let (rest, ls, ll) = lex_from(src, n, l, start);
        let tv = t->0;
        let all = seq![tv] + rest;
        assert(lex_from(src, start, line, last).0 == all);
        assert(all[0] == tv);
        assert forall|k: int| 0 <= k < all.len() implies lexed_kind((#[trigger] all[k]).token_type) by {
            if k > 0 {
                assert(all[k] == rest[k - 1]);
            }
        }
        assert forall|k: int| 0 <= k < all.len() && (#[trigger] all[k]).token_type == TokenType::Whitespace
            implies all[k].lexeme == seq![' '] by {
            if k > 0 {
                assert(all[k] == rest[k - 1]);
            }
        }
        assert forall|k: int| 0 <= k < all.len() - 1 && (#[trigger] all[k]).token_type == TokenType::Whitespace
            implies all[k + 1].token_type != TokenType::Whitespace by {
            assert(all[k + 1] == rest[k]);
            if k > 0 {
                assert(all[k] == rest[k - 1]);
            }
        }
    } else {
        assert(src.subrange(0, start) =~= src.subrange(0, src.len() as int));
    }
}

/// The shape of a token sequence read by this tokenizer.
pub open spec fn lexed_shape(r: Seq<TokenView>) -> bool {
    &&& forall|k: int| 0 <= k < r.len() ==> lexed_kind((#[trigger] r[k]).token_type)
    &&& forall|k: int| 0 <= k < r.len() && (#[trigger] r[k]).token_type == TokenType::Whitespace
        ==> r[k].lexeme == seq![' ']
    &&& forall|k: int| 0 <= k < r.len() - 1 && (#[trigger] r[k]).token_type == TokenType::Whitespace
        ==> r[k + 1].token_type != TokenType::Whitespace
}

/// The tokens of a source without NUL characters: the last one marks the end of the input and
/// carries the line count (one more than the number of newlines); the others are of the kinds
/// this tokenizer reads (never the end of the input, a delimiter run or a line break), each
/// whitespace token reads as a single space, and no two whitespace tokens follow one another.
pub proof fn lemma_lex_shape(src: Seq<char>)
    requires
        src.len() < usize::MAX,
        forall|k: int| 0 <= k < src.len() ==> #[trigger] src[k] != '\0',
    ensures
        lex(src).len() >= 1,
        lex(src).last().token_type == TokenType::Eof,
        lex(src).last().lexeme == Seq::<char>::empty(),
        lex(src).last().line == 1 + newlines_before(src, src.len() as int),
        lexed_shape(lex(src).drop_last()),
{
    assert(src.subrange(0, 0) =~= Seq::<char>::empty());
    lemma_lex_from_shape(src, 0, 1, 0);
    let (toks, last, line) = lex_from(src, 0, 1, 0);
    let all = lex(src);
    assert(all == toks.push(tok(TokenType::Eof, Seq::empty(), line, last)));
    assert(all.drop_last() =~= toks);
    lemma_count_bound(src.subrange(0, src.len() as int), '\n');
}

/// An ASCII letter or digit.
pub open spec fn is_alphanumeric(c: char) -> bool {
    ('a' <= c && c <= 'z') || ('A' <= c && c <= 'Z') || ('0' <= c && c <= '9')
}

proof fn lemma_words_plain_end(src: Seq<char>, i: int)
    requires
        0 <= i <= src.len(),
        forall|k: int| 0 <= k < src.len() ==> is_alphanumeric(#[trigger] src[k]) || src[k] == ' ' || src[k] == '\t',
    ensures
        plain_end(src, i) == src.len(),
    decreases src.len() - i,
{
    if i < src.len() {
        assert(is_alphanumeric(src[i]) || src[i] == ' ' || src[i] == '\t');
        lemma_words_plain_end(src, i + 1);
    }
}

/// Plain text runs on through spaces and tabs: a source of letters, digits, spaces and tabs
/// that starts with a letter or digit is one content token holding the whole source, followed
/// by the end of the input.
pub proof fn lemma_words_are_one_content_token(src: Seq<char>)
    requires
        src.len() > 0,
        is_alphanumeric(src[0]),
        forall|k: int| 0 <= k < src.len() ==> is_alphanumeric(#[trigger] src[k]) || src[k] == ' ' || src[k] == '\t',
    ensures
        lex(src) == seq![tok(TokenType::Content, src, 1, 0), tok(TokenType::Eof, Seq::<char>::empty(), 1, 0)],
{
    lemma_words_plain_end(src, 1);
    assert(src.subrange(0, src.len() as int) =~= src);
    assert(lex_step(src, 0, 1) == (Some(tok(TokenType::Content, src, 1, 0)), src.len() as int, 1int));
    assert(lex_from(src, src.len() as int, 1, 0) == (Seq::<TokenView>::empty(), 0int, 1int));
    assert(lex_from(src, 0, 1, 0).0 =~= seq![tok(TokenType::Content, src, 1, 0)]);
    assert(lex(src) =~= seq![tok(TokenType::Content, src, 1, 0), tok(TokenType::Eof, Seq::<char>::empty(), 1, 0)]);
}

/// What the source says of the token this tokenizer reads at `tv.pos`: the kind that its first
/// character calls for, and plain text that runs up to the next character with a meaning here.
pub open spec fn lexed_kind_fits_source(src: Seq<char>, tv: TokenView) -> bool {
    let p = tv.pos as int;
    let c = src[p];
    let end = p + tv.lexeme.len();
    &&& 0 <= p < src.len()
    &&& c == '#' ==> tv.token_type == TokenType::Hash
    &&& c == '_' ==> tv.token_type == TokenType::Underscore
    &&& c == '[' ==> tv.token_type == TokenType::OpeningBracket
    &&& c == ']' ==> tv.token_type == TokenType::ClosingBracket
    &&& c == '(' ==> tv.token_type == TokenType::OpeningParenthesis
    &&& c == ')' ==> tv.token_type == TokenType::ClosingParenthesis
    &&& (c == ' ' || c == '\t') ==> tv.token_type == TokenType::Whitespace
    &&& c == '\n' ==> tv.token_type == TokenType::NewLine
    &&& c == '*' ==> tv.token_type == (if p + 1 < src.len() && src[p + 1] == '*' {
        TokenType::DoubleStar
    } else {
        TokenType::Star
    })
    &&& c == '~' ==> tv.token_type == (if p + 1 < src.len() && src[p + 1] == '~' {
        TokenType::Tilde
    } else {
        TokenType::Content
    })
    &&& c == '-' ==> tv.token_type == (if p + 1 < src.len() && src[p + 1] == ' ' {
        TokenType::Dash
    } else {
        TokenType::Content
    })
    &&& tv.token_type == TokenType::Content ==> end <= src.len() && tv.lexeme == src.subrange(p, end) && (forall|k: int|
        p < k < end ==> {
        let d = #[trigger] src[k];
        d != '\0' && d != '\n' && d != '*' && d != '_' && d != '-' && d != '~' && d != '[' && d != ']'
            && d != '(' && d != ')'
    }) && (end == src.len() || {
        let d = src[end];
        d == '\0' || d == '\n' || d == '*' || d == '_' || d == '-' || d == '~' || d == '[' || d == ']'
            || d == '(' || d == ')'
    })
}

proof fn lemma_lex_step_kind(src: Seq<char>, start: int, line: int)
    requires
        0 <= start < src.len() < usize::MAX,
    ensures
        lex_step(src, start, line).0 matches Some(tv) ==> lexed_kind_fits_source(src, tv),
{
    lemma_lex_step(src, start, line);
    lemma_plain_end(src, start + 1);
}

proof fn lemma_lex_from_kinds(src: Seq<char>, start: int, line: int, last: int)
    requires
        0 <= start <= src.len(),
        src.len() < usize::MAX,
    ensures
        forall|k: int| 0 <= k < lex_from(src, start, line, last).0.len() ==> lexed_kind_fits_source(src,
            #[trigger] lex_from(src, start, line, last).0[k]),
    decreases src.len() - start,
{
    if start < src.len() {
        let (t, n, l) = lex_step(src, start, line);
        lemma_lex_step(src, start, line);
        lemma_lex_step_kind(src, start, line);
        lemma_lex_from_kinds(src, n, l, start);
        let (rest, ls, ll) = lex_from(src, n, l, start);
        if let Some(tv) = t {
            let all = seq![tv] + rest;
            assert forall|k: int| 0 <= k < all.len() implies lexed_kind_fits_source(src, #[trigger] all[k]) by {
                if k > 0 {
                    assert(all[k] == rest[k - 1]);
                }
            }
        }
    }
}

/// Each token of this tokenizer but the end of the input has the kind that the source calls
/// for at its position (see `lexed_kind_fits_source`).
pub proof fn lemma_lex_kinds_fit_source(src: Seq<char>)
    requires
        src.len() < usize::MAX,
    ensures
        forall|k: int| 0 <= k < lex(src).len() - 1 ==> lexed_kind_fits_source(src, #[trigger] lex(src)[k]),
{
    lemma_lex_from_kinds(src, 0, 1, 0);
    let (toks, last, line) = lex_from(src, 0, 1, 0);
    let all = lex(src);
    assert(all == toks.push(tok(TokenType::Eof, Seq::empty(), line, last)));
    assert forall|k: int| 0 <= k < all.len() - 1 implies lexed_kind_fits_source(src, #[trigger] all[k]) by {
        assert(all[k] == toks[k]);
    }
}

impl Lexer {
    pub fn new(source: String) -> (s: Self)
        requires
            source@.len() < usize::MAX,
        ensures
            s@.source == source@,
            s@.tokens == Seq::<TokenView>::empty(),
            s@.start == 0,
            s@.current == 0,
            s@.line == 1,
            s@.wf(),
    {
        let chars: Vec<char> = chars_of(source.as_str());
        let s = Lexer { source: chars, tokens: Vec::new(), start: 0, current: 0, line: 1 };
        assert(tokens_view(s.tokens@) =~= Seq::<TokenView>::empty());
        s
    }

    fn scan_token(&mut self)
        requires
            old(self)@.wf(),
            old(self).current < old(self).source.len(),
            old(self).start == old(self).current,
        ensures
            final(self)@.wf(),
            final(self).source@ == old(self).source@,
            final(self).start == old(self).start,
            ({
                let (t, n, l) = lex_step(old(self).source@, old(self).start as int, old(self).line as int);
                &&& final(self).current == n
                &&& final(self).line == l
                &&& final(self)@.tokens == match t {
                    Some(tv) => old(self)@.tokens.push(tv),
                    None => old(self)@.tokens,
                }
            }),
    {
        proof {
            lemma_lex_step(self.source@, self.start as int, self.line as int);
        }
        let c = self.advance();
        match c {
            '#' => self.add_token(TokenType::Hash),
            '_' => self.add_token(TokenType::Underscore),
            '[' => self.add_token(TokenType::OpeningBracket),
            ']' => self.add_token(TokenType::ClosingBracket),
            '(' => self.add_token(TokenType::OpeningParenthesis),
            ')' => self.add_token(TokenType::ClosingParenthesis),
            ' ' | '\t' => {
                self.scan_whitespace();
            },
            '\n' => {
                self.add_token(TokenType::NewLine);
                self.line += 1;
            },
            '*' => {
                if self.matching('*') {
                    self.add_token(TokenType::DoubleStar);
                } else {
                    self.add_token(TokenType::Star)
                }
            },
            '-' => {
                if self.matching(' ') {
                    self.add_token(TokenType::Dash)
                } else {
                    self.scan_text();
                }
            },
            '~' => {
                if self.matching('~') {
                    self.add_token(TokenType::Tilde)
                } else {
                    self.scan_text();
                }
            },
            _ => {
                if !self.is_content_closing(c) {
                    self.scan_text();
                }
            },
        }
    }

    fn scan_whitespace(&mut self)
        requires
            old(self)@.wf(),
        ensures
            final(self)@.wf(),
            final(self).source@ == old(self).source@,
            final(self).start == old(self).start,
            final(self).line == old(self).line,
            final(self).current == blank_end(old(self).source@, old(self).current as int),
            final(self)@.tokens == old(self)@.tokens.push(made_token(old(self).source@, TokenType::Whitespace,
                old(self).start as int, final(self).current as int, old(self).line as int)),
    {
        proof {
            lemma_blank_end(self.source@, self.current as int);
        }
        while (self.peak() == ' ' || self.peak() == '\t') && !self.is_at_end()
            invariant
                self.source@ == old(self).source@,
                self.tokens@ == old(self).tokens@,
                self.start == old(self).start,
                self.line == old(self).line,
                old(self).current <= self.current <= self.source.len(),
                blank_end(self.source@, old(self).current as int) == blank_end(self.source@, self.current as int),
            decreases self.source.len() - self.current,
        {
            self.advance();
        }
        self.add_token(TokenType::Whitespace);
    }

    fn scan_text(&mut self)
        requires
            old(self)@.wf(),
        ensures
            final(self)@.wf(),
            final(self).source@ == old(self).source@,
            final(self).start == old(self).start,
            final(self).line == old(self).line,
            final(self).current == plain_end(old(self).source@, old(self).current as int),
            final(self)@.tokens == old(self)@.tokens.push(made_token(old(self).source@, TokenType::Content,
                old(self).start as int, final(self).current as int, old(self).line as int)),
    {
        proof {
            lemma_plain_end(self.source@, self.current as int);
        }
        while !self.is_at_end()
            invariant
                self.source@ == old(self).source@,
                self.tokens@ == old(self).tokens@,
                self.start == old(self).start,
                self.line == old(self).line,
                old(self).current <= self.current <= self.source.len(),
                plain_end(self.source@, old(self).current as int) == plain_end(self.source@, self.current as int),
            ensures
                plain_end(self.source@, old(self).current as int) == self.current,
            decreases self.source.len() - self.current,
        {
            let c = self.peak();

            if self.is_content_closing(c) {
                assert(plain_end(self.source@, self.current as int) == self.current);
                break;
            }
            assert(plain_end(self.source@, self.current as int) == plain_end(self.source@, self.current + 1));
            self.advance();
        }
        self.add_token(TokenType::Content);
    }

    fn is_content_closing(&mut self, c: char) -> (r: bool)
        requires
            old(self).current <= old(self).source.len(),
        ensures
            final(self).source@ == old(self).source@,
            final(self).tokens@ == old(self).tokens@,
            final(self).start == old(self).start,
            final(self).line == old(self).line,
            ({
                let m = c == '#' && old(self).current < old(self).source.len()
                    && old(self).source@[old(self).current as int] == ' ';
                &&& r == (ends_text(c) || m)
                &&& final(self).current == old(self).current + if m { 1int } else { 0int }
            }),
    {
        match c {
            '\0' | '\n' | '*' | '_' | '-' | '~' | '[' | ']' | '(' | ')' => true,
            '#' => self.matching(' '),
            _ => false,
        }
    }

    fn peak(&self) -> (c: char)
        ensures
            c == if self.current < self.source.len() { self.source@[self.current as int] } else { '\0' },
    {
        if self.is_at_end() {
            return '\0';
        }
        self.source[self.current]
    }

    /// Tokenizes the rest of the source and returns every token produced so far, the last being
    /// the end of the input.
    pub fn scan_tokens(&mut self) -> (r: Vec<Token>)
        requires
            old(self)@.wf(),
        ensures
            final(self)@.wf(),
            final(self)@.source == old(self)@.source,
            final(self)@.current == old(self)@.source.len(),
            ({
                let (toks, last, line) = lex_from(old(self)@.source, old(self)@.current, old(self)@.line,
                    old(self)@.start);
                final(self)@.tokens == old(self)@.tokens + toks.push(tok(TokenType::Eof, Seq::empty(), line, last))
            }),
            tokens_view(r@) == final(self)@.tokens,
    {
        let ghost src = self.source@;
        let ghost old_tokens = tokens_view(self.tokens@);
        let ghost goal = lex_from(src, self.current as int, self.line as int, self.start as int);
        while !self.is_at_end()
            invariant
                self@.wf(),
                self.source@ == src,
                ({
                    let (rest, last, line) = lex_from(src, self.current as int, self.line as int,
                        self.start as int);
                    &&& tokens_view(self.tokens@) + rest == old_tokens + goal.0
                    &&& last == goal.1
                    &&& line == goal.2
                }),
            decreases self.source.len() - self.current,
        {
            self.start = self.current;
            let ghost before = tokens_view(self.tokens@);
            let ghost step = lex_step(src, self.start as int, self.line as int);
            proof {
                lemma_lex_step(src, self.start as int, self.line as int);
            }
            self.scan_token();
            proof {
                let (rest, _, _) = lex_from(src, self.current as int, self.line as int, self.start as int);
                match step.0 {
                    Some(tv) => {
                        assert(before + (seq![tv] + rest) =~= before.push(tv) + rest);
                    },
                    None => {},
                }
            }
        }
        assert(tokens_view(self.tokens@) == old_tokens + goal.0);
        let eof = Token::new(TokenType::Eof, String::new(), self.line, self.start);
        let ghost mid = self.tokens@;
        self.tokens.push(eof);
        proof {
            assert(tokens_view(self.tokens@) =~= tokens_view(mid).push(eof@));
            assert(tokens_view(self.tokens@) =~= old_tokens + goal.0.push(tok(TokenType::Eof, Seq::empty(), goal.2, goal.1)));
        }
        duplicate_tokens(&self.tokens)
    }

    fn is_at_end(&self) -> (r: bool)
        ensures
            r == (self.current >= self.source.len()),
    {
        self.current >= self.source.len()
    }

    fn advance(&mut self) -> (c: char)
        requires
            old(self).current < old(self).source.len(),
        ensures
            c == old(self).source@[old(self).current as int],
            final(self).current == old(self).current + 1,
            final(self).source@ == old(self).source@,
            final(self).tokens@ == old(self).tokens@,
            final(self).start == old(self).start,
            final(self).line == old(self).line,
    {
        let c = self.peak();
        self.current += 1;
        c
    }

    fn add_token(&mut self, token_type: TokenType)
        requires
            old(self).start <= old(self).current <= old(self).source.len(),
        ensures
            final(self).source@ == old(self).source@,
            final(self).current == old(self).current,
            final(self).start == old(self).start,
            final(self).line == old(self).line,
            final(self)@.tokens == old(self)@.tokens.push(made_token(old(self).source@, token_type,
                old(self).start as int, old(self).current as int, old(self).line as int)),
    {
        let text = string_of_range(&self.source, self.start, self.current);

        let final_text = if token_type == TokenType::Whitespace {
            let mut w = String::new();
            push_char(&mut w, ' ');
            w
        } else {
            text
        };
        let ghost old_tokens = self.tokens@;
        self.tokens.push(Token::new(token_type, final_text, self.line, self.start));
        proof {
            assert(tokens_view(self.tokens@) =~= tokens_view(old_tokens).push(made_token(self.source@, token_type,
                self.start as int, self.current as int, self.line as int)));
        }
    }

    fn matching(&mut self, expected: char) -> (r: bool)
        requires
            old(self).current <= old(self).source.len(),
        ensures
            r == (old(self).current < old(self).source.len() && old(self).source@[old(self).current as int] == expected),
            final(self).current == old(self).current + if r { 1int } else { 0int },
            final(self).source@ == old(self).source@,
            final(self).tokens@ == old(self).tokens@,
            final(self).start == old(self).start,
            final(self).line == old(self).line,
    {
        if self.is_at_end() {
            return false;
        }
        if self.source[self.current] != expected {
            return false;
        }
        self.current += 1;
        true
    }
}

} // verus!
