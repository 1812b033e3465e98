//! A simpler parser. It reads the same tokens with a smaller grammar (headings and
//! paragraphs only) and a different way of matching emphasis delimiters: the opener is the
//! delimiter just below the top of the stack, and delimiter positions are not adjusted after
//! tokens are inserted.
//!
//! Every reading of a token position outside the tokens, or of the position before the first,
//! counts as a failure here (`None`), as does a closing token that is missing and a delimiter
//! that can close with no opener below it (no progress is ever made then).
use vstd::prelude::*;
use vstd::pervasive::VecAdditionalExecFns;
use crate::lexer::token::{Token, TokenType, TokenView, tokens_view};
use crate::lexer::lexer::is_alphanumeric;
use crate::lexer::scanner::{scan, scan_from, scan_step, text_end, tok};
use crate::parser::parse_laws::{is_word, lemma_scan_starred, lemma_stops_without, lemma_word_in, lemma_word_not_blank, stars};
use crate::parser::core_parser::{ParserView, emphasis_text, push_text_node};
use crate::parser::grammar::{add_inline, all_whitespace, emphasis_lexeme, push_text, with_kind};
use crate::parser::in_line_node::{InLineNode, Inline, inline_view, inlines_view, lemma_inlines_view_add};
use crate::parser::markdown_node::{Block, MarkdownNode, blocks_view};
use crate::text::{push_char, push_str, spec_is_whitespace};

verus! {

// ---------------------------------------------------------------------------------------------
// What this parser computes
// ---------------------------------------------------------------------------------------------

pub open spec fn in_range(t: Seq<TokenView>, cur: int) -> bool {
    0 <= cur < t.len()
}

/// A closing token of kind `k` at `p`, consumed.
pub open spec fn expect(t: Seq<TokenView>, p: int, k: TokenType) -> Option<int> {
    if in_range(t, p) && t[p].token_type != TokenType::Eof && t[p].token_type == k {
        Some(p + 1)
    } else {
        None
    }
}

/// Inline nodes from `cur` up to a token of a kind in `stops` or the end-of-file token,
/// appended to `acc`.
pub open spec fn inline_loop(t: Seq<TokenView>, cur: int, stops: Seq<TokenType>, acc: Seq<Inline>) -> Option<(Seq<Inline>, int)>
    decreases t.len() - cur, 1int,
{
    if !in_range(t, cur) {
        None
    } else if t[cur].token_type == TokenType::Eof || stops.contains(t[cur].token_type) {
        Some((acc, cur))
    } else {
        match inline_item(t, cur) {
            None => None,
            Some((n, c)) => if c <= cur || c > t.len() {
                None
            } else {
                inline_loop(t, c, stops, add_inline(acc, n))
            },
        }
    }
}

/// A span opened just before `cur`: its content up to `close`, which must follow.
pub open spec fn span(t: Seq<TokenView>, cur: int, close: TokenType) -> Option<(Seq<Inline>, int)>
    decreases t.len() - cur, 2int,
{
    if cur < 0 || cur > t.len() {
        None
    } else {
        match inline_loop(t, cur, seq![close], Seq::empty()) {
            None => None,
            Some((content, c)) => match expect(t, c, close) {
                Some(n) => Some((content, n)),
                None => None,
            },
        }
    }
}

/// The lexemes from `cur` up to a `)` or the end-of-file token.
pub open spec fn destination(t: Seq<TokenView>, cur: int) -> Option<(Seq<char>, int)>
    decreases t.len() - cur,
{
    if !in_range(t, cur) {
        None
    } else if t[cur].token_type == TokenType::Eof || t[cur].token_type == TokenType::ClosingParenthesis {
        Some((Seq::empty(), cur))
    } else {
        match destination(t, cur + 1) {
            None => None,
            Some((rest, c)) => Some((t[cur].lexeme + rest, c)),
        }
    }
}

/// A link whose `[` was just consumed: `content](dest)`.
pub open spec fn link(t: Seq<TokenView>, cur: int) -> Option<(Inline, int)>
    decreases t.len() - cur, 2int,
{
    if cur < 0 || cur > t.len() {
        None
    } else {
        match inline_loop(t, cur, seq![TokenType::ClosingBracket], Seq::empty()) {
            None => None,
            Some((content, c1)) => match expect(t, c1, TokenType::ClosingBracket) {
                None => None,
                Some(c2) => match expect(t, c2, TokenType::OpeningParenthesis) {
                    None => None,
                    Some(c3) => match destination(t, c3) {
                        None => None,
                        Some((dest, c4)) => match expect(t, c4, TokenType::ClosingParenthesis) {
                            None => None,
                            Some(c5) => Some((Inline::Link { content, dest }, c5)),
                        },
                    },
                },
            },
        }
    }
}

/// One inline node at `cur`, which holds a token other than the end-of-file token.
pub open spec fn inline_item(t: Seq<TokenView>, cur: int) -> Option<(Inline, int)>
    decreases t.len() - cur, 0int,
{
    if !in_range(t, cur) {
        None
    } else {
        let k = t[cur].token_type;
        if k == TokenType::OpenStrong {
            match span(t, cur + 1, TokenType::CloseStrong) {
                Some((c, n)) => Some((Inline::Strong(c), n)),
                None => None,
            }
        } else if k == TokenType::OpenEmphasis {
            match span(t, cur + 1, TokenType::CloseEmphasis) {
                Some((c, n)) => Some((Inline::Emphasis(c), n)),
                None => None,
            }
        } else if k == TokenType::Tilde {
            match span(t, cur + 1, TokenType::Tilde) {
                Some((c, n)) => Some((Inline::Strikethrough(c), n)),
                None => None,
            }
        } else if k == TokenType::OpeningBracket {
            link(t, cur + 1)
        } else if k == TokenType::BreakLine {
            Some((Inline::BreakLine, cur + 1))
        } else if k == TokenType::Whitespace || k == TokenType::Content {
            Some((Inline::Text(t[cur].lexeme), cur + 1))
        } else {
            None
        }
    }
}

/// The first position at or after `cur` whose token is not of kind `k`.
pub open spec fn skip_kind(t: Seq<TokenView>, cur: int, k: TokenType) -> Option<int>
    decreases t.len() - cur,
{
    if !in_range(t, cur) {
        None
    } else if t[cur].token_type != TokenType::Eof && t[cur].token_type == k {
        skip_kind(t, cur + 1, k)
    } else {
        Some(cur)
    }
}

/// Consumes one token unless it is the end-of-file token.
pub open spec fn step_over(t: Seq<TokenView>, cur: int) -> Option<int> {
    if !in_range(t, cur) {
        None
    } else if t[cur].token_type != TokenType::Eof {
        Some(cur + 1)
    } else if cur >= 1 {
        Some(cur)
    } else {
        None
    }
}

pub proof fn lemma_skip_kind(t: Seq<TokenView>, cur: int, k: TokenType)
    ensures
        skip_kind(t, cur, k) matches Some(c) ==> cur <= c < t.len(),
    decreases t.len() - cur,
{
    if in_range(t, cur) && t[cur].token_type != TokenType::Eof && t[cur].token_type == k {
        lemma_skip_kind(t, cur + 1, k);
    }
}

/// A heading whose first `#` was just consumed.
pub open spec fn heading(t: Seq<TokenView>, cur: int) -> Option<(Block, int)> {
    match skip_kind(t, cur, TokenType::Hash) {
        None => None,
        Some(c1) => match inline_loop(t, c1, seq![TokenType::NewLine], Seq::empty()) {
            None => None,
            Some((content, c2)) => match step_over(t, c2) {
                None => None,
                Some(c3) => Some((Block::Heading { level: (1 + (c1 - cur)) as usize, content }, c3)),
            },
        },
    }
}

/// The lines of a paragraph from `cur`, appended to `acc`.
pub open spec fn para_loop(t: Seq<TokenView>, cur: int, acc: Seq<Inline>) -> Option<(Block, int)>
    decreases t.len() - cur,
{
    if !in_range(t, cur) {
        None
    } else if t[cur].token_type == TokenType::Eof {
        Some((Block::Paragraph(acc), cur))
    } else if t[cur].token_type == TokenType::NewLine {
        Some((Block::Paragraph(acc), cur + 1))
    } else {
        match inline_loop(t, cur, seq![TokenType::NewLine], Seq::empty()) {
            None => None,
            Some((content, c2)) => match step_over(t, c2) {
                None => None,
                Some(c3) => if !in_range(t, c3) || c3 <= cur {
                    None
                } else {
                    let k = t[c3].token_type;
                    let content2 = if k != TokenType::Eof && k != TokenType::NewLine {
                        push_text(content, seq![' '])
                    } else {
                        content
                    };
                    para_loop(t, c3, acc + content2)
                },
            },
        }
    }
}

/// The blocks from `cur` to the end-of-file token, appended to `acc`.
pub open spec fn block_loop(t: Seq<TokenView>, cur: int, acc: Seq<Block>) -> Option<Seq<Block>>
    decreases t.len() - cur,
{
    if !in_range(t, cur) {
        None
    } else if t[cur].token_type == TokenType::Eof {
        Some(acc)
    } else {
        let step: Option<(Option<Block>, int)> = if t[cur].token_type == TokenType::Hash {
            match heading(t, cur + 1) {
                Some((b, c)) => Some((Some(b), c)),
                None => None,
            }
        } else if t[cur].token_type == TokenType::NewLine {
            match skip_kind(t, cur + 1, TokenType::NewLine) {
                Some(c) => Some((None, c)),
                None => None,
            }
        } else {
            match para_loop(t, cur, Seq::empty()) {
                Some((b, c)) => Some((Some(b), c)),
                None => None,
            }
        };
        match step {
            None => None,
            Some((b, c)) => if c <= cur || c > t.len() {
                None
            } else {
                block_loop(t, c, match b {
                    Some(x) => acc.push(x),
                    None => acc,
                })
            },
        }
    }
}

/// A delimiter run waiting on the stack: the position its token had when it was pushed, how
/// many of its characters are left, and whether it can open.
pub struct StackEntry {
    pub position: int,
    pub length: int,
    pub can_open: bool,
}

/// Marks emphasis between the opener at `op` and the delimiter at `i`: the opener token is
/// replaced by the opening token (or, if it already is one, the opening token is inserted next
/// to it), and the delimiter at `i` becomes the closing token (or the closing token is inserted
/// before what is there).
pub open spec fn apply_emphasis(t: Seq<TokenView>, op: int, strong: bool, i: int) -> Option<(Seq<TokenView>, int)> {
    if !in_range(t, op) {
        None
    } else {
        let open = if strong { TokenType::OpenStrong } else { TokenType::OpenEmphasis };
        let close = if strong { TokenType::CloseStrong } else { TokenType::CloseEmphasis };
        let nt = with_kind(t[op], open, emphasis_lexeme(strong));
        let k = t[op].token_type;
        let (t1, i1) = if k != TokenType::OpenStrong && k != TokenType::OpenEmphasis {
            (t.update(op, nt), i)
        } else {
            let at = if strong { op } else { op + 1 };
            (t.insert(at, nt), i + 1)
        };
        if !in_range(t1, i1) || (k == TokenType::OpenStrong || k == TokenType::OpenEmphasis) && !(if strong {
            op
        } else {
            op + 1
        } <= t.len()) {
            None
        } else if t1[i1].token_type is Delimiter {
            Some((t1.update(i1, with_kind(t1[i1], close, t1[i1].lexeme)), i1))
        } else {
            Some((t1.insert(i1, with_kind(t1[i1], close, emphasis_lexeme(strong))), i1 + 1))
        }
    }
}

/// The closing loop for a delimiter at `i` with `length` characters left.
pub open spec fn close_loop(t: Seq<TokenView>, s: Seq<StackEntry>, i: int, length: int, can_open: bool) -> Option<(Seq<TokenView>, Seq<StackEntry>, int)>
    decreases length,
{
    if length <= 0 {
        Some((t, s, i))
    } else if s.len() == 0 || (can_open && s.len() == 1) {
        None
    } else {
        let j = s.len() - 1;
        let o = if can_open { j - 1 } else { j };
        let opener = s[o];
        if !opener.can_open {
            None
        } else {
            let m = if opener.length < length { opener.length } else { length };
            let use_len = if m > 2 { 2 } else { m };
            if use_len <= 0 || s[j].length < use_len {
                None
            } else {
                match apply_emphasis(t, opener.position, use_len == 2, i) {
                    None => None,
                    Some((t2, i2)) => {
                        let nl = s[j].length - use_len;
                        let s2 = s.update(j, StackEntry { position: s[j].position, length: nl, can_open: s[j].can_open });
                        let s3 = if nl == 0 { s2.remove(j) } else { s2 };
                        close_loop(t2, s3, i2, length - use_len, can_open)
                    },
                }
            }
        }
    }
}

/// One step of the delimiter pass at `i < t.len()`.
pub open spec fn delim_step(t: Seq<TokenView>, s: Seq<StackEntry>, i: int) -> Option<(Seq<TokenView>, Seq<StackEntry>, int)> {
    match t[i].token_type {
        TokenType::Delimiter { length, can_open, can_close } => {
            let s1 = if can_open {
                s.push(StackEntry { position: i, length: length as int, can_open })
            } else {
                s
            };
            if can_close {
                match close_loop(t, s1, i, length as int, can_open) {
                    None => None,
                    Some((t2, s2, i2)) => Some((t2, s2, i2 + 1)),
                }
            } else {
                Some((t, s1, i + 1))
            }
        },
        _ => Some((t, s, i + 1)),
    }
}

pub proof fn lemma_close_loop(t: Seq<TokenView>, s: Seq<StackEntry>, i: int, length: int, can_open: bool)
    requires
        0 <= i < t.len(),
    ensures
        close_loop(t, s, i, length, can_open) matches Some((t2, s2, i2)) ==> t2.len() - i2 == t.len() - i
            && 0 <= i2 < t2.len(),
    decreases length,
{
    if length > 0 && !(s.len() == 0 || (can_open && s.len() == 1)) {
        let j = s.len() - 1;
        let o = if can_open { j - 1 } else { j };
        let opener = s[o];
        let m = if opener.length < length { opener.length } else { length };
        let use_len = if m > 2 { 2 } else { m };
        if opener.can_open && !(use_len <= 0 || s[j].length < use_len) {
            match apply_emphasis(t, opener.position, use_len == 2, i) {
                None => {},
                Some((t2, i2)) => {
                    let nl = s[j].length - use_len;
                    let s2 = s.update(j, StackEntry { position: s[j].position, length: nl, can_open: s[j].can_open });
                    let s3 = if nl == 0 { s2.remove(j) } else { s2 };
                    lemma_close_loop(t2, s3, i2, length - use_len, can_open);
                },
            }
        }
    }
}

pub proof fn lemma_simple_delim_step(t: Seq<TokenView>, s: Seq<StackEntry>, i: int)
    requires
        0 <= i < t.len(),
    ensures
        delim_step(t, s, i) matches Some((t2, s2, i2)) ==> t2.len() - i2 == t.len() - i - 1 && i2 >= 1,
{
    match t[i].token_type {
        TokenType::Delimiter { length, can_open, can_close } => {
            let s1 = if can_open {
                s.push(StackEntry { position: i, length: length as int, can_open })
            } else {
                s
            };
            lemma_close_loop(t, s1, i, length as int, can_open);
        },
        _ => {},
    }
}

/// The delimiter pass from `i`.
pub open spec fn delim_loop(t: Seq<TokenView>, s: Seq<StackEntry>, i: int) -> Option<Seq<TokenView>>
    decreases t.len() - i,
{
    if i < 0 || i >= t.len() {
        Some(t)
    } else {
        match delim_step(t, s, i) {
            None => None,
            Some((t2, s2, i2)) => {
                proof {
                    lemma_simple_delim_step(t, s, i);
                }
                delim_loop(t2, s2, i2)
            },
        }
    }
}

/// The blocks of a token sequence, parsed from `cur` after the delimiter pass.
pub open spec fn document(t: Seq<TokenView>, cur: int) -> Option<Seq<Block>> {
    match delim_loop(t, Seq::empty(), 0) {
        None => None,
        Some(t2) => block_loop(t2, cur, Seq::empty()),
    }
}

// ---------------------------------------------------------------------------------------------
// The parser
// ---------------------------------------------------------------------------------------------

pub struct Parser {
    tokens: Vec<Token>,
    current: usize,
}

impl View for Parser {
    type V = ParserView;

    closed spec fn view(&self) -> ParserView {
        ParserView { tokens: tokens_view(self.tokens@), current: self.current as int }
    }
}

struct StackDelimiter {
    position: usize,
    length: usize,
    can_open: bool,
}

impl View for StackDelimiter {
    type V = StackEntry;

    closed spec fn view(&self) -> StackEntry {
        StackEntry { position: self.position as int, length: self.length as int, can_open: self.can_open }
    }
}

spec fn stack_view(s: Seq<StackDelimiter>) -> Seq<StackEntry> {
    s.map_values(|d: StackDelimiter| d@)
}

#[derive(PartialEq, Eq, Structural)]
enum EmphasisKind {
    Emphasis,
    Strong,
}

impl Parser {
    pub fn new(tokens: Vec<Token>) -> (p: Self)
        ensures
            p@.tokens == tokens_view(tokens@),
            p@.current == 0,
    {
        Parser { tokens: tokens, current: 0 }
    }

    /// Parses the whole token sequence into headings and paragraphs.
    pub fn parse(&mut self) -> (nodes: Vec<MarkdownNode>)
        requires
            document(old(self)@.tokens, old(self)@.current) is Some,
        ensures
            blocks_view(nodes@) == document(old(self)@.tokens, old(self)@.current)->0,
    {
        self.parse_delimiters();
        match self.block() {
            Some(nodes) => nodes,
            None => Vec::new(),
        }
    }

    /// Parses the whole token sequence; `None` on the inputs that cannot be parsed.
    pub fn try_parse(&mut self) -> (nodes: Option<Vec<MarkdownNode>>)
        ensures
            match document(old(self)@.tokens, old(self)@.current) {
                None => nodes is None,
                Some(b) => nodes matches Some(v) && blocks_view(v@) == b,
            },
    {
        self.document()
    }

    fn document(&mut self) -> (nodes: Option<Vec<MarkdownNode>>)
        ensures
            match document(old(self)@.tokens, old(self)@.current) {
                None => nodes is None,
                Some(b) => nodes matches Some(v) && blocks_view(v@) == b,
            },
    {
        if !self.try_parse_delimiters() {
            return None;
        }
        self.block()
    }

    /// Marks matching emphasis delimiters; the tokens are ones on which the pass finishes.
    fn parse_delimiters(&mut self)
        requires
            delim_loop(old(self)@.tokens, Seq::empty(), 0) is Some,
        ensures
            final(self)@.tokens == delim_loop(old(self)@.tokens, Seq::empty(), 0)->0,
            final(self).current == old(self).current,
    {
        self.try_parse_delimiters();
    }

    /// The delimiter pass on any tokens. Returns false, with the tokens in an unspecified
    /// state, exactly on the inputs where the pass cannot finish (`delim_loop` is none there),
    /// among them a closing delimiter with no delimiter below it on the stack.
    fn try_parse_delimiters(&mut self) -> (ok: bool)
        ensures
            ok == delim_loop(old(self)@.tokens, Seq::empty(), 0) is Some,
            ok ==> final(self)@.tokens == delim_loop(old(self)@.tokens, Seq::empty(), 0)->0,
            final(self).current == old(self).current,
    {
        let mut stack: Vec<StackDelimiter> = Vec::new();
        let ghost goal = delim_loop(self@.tokens, Seq::empty(), 0);
        let mut i: usize = 0;
        assert(stack_view(stack@) =~= Seq::<StackEntry>::empty());
        while i < self.tokens.len()
            invariant
                self.current == old(self).current,
                goal == delim_loop(old(self)@.tokens, Seq::empty(), 0),
                delim_loop(self@.tokens, stack_view(stack@), i as int) == goal,
            decreases self.tokens.len() - i,
        {
            let ghost t = self@.tokens;
            let ghost s = stack_view(stack@);
            proof {
                lemma_simple_delim_step(t, s, i as int);
            }
            match self.tokens[i].token_type {
                TokenType::Delimiter { length, can_open, can_close } => {
                    if can_open {
                        stack.push(StackDelimiter { position: i, length, can_open });
                        assert(stack_view(stack@) =~= s.push(StackEntry { position: i as int, length: length as int, can_open }));
                    }
                    if can_close {
                        if !self.close_delimiter(&mut stack, &mut i, length, can_open) {
                            return false;
                        }
                    }
                },
                _ => {},
            }
            assert(i < self.tokens.len());
            i += 1;
        }
        true
    }

    /// Matches the delimiter at `*i`, which can close, against openers on the stack until its
    /// characters are spent.
    fn close_delimiter(&mut self, stack: &mut Vec<StackDelimiter>, i: &mut usize, delimiter_length: usize, can_open: bool) -> (ok: bool)
        requires
            *old(i) < old(self).tokens.len(),
        ensures
            final(self).current == old(self).current,
            match close_loop(old(self)@.tokens, stack_view(old(stack)@), *old(i) as int, delimiter_length as int, can_open) {
                None => !ok,
                Some((t2, s2, i2)) => ok && final(self)@.tokens == t2 && stack_view(final(stack)@) == s2
                    && *final(i) as int == i2 && i2 < final(self)@.tokens.len(),
            },
    {
        let mut length = delimiter_length;
        loop
            invariant_except_break
                *i < self.tokens.len(),
                self.current == old(self).current,
                close_loop(self@.tokens, stack_view(stack@), *i as int, length as int, can_open) == close_loop(
                    old(self)@.tokens, stack_view(old(stack)@), *old(i) as int, delimiter_length as int, can_open),
            ensures
                self.current == old(self).current,
                close_loop(old(self)@.tokens, stack_view(old(stack)@), *old(i) as int, delimiter_length as int, can_open)
                    == Some((self@.tokens, stack_view(stack@), *i as int)),
                *i < self.tokens.len(),
            decreases length,
        {
            if length == 0 {
                break;
            }
            let ghost t = self@.tokens;
            let ghost s = stack_view(stack@);
            let ghost i0 = *i as int;
            if stack.len() == 0 || (can_open && stack.len() == 1) {
                return false;
            }
            let j = stack.len() - 1;
            let opener_stack_position = if can_open {
                j - 1
            } else {
                j
            };
            assert(s[opener_stack_position as int] == stack@[opener_stack_position as int]@);
            assert(s[j as int] == stack@[j as int]@);
            let opener_can_open = stack[opener_stack_position].can_open;
            let opener_length = stack[opener_stack_position].length;
            let opener_position = stack[opener_stack_position].position;
            if !opener_can_open {
                return false;
            }
            let mut use_len = if opener_length < length {
                opener_length
            } else {
                length
            };
            if use_len > 2 {
                use_len = 2;
            }
            let kind = if use_len == 2 {
                EmphasisKind::Strong
            } else if use_len == 1 {
                EmphasisKind::Emphasis
            } else {
                return false;
            };
            if !self.apply_emphasis(opener_position, kind, i) {
                return false;
            }
            if stack[j].length < use_len {
                return false;
            }
            let nl = stack[j].length - use_len;
            let d = StackDelimiter { position: stack[j].position, length: nl, can_open: stack[j].can_open };
            stack.set(j, d);
            assert(stack_view(stack@) =~= s.update(j as int, StackEntry { position: s[j as int].position, length: nl as int, can_open: s[j as int].can_open }));
            if nl == 0 {
                let ghost s2 = stack_view(stack@);
                stack.remove(j);
                assert(stack_view(stack@) =~= s2.remove(j as int));
            }
            length -= use_len;
        }
        true
    }

    fn apply_emphasis(&mut self, opener_pos: usize, kind: EmphasisKind, i: &mut usize) -> (ok: bool)
        ensures
            final(self).current == old(self).current,
            match apply_emphasis(old(self)@.tokens, opener_pos as int, kind == EmphasisKind::Strong, *old(i) as int) {
                None => !ok,
                Some((t2, i2)) => ok && final(self)@.tokens == t2 && *final(i) as int == i2 && i2 < t2.len(),
            },
    {
        let strong = kind == EmphasisKind::Strong;
        let (open, close) = match kind {
            EmphasisKind::Emphasis => (TokenType::OpenEmphasis, TokenType::CloseEmphasis),
            EmphasisKind::Strong => (TokenType::OpenStrong, TokenType::CloseStrong),
        };
        if opener_pos >= self.tokens.len() {
            return false;
        }
        let ghost t = self@.tokens;
        //open
        let mut new_token = self.tokens[opener_pos].duplicate();
        new_token.token_type = open;
        new_token.lexeme = emphasis_text(strong);
        let ghost nt = new_token@;
        let k = self.tokens[opener_pos].token_type;
        if !(k == TokenType::OpenStrong || k == TokenType::OpenEmphasis) {
            self.tokens.set(opener_pos, new_token);
            assert(tokens_view(self.tokens@) =~= t.update(opener_pos as int, nt));
        } else {
            let insert_pos = if strong {
                opener_pos
            } else {
                opener_pos + 1
            };
            self.tokens.insert(insert_pos, new_token);
            assert(tokens_view(self.tokens@) =~= t.insert(insert_pos as int, nt));
            if *i >= self.tokens.len() {
                return false;
            }
            *i += 1;
        }
        //close
        if *i >= self.tokens.len() {
            return false;
        }
        let ghost t1 = self@.tokens;
        if let TokenType::Delimiter { .. } = self.tokens[*i].token_type {
            let mut tk = self.tokens[*i].duplicate();
            tk.token_type = close;
            let ghost ct = tk@;
            self.tokens.set(*i, tk);
            assert(tokens_view(self.tokens@) =~= t1.update(*i as int, ct));
        } else {
            let mut tk = self.tokens[*i].duplicate();
            tk.token_type = close;
            tk.lexeme = emphasis_text(strong);
            let ghost ct = tk@;
            self.tokens.insert(*i, tk);
            assert(tokens_view(self.tokens@) =~= t1.insert(*i as int, ct));
            *i += 1;
        }
        true
    }
}

impl Parser {
    fn peek(&self) -> (t: Option<Token>)
        ensures
            in_range(self@.tokens, self@.current) == t is Some,
            t matches Some(tk) ==> tk@ == self@.tokens[self@.current],
    {
        if self.current < self.tokens.len() {
            Some(self.tokens[self.current].duplicate())
        } else {
            None
        }
    }

    fn previous(&self) -> (t: Option<Token>)
        ensures
            (1 <= self@.current <= self@.tokens.len()) == t is Some,
            t matches Some(tk) ==> tk@ == self@.tokens[self@.current - 1],
    {
        if self.current == 0 || self.current - 1 >= self.tokens.len() {
            return None;
        }
        Some(self.tokens[self.current - 1].duplicate())
    }

    fn is_at_end(&self) -> (r: Option<bool>)
        ensures
            in_range(self@.tokens, self@.current) == r is Some,
            r matches Some(b) ==> b == (self@.tokens[self@.current].token_type == TokenType::Eof),
    {
        match self.peek() {
            Some(t) => Some(t.token_type == TokenType::Eof),
            None => None,
        }
    }

    fn check(&self, token_type: TokenType) -> (r: Option<bool>)
        ensures
            in_range(self@.tokens, self@.current) == r is Some,
            r matches Some(b) ==> b == (self@.tokens[self@.current].token_type != TokenType::Eof
                && self@.tokens[self@.current].token_type == token_type),
    {
        match self.is_at_end() {
            None => None,
            Some(true) => Some(false),
            Some(false) => match self.peek() {
                Some(t) => Some(t.token_type == token_type),
                None => None,
            },
        }
    }

    fn advance(&mut self) -> (t: Option<Token>)
        ensures
            final(self)@.tokens == old(self)@.tokens,
            match step_over(old(self)@.tokens, old(self)@.current) {
                None => t is None,
                Some(c) => t matches Some(tk) && final(self)@.current == c && tk@ == old(self)@.tokens[c - 1],
            },
    {
        match self.is_at_end() {
            None => None,
            Some(end) => {
                if !end {
                    assert(self@.tokens.len() == self.tokens.len());
                    self.current += 1;
                }
                self.previous()
            },
        }
    }

    fn peek_match_tokens(&self, types: &[TokenType]) -> (r: Option<bool>)
        requires
            types@.len() > 0,
        ensures
            in_range(self@.tokens, self@.current) == r is Some,
            r matches Some(b) ==> b == (self@.tokens[self@.current].token_type != TokenType::Eof
                && types@.contains(self@.tokens[self@.current].token_type)),
    {
        let mut k: usize = 0;
        while k < types.len()
            invariant
                k <= types.len(),
                forall|m: int| 0 <= m < k ==> self@.tokens[self@.current].token_type == TokenType::Eof
                    || (#[trigger] types@[m]) != self@.tokens[self@.current].token_type,
                k > 0 ==> in_range(self@.tokens, self@.current),
            decreases types.len() - k,
        {
            match self.check(types[k]) {
                None => {
                    return None;
                },
                Some(true) => {
                    return Some(true);
                },
                Some(false) => {},
            }
            k += 1;
        }
        proof {
            let kind = self@.tokens[self@.current].token_type;
            if kind != TokenType::Eof && types@.contains(kind) {
                let m = types@.index_of(kind);
                assert(types@[m] == kind);
            }
        }
        Some(false)
    }

    fn match_tokens(&mut self, types: &[TokenType]) -> (r: Option<bool>)
        requires
            types@.len() > 0,
        ensures
            final(self)@.tokens == old(self)@.tokens,
            in_range(old(self)@.tokens, old(self)@.current) == r is Some,
            r matches Some(b) ==> b == (old(self)@.tokens[old(self)@.current].token_type != TokenType::Eof
                && types@.contains(old(self)@.tokens[old(self)@.current].token_type))
                && final(self)@.current == old(self)@.current + if b { 1int } else { 0int },
    {
        match self.peek_match_tokens(types) {
            None => None,
            Some(true) => {
                self.advance();
                Some(true)
            },
            Some(false) => Some(false),
        }
    }

    /// Takes the current token, which is of kind `token_type`.
    fn consume(&mut self, token_type: TokenType) -> (t: Token)
        requires
            expect(old(self)@.tokens, old(self)@.current, token_type) is Some,
        ensures
            final(self)@.tokens == old(self)@.tokens,
            final(self)@.current == old(self)@.current + 1,
            t@ == old(self)@.tokens[old(self)@.current],
    {
        assert(self@.tokens.len() == self.tokens.len());
        let t = self.tokens[self.current].duplicate();
        self.current += 1;
        t
    }

    fn block(&mut self) -> (r: Option<Vec<MarkdownNode>>)
        ensures
            final(self)@.tokens == old(self)@.tokens,
            match block_loop(old(self)@.tokens, old(self)@.current, Seq::empty()) {
                None => r is None,
                Some(b) => r matches Some(v) && blocks_view(v@) == b,
            },
    {
        let mut nodes: Vec<MarkdownNode> = Vec::new();
        let ghost goal = block_loop(self@.tokens, self@.current, Seq::empty());
        assert(blocks_view(nodes@) =~= Seq::<Block>::empty());
        loop
            invariant
                self@.tokens == old(self)@.tokens,
                goal == block_loop(old(self)@.tokens, old(self)@.current, Seq::empty()),
                block_loop(self@.tokens, self@.current, blocks_view(nodes@)) == goal,
            ensures
                goal == Some(blocks_view(nodes@)),
            decreases self@.tokens.len() - self@.current,
        {
            match self.is_at_end() {
                None => {
                    return None;
                },
                Some(true) => {
                    break;
                },
                Some(false) => {},
            }
            let ghost t = self@.tokens;
            let ghost cur = self@.current;
            let ghost before = nodes@;
            let is_hash = self.match_tokens(&[TokenType::Hash]);
            if is_hash == Some(true) {
                match self.heading() {
                    Some(h) => nodes.push(h),
                    None => {
                        return None;
                    },
                }
            } else if self.match_tokens(&[TokenType::NewLine]) == Some(true) {
                if !self.line_breaks() {
                    return None;
                }
            } else {
                match self.paragraph() {
                    Some(p) => nodes.push(p),
                    None => {
                        return None;
                    },
                }
                proof {
                    lemma_simple_para_loop_progress(t, cur, Seq::empty());
                }
            }
            proof {
                lemma_skip_kind(t, cur + 1, TokenType::NewLine);
                if nodes@.len() > before.len() {
                    assert(blocks_view(nodes@) =~= blocks_view(before).push(nodes@.last()@));
                } else {
                    assert(blocks_view(nodes@) =~= blocks_view(before));
                }
            }
        }
        Some(nodes)
    }

    fn line_breaks(&mut self) -> (ok: bool)
        ensures
            final(self)@.tokens == old(self)@.tokens,
            match skip_kind(old(self)@.tokens, old(self)@.current, TokenType::NewLine) {
                None => !ok,
                Some(c) => ok && final(self)@.current == c,
            },
    {
        proof {
            lemma_skip_kind(self@.tokens, self@.current, TokenType::NewLine);
        }
        loop
            invariant
                self@.tokens == old(self)@.tokens,
                skip_kind(self@.tokens, self@.current, TokenType::NewLine) == skip_kind(old(self)@.tokens,
                    old(self)@.current, TokenType::NewLine),
            ensures
                skip_kind(old(self)@.tokens, old(self)@.current, TokenType::NewLine) == Some(self@.current),
                self@.tokens == old(self)@.tokens,
            decreases self@.tokens.len() - self@.current,
        {
            match self.is_at_end() {
                None => {
                    return false;
                },
                Some(true) => {
                    break;
                },
                Some(false) => {},
            }
            match self.match_tokens(&[TokenType::NewLine]) {
                None => {
                    return false;
                },
                Some(false) => {
                    break;
                },
                Some(true) => {},
            }
        }
        true
    }

    /// A heading whose first `#` was just consumed.
    fn heading(&mut self) -> (r: Option<MarkdownNode>)
        requires
            1 <= old(self)@.current <= old(self)@.tokens.len(),
        ensures
            final(self)@.tokens == old(self)@.tokens,
            match heading(old(self)@.tokens, old(self)@.current) {
                None => r is None,
                Some((b, c)) => r matches Some(x) && x@ == b && final(self)@.current == c
                    && old(self)@.current <= c <= final(self)@.tokens.len(),
            },
    {
        let ghost t = self@.tokens;
        let ghost c0 = self@.current;
        let mut level: usize = 1;
        loop
            invariant
                self@.tokens == t,
                t == old(self)@.tokens,
                t.len() == self.tokens.len(),
                c0 == old(self)@.current,
                c0 <= self@.current <= t.len(),
                1 <= c0,
                level == 1 + (self@.current - c0),
                skip_kind(t, self@.current, TokenType::Hash) == skip_kind(t, c0, TokenType::Hash),
            ensures
                self@.tokens == t,
                skip_kind(t, c0, TokenType::Hash) == Some(self@.current),
                level == 1 + (self@.current - c0),
                c0 <= self@.current,
            decreases t.len() - self@.current,
        {
            match self.match_tokens(&[TokenType::Hash]) {
                None => {
                    return None;
                },
                Some(false) => {
                    break;
                },
                Some(true) => {},
            }
            level += 1;
        }
        let stops = [TokenType::NewLine];
        assert(stops@ =~= seq![TokenType::NewLine]);
        let content = match self.in_line_until(&stops) {
            Some(c) => c,
            None => {
                return None;
            },
        };
        //skip new line token
        if self.advance().is_none() {
            return None;
        }

        Some(MarkdownNode::Heading { level: level, content: content })
    }

    fn paragraph(&mut self) -> (r: Option<MarkdownNode>)
        ensures
            final(self)@.tokens == old(self)@.tokens,
            match para_loop(old(self)@.tokens, old(self)@.current, Seq::empty()) {
                None => r is None,
                Some((b, c)) => r matches Some(x) && x@ == b && final(self)@.current == c,
            },
    {
        let ghost t = self@.tokens;
        let ghost goal = para_loop(t, self@.current, Seq::empty());
        let mut nodes: Vec<InLineNode> = Vec::new();
        assert(inlines_view(nodes@) =~= Seq::<Inline>::empty());
        loop
            invariant_except_break
                para_loop(t, self@.current, inlines_view(nodes@)) == goal,
            invariant
                self@.tokens == t,
                t == old(self)@.tokens,
                t.len() == self.tokens.len(),
                goal == para_loop(t, old(self)@.current, Seq::empty()),
            ensures
                goal == Some((Block::Paragraph(inlines_view(nodes@)), self@.current)),
            decreases t.len() - self@.current,
        {
            match self.is_at_end() {
                None => {
                    return None;
                },
                Some(true) => {
                    break;
                },
                Some(false) => {},
            }
            match self.match_tokens(&[TokenType::NewLine]) {
                None => {
                    return None;
                },
                Some(true) => {
                    break;
                },
                Some(false) => {},
            }
            let cur0 = self.current;
            let stops = [TokenType::NewLine];
            assert(stops@ =~= seq![TokenType::NewLine]);
            let mut content = match self.in_line_until(&stops) {
                Some(c) => c,
                None => {
                    return None;
                },
            };
            //skip new line token
            if self.advance().is_none() {
                return None;
            }
            if self.current <= cur0 {
                return None;
            }
            let more = match self.is_at_end() {
                None => {
                    return None;
                },
                Some(true) => false,
                Some(false) => {
                    let nl = [TokenType::NewLine];
                    match self.peek_match_tokens(&nl) {
                        None => {
                            return None;
                        },
                        Some(b) => !b,
                    }
                },
            };
            if more {
                let mut space = String::new();
                push_char(&mut space, ' ');
                assert(space@ =~= seq![' ']);
                push_text_node(&mut content, space);
            }
            let ghost before = nodes@;
            let ghost added = content@;
            nodes.append(&mut content);
            proof {
                lemma_inlines_view_add(before, added);
            }
        }
        Some(MarkdownNode::Paragraph(nodes))
    }

    fn in_line_until(&mut self, stop_tokens: &[TokenType]) -> (r: Option<Vec<InLineNode>>)
        requires
            stop_tokens@.len() > 0,
        ensures
            final(self)@.tokens == old(self)@.tokens,
            match inline_loop(old(self)@.tokens, old(self)@.current, stop_tokens@, Seq::empty()) {
                None => r is None,
                Some((nodes, c)) => r matches Some(v) && inlines_view(v@) == nodes && final(self)@.current == c
                    && old(self)@.current <= c < final(self)@.tokens.len(),
            },
        decreases old(self)@.tokens.len() - old(self)@.current, 1int,
    {
        let mut nodes: Vec<InLineNode> = Vec::new();
        let ghost goal = inline_loop(self@.tokens, self@.current, stop_tokens@, Seq::empty());
        assert(inlines_view(nodes@) =~= Seq::<Inline>::empty());
        loop
            invariant
                self@.tokens == old(self)@.tokens,
                old(self)@.current <= self@.current,
                stop_tokens@.len() > 0,
                goal == inline_loop(old(self)@.tokens, old(self)@.current, stop_tokens@, Seq::empty()),
                inline_loop(self@.tokens, self@.current, stop_tokens@, inlines_view(nodes@)) == goal,
            ensures
                goal == Some((inlines_view(nodes@), self@.current)),
            decreases self@.tokens.len() - self@.current,
        {
            match self.is_at_end() {
                None => {
                    return None;
                },
                Some(true) => {
                    break;
                },
                Some(false) => {},
            }
            match self.peek_match_tokens(stop_tokens) {
                None => {
                    return None;
                },
                Some(true) => {
                    break;
                },
                Some(false) => {},
            }
            let ghost t = self@.tokens;
            let ghost cur = self@.current;
            let ghost before = inlines_view(nodes@);
            let node = if self.match_tokens(&[TokenType::OpenStrong]) == Some(true) {
                let content = match self.span_content(TokenType::CloseStrong) {
                    Some(c) => c,
                    None => {
                        return None;
                    },
                };
                InLineNode::Strong(content)
            } else if self.match_tokens(&[TokenType::OpenEmphasis]) == Some(true) {
                let content = match self.span_content(TokenType::CloseEmphasis) {
                    Some(c) => c,
                    None => {
                        return None;
                    },
                };
                InLineNode::Emphasis(content)
            } else if self.match_tokens(&[TokenType::Tilde]) == Some(true) {
                let content = match self.span_content(TokenType::Tilde) {
                    Some(c) => c,
                    None => {
                        return None;
                    },
                };
                InLineNode::Strikethrough(content)
            } else if self.match_tokens(&[TokenType::OpeningBracket]) == Some(true) {
                match self.link() {
                    Some(l) => l,
                    None => {
                        return None;
                    },
                }
            } else if self.match_tokens(&[TokenType::BreakLine]) == Some(true) {
                InLineNode::BreakLine
            } else {
                let ws = [TokenType::Whitespace];
                let token = if self.peek_match_tokens(&ws) == Some(true) {
                    if self.check(TokenType::Whitespace) == Some(true) {
                        Some(self.consume(TokenType::Whitespace))
                    } else {
                        None
                    }
                } else if self.check(TokenType::Content) == Some(true) {
                    Some(self.consume(TokenType::Content))
                } else {
                    None
                };
                match token {
                    Some(tk) => InLineNode::Text(tk.lexeme),
                    None => {
                        return None;
                    },
                }
            };
            assert(inline_item(t, cur) == Some((inline_view(node), self@.current)));
            match node {
                InLineNode::Text(lexeme) => {
                    push_text_node(&mut nodes, lexeme);
                },
                _ => {
                    nodes.push(node);
                    proof {
                        assert(inlines_view(nodes@) =~= before.push(inline_view(node)));
                    }
                },
            }
        }
        Some(nodes)
    }

    /// The content of a span whose opening token was just consumed, and its closing token.
    fn span_content(&mut self, close: TokenType) -> (r: Option<Vec<InLineNode>>)
        requires
            0 <= old(self)@.current <= old(self)@.tokens.len(),
            1 <= old(self)@.current,
        ensures
            final(self)@.tokens == old(self)@.tokens,
            match span(old(self)@.tokens, old(self)@.current, close) {
                None => r is None,
                Some((c, n)) => r matches Some(v) && inlines_view(v@) == c && final(self)@.current == n
                    && old(self)@.current < n <= final(self)@.tokens.len(),
            },
        decreases old(self)@.tokens.len() - old(self)@.current, 2int,
    {
        let close_stops = [close];
        assert(close_stops@ =~= seq![close]);
        let content = match self.in_line_until(&close_stops) {
            Some(c) => c,
            None => {
                return None;
            },
        };
        if self.check(close) != Some(true) {
            return None;
        }
        self.consume(close);
        Some(content)
    }

    /// A link whose `[` was just consumed.
    fn link(&mut self) -> (r: Option<InLineNode>)
        requires
            1 <= old(self)@.current <= old(self)@.tokens.len(),
        ensures
            final(self)@.tokens == old(self)@.tokens,
            match link(old(self)@.tokens, old(self)@.current) {
                None => r is None,
                Some((n, c)) => r matches Some(x) && inline_view(x) == n && final(self)@.current == c
                    && old(self)@.current < c <= final(self)@.tokens.len(),
            },
        decreases old(self)@.tokens.len() - old(self)@.current, 2int,
    {
        let stops = [TokenType::ClosingBracket];
        assert(stops@ =~= seq![TokenType::ClosingBracket]);
        let content = match self.in_line_until(&stops) {
            Some(c) => c,
            None => {
                return None;
            },
        };
        if self.check(TokenType::ClosingBracket) != Some(true) {
            return None;
        }
        self.consume(TokenType::ClosingBracket);
        if self.check(TokenType::OpeningParenthesis) != Some(true) {
            return None;
        }
        self.consume(TokenType::OpeningParenthesis);
        let ghost c3 = self@.current;
        let ghost cv = inlines_view(content@);
        let mut dest = String::new();
        loop
            invariant
                self@.tokens == old(self)@.tokens,
                cv == inlines_view(content@),
                link(old(self)@.tokens, old(self)@.current) == (match destination(self@.tokens, c3) {
                    None => None,
                    Some((d, c4)) => match expect(self@.tokens, c4, TokenType::ClosingParenthesis) {
                        None => None,
                        Some(c5) => Some((Inline::Link { content: cv, dest: d }, c5)),
                    },
                }),
                c3 <= self@.current,
                1 <= c3,
                ({
                    match destination(self@.tokens, self@.current) {
                        None => destination(self@.tokens, c3) is None,
                        Some((rest, c)) => destination(self@.tokens, c3) == Some((dest@ + rest, c)),
                    }
                }),
            ensures
                destination(self@.tokens, c3) == Some((dest@, self@.current)),
            decreases self@.tokens.len() - self@.current,
        {
            match self.is_at_end() {
                None => {
                    return None;
                },
                Some(true) => {
                    assert(dest@ + Seq::<char>::empty() =~= dest@);
                    break;
                },
                Some(false) => {},
            }
            let cp = [TokenType::ClosingParenthesis];
            match self.peek_match_tokens(&cp) {
                None => {
                    return None;
                },
                Some(true) => {
                    assert(dest@ + Seq::<char>::empty() =~= dest@);
                    break;
                },
                Some(false) => {},
            }
            let ghost before = dest@;
            let ghost cur = self@.current;
            let token = match self.advance() {
                Some(tk) => tk,
                None => {
                    return None;
                },
            };
            push_str(&mut dest, token.lexeme.as_str());
            proof {
                match destination(self@.tokens, self@.current) {
                    None => {},
                    Some((rest, c)) => {
                        assert(before + (self@.tokens[cur].lexeme + rest) =~= dest@ + rest);
                    },
                }
            }
        }
        if self.check(TokenType::ClosingParenthesis) != Some(true) {
            return None;
        }
        self.consume(TokenType::ClosingParenthesis);
        Some(InLineNode::Link { content: content, dest: dest })
    }
}

/// A paragraph that starts on a token other than the end or a newline consumes something.
pub proof fn lemma_simple_para_loop_progress(t: Seq<TokenView>, cur: int, acc: Seq<Inline>)
    ensures
        para_loop(t, cur, acc) matches Some((_, c)) ==> cur <= c <= t.len() && (in_range(t, cur)
            && t[cur].token_type != TokenType::Eof && t[cur].token_type != TokenType::NewLine ==> cur < c),
    decreases t.len() - cur,
{
    if in_range(t, cur) && t[cur].token_type != TokenType::Eof && t[cur].token_type != TokenType::NewLine {
        match inline_loop(t, cur, seq![TokenType::NewLine], Seq::empty()) {
            None => {},
            Some((content, c2)) => match step_over(t, c2) {
                None => {},
                Some(c3) => if !(!in_range(t, c3) || c3 <= cur) {
                    let k = t[c3].token_type;
                    let content2 = if k != TokenType::Eof && k != TokenType::NewLine {
                        push_text(content, seq![' '])
                    } else {
                        content
                    };
                    lemma_simple_para_loop_progress(t, c3, acc + content2);
                },
            },
        }
    }
}

proof fn lemma_delim_loop_plain(t: Seq<TokenView>, s: Seq<StackEntry>, i: int)
    requires
        0 <= i,
        forall|k: int| 0 <= k < t.len() ==> !((#[trigger] t[k]).token_type is Delimiter),
    ensures
        delim_loop(t, s, i) == Some(t),
    decreases t.len() - i,
{
    if i < t.len() {
        assert(!(t[i].token_type is Delimiter));
        lemma_delim_loop_plain(t, s, i + 1);
    }
}

proof fn lemma_word_text_end(src: Seq<char>, i: int, e: int)
    requires
        0 <= i <= e < src.len(),
        src[e] == '~',
        forall|k: int| i <= k < e ==> is_alphanumeric(#[trigger] src[k]) || src[k] == ' ',
    ensures
        text_end(src, i) == e,
    decreases e - i,
{
    if i < e {
        assert(is_alphanumeric(src[i]) || src[i] == ' ');
        lemma_word_text_end(src, i + 1, e);
    }
}

/// A line `~~w~~`, with `w` letters, digits and spaces that starts with a letter or digit, is
/// one paragraph holding a strikethrough of the text `w`.
pub proof fn lemma_tildes_strike_through(w: Seq<char>)
    requires
        w.len() > 0,
        is_alphanumeric(w[0]),
        forall|k: int| 0 <= k < w.len() ==> is_alphanumeric(#[trigger] w[k]) || w[k] == ' ',
        w.len() + 4 < usize::MAX,
    ensures
        document(scan(seq!['~', '~'] + w + seq!['~', '~']), 0) == Some(
            seq![Block::Paragraph(seq![Inline::Strikethrough(seq![Inline::Text(w)])])],
        ),
{
    let src = seq!['~', '~'] + w + seq!['~', '~'];
    let n = w.len() as int;
    let len = src.len() as int;
    assert(len == n + 4);
    assert(src[0] == '~' && src[1] == '~' && src[n + 2] == '~' && src[n + 3] == '~');
    assert forall|k: int| 2 <= k < n + 2 implies is_alphanumeric(#[trigger] src[k]) || src[k] == ' ' by {
        assert(src[k] == w[k - 2]);
    }
    assert(src[2] == w[0]);
    lemma_word_text_end(src, 3, n + 2);
    assert(src.subrange(2, n + 2) =~= w);
    let t1 = tok(TokenType::Tilde, src.subrange(0, 2), 1, 0);
    let t2 = tok(TokenType::Content, w, 1, 2);
    let t3 = tok(TokenType::Tilde, src.subrange(n + 2, n + 4), 1, n + 2);
    assert(scan_step(src, 0, 1) == (Some(t1), 2int, 1int));
    assert(scan_step(src, 2, 1) == (Some(t2), n + 2, 1int));
    assert(scan_step(src, n + 2, 1) == (Some(t3), n + 4, 1int));
    assert(scan_from(src, n + 4, 1, n + 2) == (Seq::<TokenView>::empty(), n + 2, 1int));
    assert(scan_from(src, n + 2, 1, 2).0 =~= seq![t3]);
    assert(scan_from(src, 2, 1, 0).0 =~= seq![t2, t3]);
    assert(scan_from(src, 0, 1, 0).0 =~= seq![t1, t2, t3]);
    assert(scan_from(src, 0, 1, 0).1 == n + 2);
    assert(scan_from(src, 0, 1, 0).2 == 1);
    let e = tok(TokenType::Eof, Seq::empty(), 1, n + 2);
    let t = scan(src);
    assert(t =~= seq![t1, t2, t3, e]);
    lemma_delim_loop_plain(t, Seq::empty(), 0);
    // the strikethrough span
    let text = Inline::Text(w);
    assert(!all_whitespace(w)) by {
        assert(!spec_is_whitespace(w[0]));
    }
    assert(inline_item(t, 1) == Some((text, 2int)));
    assert(add_inline(Seq::empty(), text) =~= seq![text]);
    assert(seq![TokenType::Tilde].contains(TokenType::Tilde)) by {
        assert(seq![TokenType::Tilde][0] == TokenType::Tilde);
    }
    assert(inline_loop(t, 2, seq![TokenType::Tilde], seq![text]) == Some((seq![text], 2int)));
    assert(!seq![TokenType::Tilde].contains(TokenType::Content)) by {
        if seq![TokenType::Tilde].contains(TokenType::Content) {
            let x = choose|x: int| 0 <= x < 1 && seq![TokenType::Tilde][x] == TokenType::Content;
        }
    }
    assert(inline_loop(t, 1, seq![TokenType::Tilde], Seq::empty()) == Some((seq![text], 2int)));
    assert(span(t, 1, TokenType::Tilde) == Some((seq![text], 3int)));
    let strike = Inline::Strikethrough(seq![text]);
    assert(inline_item(t, 0) == Some((strike, 3int)));
    assert(add_inline(Seq::empty(), strike) =~= seq![strike]);
    assert(inline_loop(t, 3, seq![TokenType::NewLine], seq![strike]) == Some((seq![strike], 3int)));
    assert(!seq![TokenType::NewLine].contains(TokenType::Tilde)) by {
        if seq![TokenType::NewLine].contains(TokenType::Tilde) {
            let x = choose|x: int| 0 <= x < 1 && seq![TokenType::NewLine][x] == TokenType::Tilde;
        }
    }
    assert(inline_loop(t, 0, seq![TokenType::NewLine], Seq::empty()) == Some((seq![strike], 3int)));
    assert(step_over(t, 3) == Some(3int));
    assert(Seq::<Inline>::empty() + seq![strike] =~= seq![strike]);
    assert(para_loop(t, 3, seq![strike]) == Some((Block::Paragraph(seq![strike]), 3int)));
    assert(para_loop(t, 0, Seq::empty()) == Some((Block::Paragraph(seq![strike]), 3int)));
    assert(block_loop(t, 3, seq![Block::Paragraph(seq![strike])]) == Some(seq![Block::Paragraph(seq![strike])]));
    assert(block_loop(t, 0, Seq::empty()) == Some(seq![Block::Paragraph(seq![strike])]));
}

/// With this parser: tokens whose first inline item runs up to the end of the input, and is not
/// text, form one paragraph holding that item.
proof fn lemma_simple_single_item_resolved(t0: Seq<TokenView>, t: Seq<TokenView>, n: Inline)
    requires
        t.len() >= 2,
        delim_loop(t0, Seq::empty(), 0) == Some(t),
        t[t.len() - 1].token_type == TokenType::Eof,
        t[0].token_type != TokenType::Eof,
        t[0].token_type != TokenType::NewLine,
        t[0].token_type != TokenType::Hash,
        !(n is Text),
        inline_item(t, 0) == Some((n, t.len() - 1)),
    ensures
        document(t0, 0) == Some(seq![Block::Paragraph(seq![n])]),
{
    let e = t.len() - 1;
    lemma_stops_without(seq![TokenType::NewLine], t[0].token_type);
    assert(add_inline(Seq::empty(), n) =~= seq![n]);
    assert(inline_loop(t, e, seq![TokenType::NewLine], seq![n]) == Some((seq![n], e)));
    assert(inline_loop(t, 0, seq![TokenType::NewLine], Seq::empty()) == Some((seq![n], e)));
    assert(step_over(t, e) == Some(e));
    assert(Seq::<Inline>::empty() + seq![n] =~= seq![n]);
    assert(para_loop(t, e, seq![n]) == Some((Block::Paragraph(seq![n]), e)));
    assert(para_loop(t, 0, Seq::empty()) == Some((Block::Paragraph(seq![n]), e)));
    assert(block_loop(t, e, seq![Block::Paragraph(seq![n])]) == Some(seq![Block::Paragraph(seq![n])]));
}

proof fn lemma_simple_single_item(t: Seq<TokenView>, n: Inline)
    requires
        t.len() >= 2,
        forall|k: int| 0 <= k < t.len() ==> !((#[trigger] t[k]).token_type is Delimiter),
        t[t.len() - 1].token_type == TokenType::Eof,
        t[0].token_type != TokenType::Eof,
        t[0].token_type != TokenType::NewLine,
        t[0].token_type != TokenType::Hash,
        !(n is Text),
        inline_item(t, 0) == Some((n, t.len() - 1)),
    ensures
        document(t, 0) == Some(seq![Block::Paragraph(seq![n])]),
{
    lemma_delim_loop_plain(t, Seq::empty(), 0);
    lemma_simple_single_item_resolved(t, t, n);
}

/// With this parser, `[w](d)` is one paragraph holding a link to `d` whose content is the text
/// `w`.
pub proof fn lemma_simple_link_line(w: Seq<char>, d: Seq<char>)
    requires
        is_word(w),
        is_word(d),
        w.len() + d.len() + 4 < usize::MAX,
    ensures
        document(scan(seq!['['] + w + seq![']', '('] + d + seq![')']), 0) == Some(
            seq![Block::Paragraph(seq![Inline::Link { content: seq![Inline::Text(w)], dest: d }])],
        ),
{
    let src = seq!['['] + w + seq![']', '('] + d + seq![')'];
    let n = w.len() as int;
    let m = d.len() as int;
    assert(src[0] == '[' && src[n + 1] == ']' && src[n + 2] == '(' && src[n + m + 3] == ')');
    assert(src.subrange(1, n + 1) =~= w);
    assert(src.subrange(n + 3, n + m + 3) =~= d);
    lemma_word_in(src, w, 1, 1);
    lemma_word_in(src, d, n + 3, 1);
    let t0 = tok(TokenType::OpeningBracket, src.subrange(0, 1), 1, 0);
    let t1 = tok(TokenType::Content, w, 1, 1);
    let t2 = tok(TokenType::ClosingBracket, src.subrange(n + 1, n + 2), 1, n + 1);
    let t3 = tok(TokenType::OpeningParenthesis, src.subrange(n + 2, n + 3), 1, n + 2);
    let t4 = tok(TokenType::Content, d, 1, n + 3);
    let t5 = tok(TokenType::ClosingParenthesis, src.subrange(n + m + 3, n + m + 4), 1, n + m + 3);
    assert(scan_step(src, 0, 1) == (Some(t0), 1int, 1int));
    assert(scan_step(src, n + 1, 1) == (Some(t2), n + 2, 1int));
    assert(scan_step(src, n + 2, 1) == (Some(t3), n + 3, 1int));
    assert(scan_step(src, n + m + 3, 1) == (Some(t5), n + m + 4, 1int));
    assert(scan_from(src, n + m + 4, 1, n + m + 3) == (Seq::<TokenView>::empty(), n + m + 3, 1int));
    assert(scan_from(src, n + m + 3, 1, n + 3).0 =~= seq![t5]);
    assert(scan_from(src, n + 3, 1, n + 2).0 =~= seq![t4, t5]);
    assert(scan_from(src, n + 2, 1, n + 1).0 =~= seq![t3, t4, t5]);
    assert(scan_from(src, n + 1, 1, 1).0 =~= seq![t2, t3, t4, t5]);
    assert(scan_from(src, 1, 1, 0).0 =~= seq![t1, t2, t3, t4, t5]);
    assert(scan_from(src, 0, 1, 0).0 =~= seq![t0, t1, t2, t3, t4, t5]);
    let t = scan(src);
    assert(t =~= seq![t0, t1, t2, t3, t4, t5, tok(TokenType::Eof, Seq::empty(), 1, n + m + 3)]);
    lemma_word_not_blank(w);
    let text = Inline::Text(w);
    lemma_stops_without(seq![TokenType::ClosingBracket], TokenType::Content);
    assert(seq![TokenType::ClosingBracket].contains(TokenType::ClosingBracket)) by {
        assert(seq![TokenType::ClosingBracket][0] == TokenType::ClosingBracket);
    }
    assert(inline_item(t, 1) == Some((text, 2int)));
    assert(add_inline(Seq::empty(), text) =~= seq![text]);
    assert(inline_loop(t, 2, seq![TokenType::ClosingBracket], seq![text]) == Some((seq![text], 2int)));
    assert(inline_loop(t, 1, seq![TokenType::ClosingBracket], Seq::empty()) == Some((seq![text], 2int)));
    assert(destination(t, 5) == Some((Seq::<char>::empty(), 5int)));
    assert(d + Seq::<char>::empty() =~= d);
    assert(destination(t, 4) == Some((d, 5int)));
    let l = Inline::Link { content: seq![text], dest: d };
    assert(link(t, 1) == Some((l, 6int)));
    assert(inline_item(t, 0) == Some((l, 6int)));
    lemma_simple_single_item(t, l);
}

/// With this parser, `# w` is one heading of level 1 that holds the text `w`.
pub proof fn lemma_simple_heading_line(w: Seq<char>)
    requires
        is_word(w),
        w.len() + 2 < usize::MAX,
    ensures
        document(scan(seq!['#', ' '] + w), 0) == Some(seq![Block::Heading { level: 1, content: seq![Inline::Text(w)] }]),
{
    let src = seq!['#', ' '] + w;
    let n = w.len() as int;
    assert(src[0] == '#' && src[1] == ' ');
    assert(src.subrange(2, n + 2) =~= w);
    lemma_word_in(src, w, 2, 1);
    let t0 = tok(TokenType::Hash, src.subrange(0, 1), 1, 0);
    let t1 = tok(TokenType::Whitespace, seq![' '], 1, 1);
    let t2 = tok(TokenType::Content, w, 1, 2);
    assert(scan_step(src, 0, 1) == (Some(t0), 1int, 1int));
    assert(scan_step(src, 1, 1) == (Some(t1), 2int, 1int));
    assert(scan_from(src, n + 2, 1, 2) == (Seq::<TokenView>::empty(), 2int, 1int));
    assert(scan_from(src, 2, 1, 1).0 =~= seq![t2]);
    assert(scan_from(src, 1, 1, 0).0 =~= seq![t1, t2]);
    assert(scan_from(src, 0, 1, 0).0 =~= seq![t0, t1, t2]);
    assert(scan_from(src, 0, 1, 0).1 == 2);
    let t = scan(src);
    assert(t =~= seq![t0, t1, t2, tok(TokenType::Eof, Seq::empty(), 1, 2)]);
    lemma_delim_loop_plain(t, Seq::empty(), 0);
    let stops = seq![TokenType::NewLine];
    lemma_stops_without(stops, TokenType::Whitespace);
    lemma_stops_without(stops, TokenType::Content);
    lemma_word_not_blank(w);
    assert(all_whitespace(seq![' ']));
    assert(inline_item(t, 1) == Some((Inline::Text(seq![' ']), 2int)));
    assert(add_inline(Seq::empty(), Inline::Text(seq![' '])) == Seq::<Inline>::empty());
    assert(inline_item(t, 2) == Some((Inline::Text(w), 3int)));
    assert(add_inline(Seq::empty(), Inline::Text(w)) =~= seq![Inline::Text(w)]);
    assert(inline_loop(t, 3, stops, seq![Inline::Text(w)]) == Some((seq![Inline::Text(w)], 3int)));
    assert(inline_loop(t, 2, stops, Seq::empty()) == Some((seq![Inline::Text(w)], 3int)));
    assert(inline_loop(t, 1, stops, Seq::empty()) == Some((seq![Inline::Text(w)], 3int)));
    assert(skip_kind(t, 1, TokenType::Hash) == Some(1int));
    assert(step_over(t, 3) == Some(3int));
    let h = Block::Heading { level: 1, content: seq![Inline::Text(w)] };
    assert(heading(t, 1) == Some((h, 3int)));
    assert(block_loop(t, 3, seq![h]) == Some(seq![h]));
    assert(block_loop(t, 0, Seq::empty()) == Some(seq![h]));
}

proof fn lemma_simple_starred_line(w: Seq<char>, m: int)
    requires
        is_word(w),
        is_alphanumeric(w.last()),
        m == 1 || m == 2,
        w.len() + 4 < usize::MAX,
    ensures
        document(scan(stars(m) + w + stars(m)), 0) == Some(seq![Block::Paragraph(seq![
            if m == 2 { Inline::Strong(seq![Inline::Text(w)]) } else { Inline::Emphasis(seq![Inline::Text(w)]) },
        ])]),
{
    let t = scan(stars(m) + w + stars(m));
    lemma_scan_starred(w, m);
    let strong = m == 2;
    let open = if strong { TokenType::OpenStrong } else { TokenType::OpenEmphasis };
    let close = if strong { TokenType::CloseStrong } else { TokenType::CloseEmphasis };
    let s0 = Seq::<StackEntry>::empty();
    let e0 = StackEntry { position: 0, length: m, can_open: true };
    let s1 = s0.push(e0);
    assert(delim_step(t, s0, 0) == Some((t, s1, 1int)));
    assert(delim_step(t, s1, 1) == Some((t, s1, 2int)));
    let t1 = t.update(0, with_kind(t[0], open, emphasis_lexeme(strong)));
    let t2 = t1.update(2, with_kind(t1[2], close, t1[2].lexeme));
    assert(apply_emphasis(t, 0, strong, 2) == Some((t2, 2int)));
    let s2 = s1.update(0, StackEntry { position: 0, length: 0, can_open: true });
    assert(s2.remove(0) =~= Seq::<StackEntry>::empty());
    assert(close_loop(t2, Seq::<StackEntry>::empty(), 2, 0, false) == Some((t2, Seq::<StackEntry>::empty(), 2int)));
    assert(close_loop(t, s1, 2, m, false) == Some((t2, Seq::<StackEntry>::empty(), 2int)));
    assert(delim_step(t, s1, 2) == Some((t2, Seq::<StackEntry>::empty(), 3int)));
    assert(delim_step(t2, Seq::<StackEntry>::empty(), 3) == Some((t2, Seq::<StackEntry>::empty(), 4int)));
    assert(delim_loop(t2, Seq::<StackEntry>::empty(), 4) == Some(t2));
    assert(delim_loop(t2, Seq::<StackEntry>::empty(), 3) == Some(t2));
    assert(delim_loop(t, s1, 2) == Some(t2));
    assert(delim_loop(t, s1, 1) == Some(t2));
    assert(delim_loop(t, s0, 0) == Some(t2));
    let text = Inline::Text(w);
    lemma_word_not_blank(w);
    lemma_stops_without(seq![close], TokenType::Content);
    assert(seq![close].contains(close)) by {
        assert(seq![close][0] == close);
    }
    assert(inline_item(t2, 1) == Some((text, 2int)));
    assert(add_inline(Seq::empty(), text) =~= seq![text]);
    assert(inline_loop(t2, 2, seq![close], seq![text]) == Some((seq![text], 2int)));
    assert(inline_loop(t2, 1, seq![close], Seq::empty()) == Some((seq![text], 2int)));
    assert(span(t2, 1, close) == Some((seq![text], 3int)));
    let n = if strong { Inline::Strong(seq![text]) } else { Inline::Emphasis(seq![text]) };
    assert(inline_item(t2, 0) == Some((n, 3int)));
    lemma_simple_single_item_resolved(t, t2, n);
}

/// With this parser, `*w*` (with `w` letters, digits and spaces that starts and ends with a
/// letter or digit) is one paragraph holding `w` with emphasis, and `**w**` one holding `w`
/// with strong emphasis.
pub proof fn lemma_simple_emphasis_lines(w: Seq<char>)
    requires
        is_word(w),
        is_alphanumeric(w.last()),
        w.len() + 4 < usize::MAX,
    ensures
        document(scan(seq!['*'] + w + seq!['*']), 0) == Some(
            seq![Block::Paragraph(seq![Inline::Emphasis(seq![Inline::Text(w)])])],
        ),
        document(scan(seq!['*', '*'] + w + seq!['*', '*']), 0) == Some(
            seq![Block::Paragraph(seq![Inline::Strong(seq![Inline::Text(w)])])],
        ),
{
    assert(stars(1) =~= seq!['*']);
    assert(stars(2) =~= seq!['*', '*']);
    lemma_simple_starred_line(w, 1);
    lemma_simple_starred_line(w, 2);
}

} // verus!
