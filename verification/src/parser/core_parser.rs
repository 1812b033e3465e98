//! The markdown parser: marks matching emphasis delimiters, then reads blocks and inline
//! content from the tokens.
use vstd::prelude::*;
use vstd::pervasive::VecAdditionalExecFns;
use crate::lexer::token::{Token, TokenType, TokenView, tokens_view};
use crate::parser::grammar::{block_loop, block_step, code_block, document, find_block_fence, heading, line_stop, para_loop, paragraph, adv, all_whitespace, at_end, backtick, check, collect_until, concat_lexemes, count_run, find_fence, inline_item, inline_loop, in_line_until, kind_at, lemma_count_run, link, peek_match, push_text, repeat_char, span, strip_code, text_item, DelimView, apply_emphasis, can_shift_down, can_shift_up, delim_loop, emphasis_lexeme, lemma_delim_step, match_delims, remove_delim, resolve_delimiters, set_length, shift_down, shift_up, truncate_lexeme};
use crate::parser::markdown_node::{Block, MarkdownNode, blocks_view};
use crate::parser::in_line_node::{lemma_inlines_view_add, InLineNode, Inline, inline_view, inlines_view, lemma_inlines_view_push, lemma_inlines_view_update};
use crate::text::{chars_of, is_whitespace, push_char, push_str, string_of_range};

verus! {

pub struct Parser {
    tokens: Vec<Token>,
    current: usize,
}

/// The tokens a parser holds and the position it has reached.
pub struct ParserView {
    pub tokens: Seq<TokenView>,
    pub current: int,
}

impl View for Parser {
    type V = ParserView;

    closed spec fn view(&self) -> ParserView {
        ParserView { tokens: tokens_view(self.tokens@), current: self.current as int }
    }
}

struct StackDelimiter {
    position: usize,
    length: usize,
    can_open: bool,
}

impl View for StackDelimiter {
    type V = DelimView;

    closed spec fn view(&self) -> DelimView {
        DelimView { position: self.position as int, length: self.length as int, can_open: self.can_open }
    }
}

spec fn stack_view(s: Seq<StackDelimiter>) -> Seq<DelimView> {
    s.map_values(|d: StackDelimiter| d@)
}

#[derive(PartialEq, Eq, Structural)]
enum EmphasisKind {
    Emphasis,
    Strong,
}

/// `**` for strong emphasis, `*` otherwise.
pub(crate) fn emphasis_text(strong: bool) -> (s: String)
    ensures
        s@ == emphasis_lexeme(strong),
{
    let mut s = String::new();
    push_char(&mut s, '*');
    if strong {
        push_char(&mut s, '*');
    }
    assert(s@ =~= emphasis_lexeme(strong));
    s
}

/// Moves the positions after `op` up by `by`; false if one would pass `usize::MAX`.
fn shift_positions_up(stack: &mut Vec<StackDelimiter>, op: usize, by: usize) -> (ok: bool)
    ensures
        ok == can_shift_up(stack_view(old(stack)@), op as int, by as int),
        ok ==> stack_view(final(stack)@) == shift_up(stack_view(old(stack)@), op as int, by as int),
{
    let ghost s1 = stack_view(stack@);
    let mut k: usize = 0;
    while k < stack.len()
        invariant
            0 <= k <= stack.len(),
            stack.len() == s1.len(),
            s1 == stack_view(old(stack)@),
            forall|m: int| k <= m < stack.len() ==> (#[trigger] stack_view(stack@)[m]) == s1[m],
            forall|m: int| 0 <= m < k ==> (#[trigger] stack_view(stack@)[m]) == shift_up(s1, op as int, by as int)[m],
            forall|m: int| 0 <= m < k && s1[m].position > op ==> s1[m].position + by <= usize::MAX,
        decreases stack.len() - k,
    {
        let ghost before = stack_view(stack@);
        assert(before[k as int] == s1[k as int]);
        let d = &stack[k];
        if d.position > op {
            if d.position > usize::MAX - by {
                assert(s1[k as int].position > op && s1[k as int].position + by > usize::MAX);
                return false;
            }
            let nd = StackDelimiter { position: d.position + by, length: d.length, can_open: d.can_open };
            stack.set(k, nd);
            assert(stack_view(stack@) =~= before.update(k as int, nd@));
        }
        k += 1;
    }
    assert(stack_view(stack@) =~= shift_up(s1, op as int, by as int));
    true
}

/// Moves the positions of the entries from `from` on down by one; false if one is zero.
fn shift_positions_down(stack: &mut Vec<StackDelimiter>, from: usize) -> (ok: bool)
    requires
        from <= old(stack).len(),
    ensures
        ok == can_shift_down(stack_view(old(stack)@), from as int),
        ok ==> stack_view(final(stack)@) == shift_down(stack_view(old(stack)@), from as int),
{
    let ghost s = stack_view(stack@);
    let mut m = from;
    while m < stack.len()
        invariant
            from <= m <= stack.len(),
            stack.len() == s.len(),
            s == stack_view(old(stack)@),
            forall|x: int| 0 <= x < stack.len() ==> (#[trigger] stack_view(stack@)[x]) == (if from <= x < m {
                shift_down(s, from as int)[x]
            } else {
                s[x]
            }),
            forall|x: int| from <= x < m ==> s[x].position >= 1,
        decreases stack.len() - m,
    {
        let ghost before = stack_view(stack@);
        assert(before[m as int] == s[m as int]);
        let d = &stack[m];
        if d.position == 0 {
            assert(s[m as int].position < 1);
            return false;
        }
        let nd = StackDelimiter { position: d.position - 1, length: d.length, can_open: d.can_open };
        stack.set(m, nd);
        assert(stack_view(stack@) =~= before.update(m as int, nd@));
        m += 1;
    }
    assert(stack_view(stack@) =~= shift_down(s, from as int));
    true
}

impl Parser {
    pub fn new(tokens: Vec<Token>) -> (p: Self)
        ensures
            p@.tokens == tokens_view(tokens@),
            p@.current == 0,
    {
        Parser { tokens, current: 0 }
    }

    /// Marks matching runs of `*` and `_` as opening and closing emphasis tokens; the tokens
    /// are ones on which the pass finishes.
    fn parse_delimiters(&mut self)
        requires
            resolve_delimiters(old(self)@.tokens) is Some,
        ensures
            final(self)@.tokens == resolve_delimiters(old(self)@.tokens)->0,
            final(self).current == old(self).current,
    {
        self.try_parse_delimiters();
    }

    /// The delimiter pass on any tokens. Returns false, with the tokens in an unspecified
    /// state, exactly on the inputs where the pass cannot finish (`resolve_delimiters` is
    /// none there), among them a closing run reached with no run below it on the stack.
    fn try_parse_delimiters(&mut self) -> (ok: bool)
        ensures
            ok == resolve_delimiters(old(self)@.tokens) is Some,
            ok ==> final(self)@.tokens == resolve_delimiters(old(self)@.tokens)->0,
            final(self).current == old(self).current,
    {
        let mut stack: Vec<StackDelimiter> = Vec::new();
        let ghost goal = resolve_delimiters(self@.tokens);
        let mut i: usize = 0;
        assert(stack_view(stack@) =~= Seq::<DelimView>::empty());
        while i < self.tokens.len()
            invariant
                self.current == old(self).current,
                goal == resolve_delimiters(old(self)@.tokens),
                delim_loop(self@.tokens, stack_view(stack@), i as int) == goal,
            decreases self.tokens.len() - i,
        {
            let ghost t = self@.tokens;
            let ghost s = stack_view(stack@);
            proof {
                lemma_delim_step(t, s, i as int);
            }
            match self.tokens[i].token_type {
                TokenType::Delimiter { length, can_open, can_close } => {
                    stack.push(StackDelimiter { position: i, length, can_open });
                    assert(stack_view(stack@) =~= s.push(DelimView { position: i as int, length: length as int, can_open }));
                    if can_close {
                        let j = stack.len() - 1;
                        if j == 0 {
                            return false;
                        }
                        let opener_stack_position = j - 1;
                        let opener_position = stack[opener_stack_position].position;
                        let opener_can_open = stack[opener_stack_position].can_open;

                        if opener_position == i {
                            i += 1;
                            continue;
                        }
                        if opener_can_open {
                            if !self.match_delimiters(&mut stack, &mut i, length) {
                                return false;
                            }
                        }
                    }
                },
                _ => {},
            }
            i += 1;
        }
        true
    }

    /// Marks the emphasis between the opener just below the top of `stack` and the closing
    /// delimiter at `*i` (the top entry), and removes the runs that are spent.
    #[verifier::loop_isolation(false)]
    fn match_delimiters(&mut self, stack: &mut Vec<StackDelimiter>, i: &mut usize, length: usize) -> (ok: bool)
        requires
            old(stack).len() >= 2,
            old(stack)@.last().position == *old(i),
            old(stack)@.last().length == length,
        ensures
            final(self).current == old(self).current,
            match match_delims(old(self)@.tokens, stack_view(old(stack)@), *old(i) as int, length as int) {
                None => !ok,
                Some((t2, s2, i2)) => ok && final(self)@.tokens == t2 && stack_view(final(stack)@) == s2
                    && *final(i) as int == i2 && i2 + 1 <= usize::MAX,
            },
    {
        let ghost t = self@.tokens;
        let ghost s1 = stack_view(stack@);
        let j = stack.len() - 1;
        let opener_stack_position = j - 1;
        let opener_length = stack[opener_stack_position].length;
        let opener_position = stack[opener_stack_position].position;
        let use_len: usize = if length >= 2 && opener_length >= 2 {
            2
        } else {
            1
        };
        let kind = if use_len == 2 {
            EmphasisKind::Strong
        } else {
            EmphasisKind::Emphasis
        };
        let shift = match self.apply_emphasis(opener_position, kind, i) {
            Some(sh) => sh,
            None => {
                return false;
            },
        };
        // positions after the opener move past the inserted tokens
        let by = 1 + shift;
        if !shift_positions_up(stack, opener_position, by) {
            return false;
        }
        assert(stack_view(stack@) =~= shift_up(s1, opener_position as int, by as int));
        let ghost t2 = self@.tokens;
        let ghost s2 = stack_view(stack@);
        if stack[j].length < use_len {
            return false;
        }
        let nl = stack[j].length - use_len;
        let pj = stack[j].position;
        if pj >= self.tokens.len() {
            return false;
        }
        stack.set(j, StackDelimiter { position: pj, length: nl, can_open: stack[j].can_open });
        assert(stack_view(stack@) =~= s2.update(j as int, set_length(s2[j as int], nl as int)));
        self.truncate_lexeme(pj, nl);
        if nl == 0 {
            if !self.remove_delimiter(stack, j, i) {
                return false;
            }
        }
        if stack[opener_stack_position].length < use_len {
            return false;
        }
        let ol = stack[opener_stack_position].length - use_len;
        let ghost s4 = stack_view(stack@);
        let d = StackDelimiter {
            position: stack[opener_stack_position].position,
            length: ol,
            can_open: stack[opener_stack_position].can_open,
        };
        stack.set(opener_stack_position, d);
        assert(stack_view(stack@) =~= s4.update(opener_stack_position as int, set_length(s4[opener_stack_position as int], ol as int)));
        if ol == 0 {
            if !self.remove_delimiter(stack, opener_stack_position, i) {
                return false;
            }
        }
        true
    }

    /// Keeps the first `n` characters of the lexeme of token `p`.
    fn truncate_lexeme(&mut self, p: usize, n: usize)
        requires
            p < old(self).tokens.len(),
        ensures
            final(self)@.tokens == truncate_lexeme(old(self)@.tokens, p as int, n as int),
            final(self).current == old(self).current,
    {
        let mut tk = self.tokens[p].duplicate();
        let chars = chars_of(tk.lexeme.as_str());
        let keep = if n < chars.len() {
            n
        } else {
            chars.len()
        };
        tk.lexeme = string_of_range(&chars, 0, keep);
        let ghost old_tokens = self.tokens@;
        self.tokens.set(p, tk);
        assert(tokens_view(self.tokens@) =~= truncate_lexeme(tokens_view(old_tokens), p as int, n as int));
    }

    /// Removes the token of stack entry `k`, moves the later entries down by one and removes
    /// the entry.
    #[verifier::loop_isolation(false)]
    fn remove_delimiter(&mut self, stack: &mut Vec<StackDelimiter>, k: usize, i: &mut usize) -> (ok: bool)
        requires
            k < old(stack).len(),
        ensures
            final(self).current == old(self).current,
            match remove_delim(old(self)@.tokens, stack_view(old(stack)@), k as int, *old(i) as int) {
                None => !ok,
                Some((t2, s2, i2)) => ok && final(self)@.tokens == t2 && stack_view(final(stack)@) == s2
                    && *final(i) as int == i2,
            },
    {
        let ghost s = stack_view(stack@);
        let p = stack[k].position;
        if p >= self.tokens.len() {
            return false;
        }
        if !shift_positions_down(stack, k + 1) {
            return false;
        }
        if *i == 0 {
            return false;
        }
        let ghost old_tokens = self.tokens@;
        self.tokens.remove(p);
        assert(tokens_view(self.tokens@) =~= tokens_view(old_tokens).remove(p as int));
        let ghost s_shifted = stack_view(stack@);
        stack.remove(k);
        assert(stack_view(stack@) =~= s_shifted.remove(k as int));
        *i = *i - 1;
        true
    }

    /// Inserts the opening token after the opener at `opener_pos` and the closing token before
    /// the delimiter at `*i`; returns how far the opening token was shifted.
    fn apply_emphasis(&mut self, opener_pos: usize, kind: EmphasisKind, i: &mut usize) -> (shift: Option<usize>)
        ensures
            final(self).current == old(self).current,
            match apply_emphasis(old(self)@.tokens, opener_pos as int, kind == EmphasisKind::Strong, *old(i) as int) {
                None => shift is None,
                Some((t2, i2, sh)) => shift == Some(sh as usize) && final(self)@.tokens == t2 && *final(i) as int == i2
                    && 1 <= sh <= 2,
            },
    {
        let strong = kind == EmphasisKind::Strong;
        let (open, close) = match kind {
            EmphasisKind::Emphasis => (TokenType::OpenEmphasis, TokenType::CloseEmphasis),
            EmphasisKind::Strong => (TokenType::OpenStrong, TokenType::CloseStrong),
        };
        if opener_pos >= self.tokens.len() || opener_pos + 1 >= self.tokens.len() {
            return None;
        }
        let ghost t = self@.tokens;
        // open
        let mut shift: usize = 0;
        let mut new_token = self.tokens[opener_pos].duplicate();
        new_token.token_type = open;
        new_token.lexeme = emphasis_text(strong);

        let next = self.tokens[opener_pos + 1].token_type;
        let new_opener_pos = if next == TokenType::CloseEmphasis || next == TokenType::CloseStrong {
            shift += 1;
            opener_pos + 2
        } else {
            opener_pos + 1
        };

        shift += 1;
        let ghost nt = new_token@;
        self.tokens.insert(new_opener_pos, new_token);
        assert(tokens_view(self.tokens@) =~= t.insert(new_opener_pos as int, nt));
        if *i >= self.tokens.len() - 1 {
            return None;
        }
        *i += 1;

        // close
        let ghost t1 = self@.tokens;
        let mut close_token = self.tokens[*i].duplicate();
        close_token.token_type = close;
        close_token.lexeme = emphasis_text(strong);
        let ghost ct = close_token@;
        self.tokens.insert(*i, close_token);
        assert(tokens_view(self.tokens@) =~= t1.insert(*i as int, ct));
        *i += 1;

        Some(shift)
    }
}


/// A paragraph that starts on a token other than the end or a newline consumes something.
pub proof fn lemma_para_loop_progress(t: Seq<TokenView>, cur: int, acc: Seq<Inline>)
    requires
        0 <= cur,
    ensures
        para_loop(t, cur, acc) matches Some((_, c)) ==> cur <= c && (!at_end(t, cur) && !check(t, cur,
            TokenType::NewLine) ==> cur < c),
    decreases t.len() - cur,
{
    if !at_end(t, cur) && !check(t, cur, TokenType::NewLine) {
        match in_line_until(t, cur, seq![TokenType::NewLine, TokenType::HorizontalRule]) {
            None => {},
            Some((content, c2)) => {
                let lb = kind_at(t, c2) == TokenType::NewLine && kind_at(t, c2 + 1) == TokenType::NewLine;
                let c3 = if lb { adv(t, c2) } else { c2 };
                let content2 = if !at_end(t, c3) && !lb { push_text(content, seq![' ']) } else { content };
                if !(c3 <= cur || c3 > t.len()) {
                    lemma_para_loop_progress(t, c3, acc + content2);
                }
            },
        }
    }
}

pub proof fn lemma_collect_until_bounds(t: Seq<TokenView>, cur: int, stops: Seq<TokenType>)
    requires
        0 <= cur <= t.len(),
    ensures
        cur <= collect_until(t, cur, stops).1 <= t.len(),
    decreases t.len() - cur,
{
    if !(cur < 0 || at_end(t, cur) || peek_match(t, cur, stops)) {
        lemma_collect_until_bounds(t, cur + 1, stops);
    }
}

/// True when every character of `s` is whitespace.
pub fn is_blank(s: &str) -> (r: bool)
    ensures
        r == all_whitespace(s@),
{
    let chars = chars_of(s);
    let mut i: usize = 0;
    while i < chars.len()
        invariant
            chars@ == s@,
            i <= chars.len(),
            forall|k: int| 0 <= k < i ==> crate::text::spec_is_whitespace(#[trigger] s@[k]),
        decreases chars.len() - i,
    {
        if !is_whitespace(chars[i]) {
            return false;
        }
        i += 1;
    }
    true
}

/// Adds text to a list of inline nodes: it joins a text node at the end, starts a new one
/// otherwise, and is dropped when it is blank and the list is still empty.
pub fn push_text_node(nodes: &mut Vec<InLineNode>, lexeme: String)
    ensures
        inlines_view(final(nodes)@) == push_text(inlines_view(old(nodes)@), lexeme@),
{
    let ghost v = inlines_view(nodes@);
    if is_blank(lexeme.as_str()) && nodes.len() == 0 {
        return;
    }
    let n = nodes.len();
    if n > 0 {
        let last = match &nodes[n - 1] {
            InLineNode::Text(last_text) => Some(last_text.clone()),
            _ => None,
        };
        assert(v[n - 1] == inline_view(nodes@[n - 1]));
        if let Some(mut text) = last {
            push_str(&mut text, lexeme.as_str());
            let ghost old_nodes = nodes@;
            let node = InLineNode::Text(text);
            nodes.set(n - 1, node);
            proof {
                lemma_inlines_view_update(old_nodes, n - 1, node);
            }
            return;
        }
    }
    let ghost old_nodes = nodes@;
    let node = InLineNode::Text(lexeme);
    nodes.push(node);
    proof {
        lemma_inlines_view_push(old_nodes, node);
    }
}

impl Parser {
    fn is_at_end(&self) -> (r: bool)
        ensures
            r == at_end(self@.tokens, self@.current),
    {
        let t = self.peek();
        t.token_type == TokenType::Eof
    }

    fn peek(&self) -> (t: Token)
        ensures
            t.token_type == kind_at(self@.tokens, self@.current),
            0 <= self@.current < self@.tokens.len() ==> t@ == self@.tokens[self@.current],
    {
        if self.current < self.tokens.len() {
            self.tokens[self.current].duplicate()
        } else {
            Token { token_type: TokenType::Eof, lexeme: String::new(), line: self.current, pos: 0 }
        }
    }

    fn peek_next(&self) -> (t: Token)
        ensures
            t.token_type == kind_at(self@.tokens, self@.current + 1),
    {
        if self.current < self.tokens.len() && self.current + 1 < self.tokens.len() {
            self.tokens[self.current + 1].duplicate()
        } else {
            Token { token_type: TokenType::Eof, lexeme: String::new(), line: self.current, pos: 0 }
        }
    }

    fn previous(&self) -> (t: Token)
        requires
            1 <= self@.current <= self@.tokens.len(),
        ensures
            t@ == self@.tokens[self@.current - 1],
    {
        self.tokens[self.current - 1].duplicate()
    }

    fn check(&self, token_type: TokenType) -> (r: bool)
        ensures
            r == check(self@.tokens, self@.current, token_type),
    {
        if !self.is_at_end() {
            return self.peek().token_type == token_type;
        }
        false
    }

    fn advance(&mut self) -> (t: Token)
        requires
            !at_end(old(self)@.tokens, old(self)@.current) || 1 <= old(self)@.current <= old(self)@.tokens.len(),
        ensures
            final(self)@.tokens == old(self)@.tokens,
            final(self)@.current == adv(old(self)@.tokens, old(self)@.current),
            t@ == old(self)@.tokens[final(self)@.current - 1],
    {
        if !self.is_at_end() {
            assert(self@.tokens.len() == self.tokens.len());
            self.current += 1;
        }
        self.previous()
    }

    fn peek_match_tokens(&self, types: &[TokenType]) -> (r: bool)
        ensures
            r == peek_match(self@.tokens, self@.current, types@),
    {
        let mut k: usize = 0;
        while k < types.len()
            invariant
                k <= types.len(),
                forall|m: int| 0 <= m < k ==> !check(self@.tokens, self@.current, #[trigger] types@[m]),
            decreases types.len() - k,
        {
            if self.check(types[k]) {
                return true;
            }
            k += 1;
        }
        proof {
            if peek_match(self@.tokens, self@.current, types@) {
                let m = types@.index_of(kind_at(self@.tokens, self@.current));
                assert(!check(self@.tokens, self@.current, types@[m]));
            }
        }
        false
    }

    fn match_tokens(&mut self, types: &[TokenType]) -> (r: bool)
        ensures
            r == peek_match(old(self)@.tokens, old(self)@.current, types@),
            final(self)@.tokens == old(self)@.tokens,
            final(self)@.current == old(self)@.current + if r { 1int } else { 0int },
    {
        if self.peek_match_tokens(types) {
            self.advance();
            return true;
        }
        false
    }

    /// Takes the current token, which is of kind `token_type`.
    fn consume(&mut self, token_type: TokenType) -> (t: Token)
        requires
            check(old(self)@.tokens, old(self)@.current, token_type),
        ensures
            final(self)@.tokens == old(self)@.tokens,
            final(self)@.current == old(self)@.current + 1,
            t@ == old(self)@.tokens[old(self)@.current],
    {
        self.advance()
    }

    fn count_consecutive_tokens(&self, start_idx: usize, token_type: TokenType) -> (count: usize)
        ensures
            count == count_run(self@.tokens, start_idx as int, token_type),
    {
        proof {
            lemma_count_run(self@.tokens, start_idx as int, token_type);
        }
        let mut count: usize = 0;
        let mut idx = start_idx;
        while idx < self.tokens.len() && self.tokens[idx].token_type == token_type
            invariant
                idx == start_idx + count,
                count_run(self@.tokens, start_idx as int, token_type) == count + count_run(self@.tokens, idx as int, token_type),
            decreases self.tokens.len() - idx,
        {
            count += 1;
            idx += 1;
        }
        count
    }

    fn collect_until(&mut self, stop_tokens: &[TokenType]) -> (result: String)
        ensures
            final(self)@.tokens == old(self)@.tokens,
            (result@, final(self)@.current) == collect_until(old(self)@.tokens, old(self)@.current, stop_tokens@),
    {
        let mut result = String::new();
        let ghost goal = collect_until(self@.tokens, self@.current, stop_tokens@);
        while !self.is_at_end() && !self.peek_match_tokens(stop_tokens)
            invariant
                self@.tokens == old(self)@.tokens,
                old(self)@.current <= self@.current,
                goal == collect_until(old(self)@.tokens, old(self)@.current, stop_tokens@),
                ({
                    let (rest, c) = collect_until(self@.tokens, self@.current, stop_tokens@);
                    result@ + rest == goal.0 && c == goal.1
                }),
            decreases self@.tokens.len() - self@.current,
        {
            let ghost before = result@;
            let ghost cur = self@.current;
            let tk = self.advance();
            push_str(&mut result, tk.lexeme.as_str());
            proof {
                let (rest, c) = collect_until(self@.tokens, self@.current, stop_tokens@);
                assert(before + (self@.tokens[cur].lexeme + rest) =~= result@ + rest);
            }
        }
        proof {
            let (rest, c) = collect_until(self@.tokens, self@.current, stop_tokens@);
            assert(result@ + rest =~= result@);
        }
        result
    }
}


/// `c` repeated `n` times.
fn repeat_char_string(c: char, n: usize) -> (s: String)
    ensures
        s@ == repeat_char(c, n as int),
{
    let mut s = String::new();
    let mut k: usize = 0;
    while k < n
        invariant
            k <= n,
            s@ == repeat_char(c, k as int),
        decreases n - k,
    {
        push_char(&mut s, c);
        k += 1;
        assert(s@ =~= repeat_char(c, k as int));
    }
    s
}

/// Inline code text loses one space at each end when it has a space at both ends and is not
/// blank.
fn strip_code_text(content: String) -> (s: String)
    ensures
        s@ == strip_code(content@),
{
    let chars = chars_of(content.as_str());
    let n = chars.len();
    if n > 0 && chars[0] == ' ' && chars[n - 1] == ' ' && !is_blank(content.as_str()) {
        string_of_range(&chars, 1, n - 1)
    } else {
        content
    }
}

/// A list holding one node.
fn single(n: InLineNode) -> (v: Vec<InLineNode>)
    ensures
        inlines_view(v@) == seq![inline_view(n)],
{
    let mut v = Vec::new();
    v.push(n);
    assert(inlines_view(v@) =~= seq![inline_view(n)]);
    v
}

impl Parser {
    /// The lexemes of tokens `a..b`, one after another.
    fn concat_lexemes(&self, a: usize, b: usize) -> (s: String)
        requires
            a <= b <= self@.tokens.len(),
        ensures
            s@ == concat_lexemes(self@.tokens, a as int, b as int),
    {
        let mut s = String::new();
        let mut k = a;
        while k < b
            invariant
                a <= k <= b <= self@.tokens.len(),
                s@ == concat_lexemes(self@.tokens, a as int, k as int),
            decreases b - k,
        {
            push_str(&mut s, self.tokens[k].lexeme.as_str());
            k += 1;
        }
        s
    }

    fn in_line_until(&mut self, stop_tokens: &[TokenType]) -> (r: Option<Vec<InLineNode>>)
        requires
            old(self)@.current <= old(self)@.tokens.len(),
        ensures
            final(self)@.tokens == old(self)@.tokens,
            r is Some ==> old(self)@.current <= final(self)@.current <= final(self)@.tokens.len(),
            match in_line_until(old(self)@.tokens, old(self)@.current, stop_tokens@) {
                None => r is None,
                Some((nodes, c)) => r matches Some(v) && inlines_view(v@) == nodes && final(self)@.current == c,
            },
        decreases old(self)@.tokens.len() - old(self)@.current, 1int,
    {
        let mut nodes: Vec<InLineNode> = Vec::new();
        let ghost goal = in_line_until(self@.tokens, self@.current, stop_tokens@);
        assert(inlines_view(nodes@) =~= Seq::<Inline>::empty());
        while !self.is_at_end() && !self.peek_match_tokens(stop_tokens)
            invariant
                self@.tokens == old(self)@.tokens,
                old(self)@.current <= self@.current <= self@.tokens.len(),
                goal == in_line_until(old(self)@.tokens, old(self)@.current, stop_tokens@),
                inline_loop(self@.tokens, self@.current, stop_tokens@, inlines_view(nodes@)) == goal,
            decreases self@.tokens.len() - self@.current,
        {
            let node = match self.inline_node() {
                Some(n) => n,
                None => {
                    return None;
                },
            };
            let ghost before = inlines_view(nodes@);
            match node {
                InLineNode::Text(lexeme) => {
                    push_text_node(&mut nodes, lexeme);
                },
                _ => {
                    nodes.push(node);
                    proof {
                        assert(inlines_view(nodes@) =~= before.push(inline_view(node)));
                    }
                },
            }
        }
        Some(nodes)
    }

    /// One inline node at the current token.
    fn inline_node(&mut self) -> (r: Option<InLineNode>)
        requires
            !at_end(old(self)@.tokens, old(self)@.current),
        ensures
            final(self)@.tokens == old(self)@.tokens,
            match inline_item(old(self)@.tokens, old(self)@.current) {
                None => r is None,
                Some((n, c)) => r matches Some(x) && inline_view(x) == n && final(self)@.current == c
                    && old(self)@.current < c <= final(self)@.tokens.len(),
            },
        decreases old(self)@.tokens.len() - old(self)@.current, 0int,
    {
        if self.match_tokens(&[TokenType::OpenStrong]) {
            self.parse_strong()
        } else if self.match_tokens(&[TokenType::OpenEmphasis]) {
            self.parse_emphasis()
        } else if self.match_tokens(&[TokenType::Tilde]) {
            self.parse_strikethrough()
        } else if self.match_tokens(&[TokenType::OpeningBracket]) {
            self.parse_link()
        } else if self.match_tokens(&[TokenType::Backtick]) {
            Some(self.parse_backtick())
        } else if self.match_tokens(&[TokenType::BreakLine]) {
            Some(InLineNode::BreakLine)
        } else {
            self.parse_text()
        }
    }

    /// The content of a span whose opening token was just consumed, and its closing token.
    fn span_content(&mut self, close: TokenType) -> (r: Option<Vec<InLineNode>>)
        requires
            1 <= old(self)@.current <= old(self)@.tokens.len(),
        ensures
            final(self)@.tokens == old(self)@.tokens,
            match span(old(self)@.tokens, old(self)@.current, close) {
                None => r is None,
                Some((c, n)) => r matches Some(v) && inlines_view(v@) == c && final(self)@.current == n
                    && old(self)@.current < n <= final(self)@.tokens.len(),
            },
        decreases old(self)@.tokens.len() - old(self)@.current, 2int,
    {
        let close_stops = [close];
        assert(close_stops@ =~= seq![close]);
        let content = match self.in_line_until(&close_stops) {
            Some(c) => c,
            None => {
                return None;
            },
        };
        if !self.check(close) {
            return None;
        }
        self.consume(close);
        Some(content)
    }

    fn parse_strong(&mut self) -> (r: Option<InLineNode>)
        requires
            1 <= old(self)@.current <= old(self)@.tokens.len(),
        ensures
            final(self)@.tokens == old(self)@.tokens,
            match span(old(self)@.tokens, old(self)@.current, TokenType::CloseStrong) {
                None => r is None,
                Some((c, n)) => r matches Some(x) && inline_view(x) == Inline::Strong(c) && final(self)@.current == n
                    && old(self)@.current < n <= final(self)@.tokens.len(),
            },
        decreases old(self)@.tokens.len() - old(self)@.current, 3int,
    {
        match self.span_content(TokenType::CloseStrong) {
            Some(content) => Some(InLineNode::Strong(content)),
            None => None,
        }
    }

    fn parse_emphasis(&mut self) -> (r: Option<InLineNode>)
        requires
            1 <= old(self)@.current <= old(self)@.tokens.len(),
        ensures
            final(self)@.tokens == old(self)@.tokens,
            match span(old(self)@.tokens, old(self)@.current, TokenType::CloseEmphasis) {
                None => r is None,
                Some((c, n)) => r matches Some(x) && inline_view(x) == Inline::Emphasis(c) && final(self)@.current == n
                    && old(self)@.current < n <= final(self)@.tokens.len(),
            },
        decreases old(self)@.tokens.len() - old(self)@.current, 3int,
    {
        match self.span_content(TokenType::CloseEmphasis) {
            Some(content) => Some(InLineNode::Emphasis(content)),
            None => None,
        }
    }

    fn parse_strikethrough(&mut self) -> (r: Option<InLineNode>)
        requires
            1 <= old(self)@.current <= old(self)@.tokens.len(),
        ensures
            final(self)@.tokens == old(self)@.tokens,
            match span(old(self)@.tokens, old(self)@.current, TokenType::Tilde) {
                None => r is None,
                Some((c, n)) => r matches Some(x) && inline_view(x) == Inline::Strikethrough(c)
                    && final(self)@.current == n && old(self)@.current < n <= final(self)@.tokens.len(),
            },
        decreases old(self)@.tokens.len() - old(self)@.current, 3int,
    {
        match self.span_content(TokenType::Tilde) {
            Some(content) => Some(InLineNode::Strikethrough(content)),
            None => None,
        }
    }

    fn parse_link(&mut self) -> (r: Option<InLineNode>)
        requires
            1 <= old(self)@.current <= old(self)@.tokens.len(),
        ensures
            final(self)@.tokens == old(self)@.tokens,
            match link(old(self)@.tokens, old(self)@.current) {
                None => r is None,
                Some((n, c)) => r matches Some(x) && inline_view(x) == n && final(self)@.current == c
                    && old(self)@.current < c <= final(self)@.tokens.len(),
            },
        decreases old(self)@.tokens.len() - old(self)@.current, 3int,
    {
        let stops = [TokenType::ClosingBracket];
        assert(stops@ =~= seq![TokenType::ClosingBracket]);
        let content = match self.in_line_until(&stops) {
            Some(c) => c,
            None => {
                return None;
            },
        };
        if !self.check(TokenType::ClosingBracket) {
            return None;
        }
        self.consume(TokenType::ClosingBracket);
        if !self.check(TokenType::OpeningParenthesis) {
            return None;
        }
        self.consume(TokenType::OpeningParenthesis);
        let dest_stops = [TokenType::ClosingParenthesis];
        assert(dest_stops@ =~= seq![TokenType::ClosingParenthesis]);
        let ghost before_dest = self@.current;
        let dest = self.collect_until(&dest_stops);
        proof {
            lemma_collect_until_bounds(self@.tokens, before_dest, dest_stops@);
        }
        if !self.check(TokenType::ClosingParenthesis) {
            return None;
        }
        self.consume(TokenType::ClosingParenthesis);
        Some(InLineNode::Link { content, dest })
    }

    fn parse_backtick(&mut self) -> (r: InLineNode)
        requires
            1 <= old(self)@.current <= old(self)@.tokens.len(),
        ensures
            final(self)@.tokens == old(self)@.tokens,
            inline_view(r) == backtick(old(self)@.tokens, old(self)@.current).0,
            final(self)@.current == backtick(old(self)@.tokens, old(self)@.current).1,
            old(self)@.current <= final(self)@.current <= final(self)@.tokens.len(),
    {
        let ghost t = self@.tokens;
        proof {
            lemma_count_run(t, self@.current, TokenType::Backtick);
        }
        assert(t.len() == self.tokens.len());
        let count = 1 + self.count_consecutive_tokens(self.current, TokenType::Backtick);

        let mut found_match = false;
        let mut match_idx = self.current;

        let start_token_idx = self.current;
        let mut closing_token_ids: usize = 0;

        while match_idx < self.tokens.len()
            invariant_except_break
                !found_match,
                self.current == start_token_idx,
            invariant
                self@.tokens == t,
                start_token_idx <= match_idx,
                find_fence(t, match_idx as int, count as int) == find_fence(t, start_token_idx as int, count as int),
            ensures
                found_match ==> find_fence(t, start_token_idx as int, count as int) == Some(closing_token_ids as int)
                    && self.current == closing_token_ids + count && closing_token_ids >= start_token_idx
                    && self.current <= t.len(),
                !found_match ==> find_fence(t, start_token_idx as int, count as int) is None
                    && self.current == start_token_idx,
            decreases self.tokens.len() - match_idx,
        {
            if self.tokens[match_idx].token_type == TokenType::Backtick {
                let second_count = self.count_consecutive_tokens(match_idx, TokenType::Backtick);
                proof {
                    lemma_count_run(t, match_idx as int, TokenType::Backtick);
                }
                let inner_match_idx = match_idx + second_count;
                if second_count == count {
                    found_match = true;
                    self.current = inner_match_idx;
                    closing_token_ids = match_idx;
                    break;
                } else {
                    match_idx = inner_match_idx;
                }
            } else {
                match_idx += 1;
            }
        }

        if found_match {
            let content = self.concat_lexemes(start_token_idx, closing_token_ids);
            let trimmed_content = strip_code_text(content);
            InLineNode::Code(single(InLineNode::Text(trimmed_content)))
        } else {
            let fallback_text = repeat_char_string('`', count);
            InLineNode::Text(fallback_text)
        }
    }

    fn parse_text(&mut self) -> (r: Option<InLineNode>)
        requires
            !at_end(old(self)@.tokens, old(self)@.current),
        ensures
            final(self)@.tokens == old(self)@.tokens,
            match text_item(old(self)@.tokens, old(self)@.current) {
                None => r is None,
                Some((n, c)) => r matches Some(x) && inline_view(x) == n && final(self)@.current == c
                    && c <= final(self)@.tokens.len(),
            },
    {
        let token = if self.peek_match_tokens(&[TokenType::Whitespace]) {
            Some(self.consume(TokenType::Whitespace))
        } else if let TokenType::Delimiter { .. } = self.peek().token_type {
            Some(self.advance())
        } else if self.check(TokenType::Content) {
            Some(self.consume(TokenType::Content))
        } else {
            None
        };
        match token {
            Some(tk) => Some(InLineNode::Text(tk.lexeme)),
            None => None,
        }
    }
}


impl Parser {
    /// Parses the whole token sequence into blocks.
    pub fn parse(&mut self) -> (nodes: Vec<MarkdownNode>)
        requires
            document(old(self)@.tokens, old(self)@.current) is Some,
        ensures
            blocks_view(nodes@) == document(old(self)@.tokens, old(self)@.current)->0,
    {
        self.parse_delimiters();
        match self.block() {
            Some(nodes) => nodes,
            None => Vec::new(),
        }
    }

    /// Parses the whole token sequence into blocks; `None` on the inputs that cannot be parsed.
    pub fn try_parse(&mut self) -> (nodes: Option<Vec<MarkdownNode>>)
        ensures
            match document(old(self)@.tokens, old(self)@.current) {
                None => nodes is None,
                Some(b) => nodes matches Some(v) && blocks_view(v@) == b,
            },
    {
        self.document()
    }

    fn document(&mut self) -> (nodes: Option<Vec<MarkdownNode>>)
        ensures
            match document(old(self)@.tokens, old(self)@.current) {
                None => nodes is None,
                Some(b) => nodes matches Some(v) && blocks_view(v@) == b,
            },
    {
        if !self.try_parse_delimiters() {
            return None;
        }
        self.block()
    }

    fn block(&mut self) -> (r: Option<Vec<MarkdownNode>>)
        ensures
            final(self)@.tokens == old(self)@.tokens,
            match block_loop(old(self)@.tokens, old(self)@.current, Seq::empty()) {
                None => r is None,
                Some(b) => r matches Some(v) && blocks_view(v@) == b,
            },
    {
        let mut nodes: Vec<MarkdownNode> = Vec::new();
        let ghost goal = block_loop(self@.tokens, self@.current, Seq::empty());
        assert(blocks_view(nodes@) =~= Seq::<Block>::empty());
        while !self.is_at_end()
            invariant
                self@.tokens == old(self)@.tokens,
                goal == block_loop(old(self)@.tokens, old(self)@.current, Seq::empty()),
                block_loop(self@.tokens, self@.current, blocks_view(nodes@)) == goal,
            decreases self@.tokens.len() - self@.current,
        {
            let ghost t = self@.tokens;
            let ghost cur = self@.current;
            let ghost before = nodes@;
            let ghost step = block_step(t, cur);
            assert(0 <= cur < t.len());
            if self.match_tokens(&[TokenType::Hash]) {
                match self.heading() {
                    Some(h) => nodes.push(h),
                    None => {
                        return None;
                    },
                }
            } else if self.match_tokens(&[TokenType::NewLine]) {
                self.line_breaks();
            } else if self.match_tokens(&[TokenType::HorizontalRule]) {
                nodes.push(MarkdownNode::HorizontalRule);
            } else if self.count_consecutive_tokens(self.current, TokenType::Backtick) >= 3 {
                match self.parse_code_block() {
                    Some(c) => nodes.push(c),
                    None => {
                        return None;
                    },
                }
            } else {
                match self.paragraph() {
                    Some(p) => nodes.push(p),
                    None => {
                        return None;
                    },
                }
            }
            proof {
                if !check(t, cur, TokenType::Hash) && !check(t, cur, TokenType::NewLine) && !check(t, cur,
                    TokenType::HorizontalRule) && count_run(t, cur, TokenType::Backtick) < 3 {
                    lemma_para_loop_progress(t, cur, Seq::empty());
                }
                lemma_count_run(t, cur + 1, TokenType::NewLine);
                assert(step matches Some((_, c)) && c == self@.current && cur < c <= t.len());
                match step {
                    Some((Some(b), c)) => {
                        assert(blocks_view(nodes@) =~= blocks_view(before).push(b));
                    },
                    _ => {
                        assert(blocks_view(nodes@) =~= blocks_view(before));
                    },
                }
            }
        }
        Some(nodes)
    }

    fn line_breaks(&mut self)
        requires
            old(self)@.current <= old(self)@.tokens.len(),
        ensures
            final(self)@.tokens == old(self)@.tokens,
            final(self)@.current == old(self)@.current + count_run(old(self)@.tokens, old(self)@.current,
                TokenType::NewLine),
    {
        proof {
            lemma_count_run(self@.tokens, self@.current, TokenType::NewLine);
        }
        loop
            invariant
                self@.tokens == old(self)@.tokens,
                old(self)@.current <= self@.current <= self@.tokens.len(),
                old(self)@.current + count_run(self@.tokens, old(self)@.current, TokenType::NewLine)
                    == self@.current + count_run(self@.tokens, self@.current, TokenType::NewLine),
            ensures
                final(self)@.current == old(self)@.current + count_run(old(self)@.tokens, old(self)@.current,
                    TokenType::NewLine),
                final(self)@.tokens == old(self)@.tokens,
            decreases self@.tokens.len() - self@.current,
        {
            if self.is_at_end() {
                break;
            }
            if !self.match_tokens(&[TokenType::NewLine]) {
                break;
            }
        }
    }

    /// A heading whose first `#` was just consumed.
    fn heading(&mut self) -> (r: Option<MarkdownNode>)
        requires
            1 <= old(self)@.current <= old(self)@.tokens.len(),
        ensures
            final(self)@.tokens == old(self)@.tokens,
            match heading(old(self)@.tokens, old(self)@.current) {
                None => r is None,
                Some((b, c)) => r matches Some(x) && x@ == b && final(self)@.current == c
                    && old(self)@.current <= c <= final(self)@.tokens.len(),
            },
    {
        let ghost t = self@.tokens;
        let ghost c0 = self@.current;
        proof {
            lemma_count_run(t, c0, TokenType::Hash);
        }
        let mut level: usize = 1;
        loop
            invariant
                self@.tokens == t,
                t.len() == self.tokens.len(),
                c0 <= self@.current <= t.len(),
                1 <= c0,
                level == 1 + (self@.current - c0),
                count_run(t, c0, TokenType::Hash) == (self@.current - c0) + count_run(t, self@.current, TokenType::Hash),
            ensures
                self@.tokens == t,
                self@.current == c0 + count_run(t, c0, TokenType::Hash),
                level == 1 + count_run(t, c0, TokenType::Hash),
                self@.current <= t.len(),
            decreases t.len() - self@.current,
        {
            if !self.match_tokens(&[TokenType::Hash]) {
                break;
            }
            level += 1;
        }
        let stops = [TokenType::NewLine];
        assert(stops@ =~= seq![TokenType::NewLine]);
        let content = match self.in_line_until(&stops) {
            Some(c) => c,
            None => {
                return None;
            },
        };
        //skip new line token
        self.advance();

        Some(MarkdownNode::Heading { level, content })
    }

    fn paragraph(&mut self) -> (r: Option<MarkdownNode>)
        requires
            old(self)@.current <= old(self)@.tokens.len(),
        ensures
            final(self)@.tokens == old(self)@.tokens,
            match paragraph(old(self)@.tokens, old(self)@.current) {
                None => r is None,
                Some((b, c)) => r matches Some(x) && x@ == b && final(self)@.current == c
                    && old(self)@.current <= c <= final(self)@.tokens.len(),
            },
    {
        let ghost t = self@.tokens;
        let ghost goal = paragraph(t, self@.current);
        let mut nodes: Vec<InLineNode> = Vec::new();
        assert(inlines_view(nodes@) =~= Seq::<Inline>::empty());
        loop
            invariant_except_break
                para_loop(t, self@.current, inlines_view(nodes@)) == goal,
            invariant
                self@.tokens == t,
                t == old(self)@.tokens,
                t.len() == self.tokens.len(),
                old(self)@.current <= self@.current <= t.len(),
                goal == paragraph(t, old(self)@.current),
            ensures
                self@.tokens == t,
                old(self)@.current <= self@.current <= t.len(),
                goal == paragraph(t, old(self)@.current),
                goal == Some((Block::Paragraph(inlines_view(nodes@)), self@.current)),
            decreases t.len() - self@.current,
        {
            if self.is_at_end() {
                break;
            }
            if self.match_tokens(&[TokenType::NewLine]) {
                break;
            }
            let cur0 = self.current;
            let stops = [TokenType::NewLine, TokenType::HorizontalRule];
            assert(stops@ =~= seq![TokenType::NewLine, TokenType::HorizontalRule]);
            let mut content = match self.in_line_until(&stops) {
                Some(c) => c,
                None => {
                    return None;
                },
            };
            let is_line_break = self.peek().token_type == TokenType::NewLine && self.peek_next().token_type
                == TokenType::NewLine;

            if is_line_break {
                self.advance();
            }
            if !self.is_at_end() && !is_line_break {
                let mut space = String::new();
                push_char(&mut space, ' ');
                assert(space@ =~= seq![' ']);
                push_text_node(&mut content, space);
            }
            // a line that consumes nothing would be read again forever
            if self.current <= cur0 {
                return None;
            }
            let ghost before = nodes@;
            let ghost added = content@;
            nodes.append(&mut content);
            proof {
                lemma_inlines_view_add(before, added);
            }
        }
        Some(MarkdownNode::Paragraph(nodes))
    }

    /// A fenced code block at the current token, which starts a run of at least three backticks.
    fn parse_code_block(&mut self) -> (r: Option<MarkdownNode>)
        requires
            old(self)@.current <= old(self)@.tokens.len(),
            count_run(old(self)@.tokens, old(self)@.current, TokenType::Backtick) >= 3,
        ensures
            final(self)@.tokens == old(self)@.tokens,
            match code_block(old(self)@.tokens, old(self)@.current) {
                None => r is None,
                Some((b, c)) => r matches Some(x) && x@ == b && final(self)@.current == c
                    && old(self)@.current < c <= final(self)@.tokens.len(),
            },
    {
        let ghost t = self@.tokens;
        let ghost c0 = self@.current;
        proof {
            lemma_count_run(t, c0, TokenType::Backtick);
        }
        assert(t.len() == self.tokens.len());
        let opening_count = self.count_consecutive_tokens(self.current, TokenType::Backtick);

        self.current += opening_count;
        let ghost c1 = self@.current;

        let mut language = String::new();
        while !self.is_at_end() && self.tokens[self.current].token_type != TokenType::NewLine
            invariant
                self@.tokens == t,
                t.len() == self.tokens.len(),
                c1 <= self@.current <= t.len(),
                language@ == concat_lexemes(t, c1, self@.current),
                line_stop(t, c1) == line_stop(t, self@.current),
            decreases t.len() - self@.current,
        {
            push_str(&mut language, self.tokens[self.current].lexeme.as_str());
            self.current += 1;
        }
        if !self.is_at_end() {
            self.current += 1;
        }
        let mut found_match = false;
        let mut match_idx = self.current;

        let start_token_idx = self.current;
        let mut closing_token_ids: usize = 0;

        while match_idx < self.tokens.len()
            invariant_except_break
                !found_match,
                self.current == start_token_idx,
            invariant
                self@.tokens == t,
                t.len() == self.tokens.len(),
                3 <= start_token_idx <= match_idx,
                start_token_idx <= t.len(),
                find_block_fence(t, match_idx as int, opening_count as int) == find_block_fence(t,
                    start_token_idx as int, opening_count as int),
            ensures
                found_match ==> find_block_fence(t, start_token_idx as int, opening_count as int) == Some(
                    closing_token_ids + 1) && self.current == closing_token_ids + 1 + opening_count
                    && self.current <= t.len(),
                !found_match ==> find_block_fence(t, start_token_idx as int, opening_count as int) is None
                    && self.current == start_token_idx,
            decreases self.tokens.len() - match_idx,
        {
            if self.tokens[match_idx].token_type == TokenType::Backtick && self.tokens[match_idx
                - 1].token_type == TokenType::NewLine {
                let second_count = self.count_consecutive_tokens(match_idx, TokenType::Backtick);
                proof {
                    lemma_count_run(t, match_idx as int, TokenType::Backtick);
                }
                let inner_match_idx = match_idx + second_count;
                if second_count == opening_count {
                    found_match = true;
                    self.current = inner_match_idx;
                    closing_token_ids = match_idx - 1;
                    break;
                } else {
                    match_idx = inner_match_idx;
                }
            } else {
                match_idx += 1;
            }
        }

        if found_match {
            if closing_token_ids < start_token_idx {
                return None;
            }
            let content = self.concat_lexemes(start_token_idx, closing_token_ids);
            Some(MarkdownNode::Code { language, content: single(InLineNode::Text(content)) })
        } else {
            let fallback_text = repeat_char_string('`', opening_count);
            Some(MarkdownNode::Paragraph(single(InLineNode::Text(fallback_text))))
        }
    }
}

} // verus!
