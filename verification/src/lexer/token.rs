//! Tokens produced by the scanner and rewritten by the parser.
use vstd::prelude::*;
use crate::numbers::{decimal, usize_to_string};
use crate::text::{chars_of, push_char, push_str};

verus! {

/// The kind of a token.
#[derive(Copy, Clone, Debug, PartialEq, Eq, Structural)]
pub enum TokenType {
    // layout
    Hash,
    Dash,
    NewLine,
    BreakLine,
    HorizontalRule,
    // inline
    Delimiter { length: usize, can_open: bool, can_close: bool },
    Star,
    DoubleStar,
    Underscore,
    OpenEmphasis,
    CloseEmphasis,
    OpenStrong,
    CloseStrong,
    Tilde,
    OpeningBracket,
    ClosingBracket,
    OpeningParenthesis,
    ClosingParenthesis,
    Backtick,
    // content
    Content,
    Whitespace,
    // meta
    Eof,
}

/// A token: its kind, its text, and where it starts (line, and character offset in the source).
#[derive(Clone, Debug)]
pub struct Token {
    pub token_type: TokenType,
    pub lexeme: String,
    pub line: usize,
    pub pos: usize,
}

/// What a token holds, with its text as a sequence of characters.
pub struct TokenView {
    pub token_type: TokenType,
    pub lexeme: Seq<char>,
    pub line: usize,
    pub pos: usize,
}

impl View for Token {
    type V = TokenView;

    open spec fn view(&self) -> TokenView {
        TokenView { token_type: self.token_type, lexeme: self.lexeme@, line: self.line, pos: self.pos }
    }
}

/// The views of a sequence of tokens.
pub open spec fn tokens_view(s: Seq<Token>) -> Seq<TokenView> {
    s.map_values(|t: Token| t@)
}

impl Token {
    pub fn new(token_type: TokenType, lexeme: String, line: usize, pos: usize) -> (t: Self)
        ensures
            t.token_type == token_type,
            t.lexeme == lexeme,
            t.line == line,
            t.pos == pos,
    {
        Token { token_type, lexeme, line, pos }
    }

    /// A copy of this token.
    pub fn duplicate(&self) -> (t: Token)
        ensures
            t@ == self@,
    {
        Token {
            token_type: self.token_type,
            lexeme: self.lexeme.clone(),
            line: self.line,
            pos: self.pos,
        }
    }
}

/// A copy of a sequence of tokens.
pub fn duplicate_tokens(v: &Vec<Token>) -> (r: Vec<Token>)
    ensures
        tokens_view(r@) == tokens_view(v@),
{
    let mut r: Vec<Token> = Vec::new();
    let mut i: usize = 0;
    while i < v.len()
        invariant
            i <= v.len(),
            r.len() == i,
            forall|k: int| 0 <= k < i ==> (#[trigger] r@[k])@ == v@[k]@,
        decreases v.len() - i,
    {
        r.push(v[i].duplicate());
        i += 1;
    }
    assert(tokens_view(r@) =~= tokens_view(v@));
    r
}

/// `true` or `false`.
pub open spec fn bool_text(b: bool) -> Seq<char> {
    if b { "true"@ } else { "false"@ }
}

/// The name of a kind, written as Rust's derived `Debug` writes it.
pub open spec fn kind_name(k: TokenType) -> Seq<char> {
    match k {
        TokenType::Hash => "Hash"@,
        TokenType::Dash => "Dash"@,
        TokenType::NewLine => "NewLine"@,
        TokenType::BreakLine => "BreakLine"@,
        TokenType::HorizontalRule => "HorizontalRule"@,
        TokenType::Delimiter { length, can_open, can_close } => "Delimiter { length: "@ + decimal(length as nat)
            + ", can_open: "@ + bool_text(can_open) + ", can_close: "@ + bool_text(can_close) + " }"@,
        TokenType::Star => "Star"@,
        TokenType::DoubleStar => "DoubleStar"@,
        TokenType::Underscore => "Underscore"@,
        TokenType::OpenEmphasis => "OpenEmphasis"@,
        TokenType::CloseEmphasis => "CloseEmphasis"@,
        TokenType::OpenStrong => "OpenStrong"@,
        TokenType::CloseStrong => "CloseStrong"@,
        TokenType::Tilde => "Tilde"@,
        TokenType::OpeningBracket => "OpeningBracket"@,
        TokenType::ClosingBracket => "ClosingBracket"@,
        TokenType::OpeningParenthesis => "OpeningParenthesis"@,
        TokenType::ClosingParenthesis => "ClosingParenthesis"@,
        TokenType::Backtick => "Backtick"@,
        TokenType::Content => "Content"@,
        TokenType::Whitespace => "Whitespace"@,
        TokenType::Eof => "Eof"@,
    }
}

/// A lowercase hexadecimal digit.
pub open spec fn hex_digit(d: nat) -> char {
    if d < 10 { ((d + 48) as u8) as char } else { ((d + 87) as u8) as char }
}

/// The lowercase hexadecimal notation of `n`, without leading zeros.
pub open spec fn hex(n: nat) -> Seq<char>
    decreases n,
{
    if n < 16 {
        seq![hex_digit(n)]
    } else {
        hex(n / 16).push(hex_digit(n % 16))
    }
}

/// A character as `char::escape_default` writes it: tab, carriage return, newline, backslash
/// and quotes with a backslash, printable ASCII as itself, anything else as `\u{..}`.
pub open spec fn escape_char(c: char) -> Seq<char> {
    if c == '\t' {
        seq!['\\', 't']
    } else if c == '\r' {
        seq!['\\', 'r']
    } else if c == '\n' {
        seq!['\\', 'n']
    } else if c == '\\' || c == '\'' || c == '"' {
        seq!['\\', c]
    } else if 0x20 <= c as u32 <= 0x7e {
        seq![c]
    } else {
        seq!['\\', 'u', '{'] + hex(c as u32 as nat) + seq!['}']
    }
}

/// The escaped form of each character of `s`, one after another.
pub open spec fn escaped(s: Seq<char>) -> Seq<char>
    decreases s.len(),
{
    if s.len() == 0 {
        Seq::empty()
    } else {
        escaped(s.drop_last()) + escape_char(s.last())
    }
}

/// How a token is shown: `(kind lexeme)`, with the lexeme escaped.
pub open spec fn token_text(t: TokenView) -> Seq<char> {
    seq!['('] + kind_name(t.token_type) + seq![' '] + escaped(t.lexeme) + seq![')']
}

fn push_bool(out: &mut String, b: bool)
    ensures
        final(out)@ == old(out)@ + bool_text(b),
{
    if b {
        push_str(out, "true");
    } else {
        push_str(out, "false");
    }
}

fn push_kind_name(out: &mut String, k: TokenType)
    ensures
        final(out)@ == old(out)@ + kind_name(k),
{
    match k {
        TokenType::Hash => push_str(out, "Hash"),
        TokenType::Dash => push_str(out, "Dash"),
        TokenType::NewLine => push_str(out, "NewLine"),
        TokenType::BreakLine => push_str(out, "BreakLine"),
        TokenType::HorizontalRule => push_str(out, "HorizontalRule"),
        TokenType::Delimiter { length, can_open, can_close } => {
            let ghost o = out@;
            push_str(out, "Delimiter { length: ");
            let n = usize_to_string(length);
            push_str(out, n.as_str());
            push_str(out, ", can_open: ");
            push_bool(out, can_open);
            push_str(out, ", can_close: ");
            push_bool(out, can_close);
            push_str(out, " }");
            assert(out@ =~= o + kind_name(k));
        },
        TokenType::Star => push_str(out, "Star"),
        TokenType::DoubleStar => push_str(out, "DoubleStar"),
        TokenType::Underscore => push_str(out, "Underscore"),
        TokenType::OpenEmphasis => push_str(out, "OpenEmphasis"),
        TokenType::CloseEmphasis => push_str(out, "CloseEmphasis"),
        TokenType::OpenStrong => push_str(out, "OpenStrong"),
        TokenType::CloseStrong => push_str(out, "CloseStrong"),
        TokenType::Tilde => push_str(out, "Tilde"),
        TokenType::OpeningBracket => push_str(out, "OpeningBracket"),
        TokenType::ClosingBracket => push_str(out, "ClosingBracket"),
        TokenType::OpeningParenthesis => push_str(out, "OpeningParenthesis"),
        TokenType::ClosingParenthesis => push_str(out, "ClosingParenthesis"),
        TokenType::Backtick => push_str(out, "Backtick"),
        TokenType::Content => push_str(out, "Content"),
        TokenType::Whitespace => push_str(out, "Whitespace"),
        TokenType::Eof => push_str(out, "Eof"),
    }
}

fn push_hex(out: &mut String, n: u32)
    ensures
        final(out)@ == old(out)@ + hex(n as nat),
    decreases n,
{
    if n >= 16 {
        push_hex(out, n / 16);
    }
    let d = n % 16;
    let c = if d < 10 {
        ((d + 48) as u8) as char
    } else {
        ((d + 87) as u8) as char
    };
    let ghost o = old(out)@;
    push_char(out, c);
    assert(out@ =~= o + hex(n as nat));
}

fn push_escaped_char(out: &mut String, c: char)
    ensures
        final(out)@ == old(out)@ + escape_char(c),
{
    let ghost o = out@;
    let code = c as u32;
    if c == '\t' {
        push_char(out, '\\');
        push_char(out, 't');
    } else if c == '\r' {
        push_char(out, '\\');
        push_char(out, 'r');
    } else if c == '\n' {
        push_char(out, '\\');
        push_char(out, 'n');
    } else if c == '\\' || c == '\'' || c == '"' {
        push_char(out, '\\');
        push_char(out, c);
    } else if 0x20 <= code && code <= 0x7e {
        push_char(out, c);
    } else {
        push_char(out, '\\');
        push_char(out, 'u');
        push_char(out, '{');
        push_hex(out, code);
        push_char(out, '}');
    }
    assert(out@ =~= o + escape_char(c));
}

impl Token {
    /// How the token is shown: `(kind lexeme)`, the kind as its derived `Debug` form and the
    /// lexeme with `char::escape_default` applied to each character.
    pub fn to_display_string(&self) -> (s: String)
        ensures
            s@ == token_text(self@),
    {
        let mut s = String::new();
        push_char(&mut s, '(');
        push_kind_name(&mut s, self.token_type);
        push_char(&mut s, ' ');
        let ghost before = s@;
        let mut i: usize = 0;
        let chars = chars_of(self.lexeme.as_str());
        while i < chars.len()
            invariant
                0 <= i <= chars.len(),
                chars@ == self.lexeme@,
                s@ == before + escaped(chars@.take(i as int)),
            decreases chars.len() - i,
        {
            assert(chars@.take(i as int + 1).drop_last() =~= chars@.take(i as int));
            push_escaped_char(&mut s, chars[i]);
            i += 1;
        }
        assert(chars@.take(chars.len() as int) =~= chars@);
        push_char(&mut s, ')');
        assert(s@ =~= token_text(self@));
        s
    }
}

proof fn lemma_escaped_plain(s: Seq<char>)
    requires
        forall|k: int| 0 <= k < s.len() ==> ('a' <= #[trigger] s[k] <= 'z') || ('A' <= s[k] <= 'Z') || ('0' <= s[k]
            <= '9') || s[k] == ' ' || s[k] == '*' || s[k] == '_' || s[k] == '#',
    ensures
        escaped(s) == s,
    decreases s.len(),
{
    if s.len() > 0 {
        assert forall|k: int| 0 <= k < s.drop_last().len() implies ('a' <= #[trigger] s.drop_last()[k] <= 'z') || (
        'A' <= s.drop_last()[k] <= 'Z') || ('0' <= s.drop_last()[k] <= '9') || s.drop_last()[k] == ' '
            || s.drop_last()[k] == '*' || s.drop_last()[k] == '_' || s.drop_last()[k] == '#' by {
            assert(s.drop_last()[k] == s[k]);
        }
        lemma_escaped_plain(s.drop_last());
        let c = s.last();
        assert(s[s.len() - 1] == c);
        assert(escape_char(c) == seq![c]);
        assert(s.drop_last() + seq![c] =~= s);
    }
}

/// How tokens are shown: a token whose text holds only letters, digits, spaces, `*`, `_` and
/// `#` shows that text as it is after its kind, in parentheses; a newline shows as `\n`; and a
/// delimiter run shows its length and what it can do.
pub proof fn lemma_token_text_forms(tv: TokenView)
    ensures
        (forall|k: int| 0 <= k < tv.lexeme.len() ==> ('a' <= #[trigger] tv.lexeme[k] <= 'z') || ('A' <= tv.lexeme[k]
            <= 'Z') || ('0' <= tv.lexeme[k] <= '9') || tv.lexeme[k] == ' ' || tv.lexeme[k] == '*' || tv.lexeme[k] == '_'
            || tv.lexeme[k] == '#') ==> token_text(tv) == seq!['('] + kind_name(tv.token_type) + seq![' '] + tv.lexeme
            + seq![')'],
        tv.lexeme == seq!['\n'] ==> token_text(tv) == seq!['('] + kind_name(tv.token_type) + seq![' ', '\\', 'n', ')'],
        kind_name(TokenType::Content) == "Content"@,
        kind_name(TokenType::NewLine) == "NewLine"@,
        tv.token_type matches TokenType::Delimiter { length, can_open, can_close } ==> kind_name(tv.token_type)
            == "Delimiter { length: "@ + decimal(length as nat) + ", can_open: "@ + (if can_open { "true"@ } else {
            "false"@ }) + ", can_close: "@ + (if can_close { "true"@ } else { "false"@ }) + " }"@,
{
    if forall|k: int| 0 <= k < tv.lexeme.len() ==> ('a' <= #[trigger] tv.lexeme[k] <= 'z') || ('A' <= tv.lexeme[k]
        <= 'Z') || ('0' <= tv.lexeme[k] <= '9') || tv.lexeme[k] == ' ' || tv.lexeme[k] == '*' || tv.lexeme[k] == '_'
        || tv.lexeme[k] == '#' {
        lemma_escaped_plain(tv.lexeme);
    }
    if tv.lexeme == seq!['\n'] {
        assert(tv.lexeme.drop_last() =~= Seq::<char>::empty());
        assert(tv.lexeme.last() == '\n');
        assert(escaped(Seq::<char>::empty()) == Seq::<char>::empty());
        assert(escape_char('\n') == seq!['\\', 'n']);
        assert(escaped(tv.lexeme) =~= seq!['\\', 'n']);
        assert(token_text(tv) =~= seq!['('] + kind_name(tv.token_type) + seq![' ', '\\', 'n', ')']);
    }
}

} // verus!
