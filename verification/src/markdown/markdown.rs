//! Direct conversions of single markdown constructs to HTML text.
use vstd::prelude::*;
use crate::parser::core_parser::is_blank;
use crate::parser::grammar::all_whitespace;
use crate::text::{chars_of, push_char, push_str, spec_is_whitespace, string_of_range};

verus! {

#[derive(Debug, PartialEq, Eq, Structural)]
pub enum ParseError {
    EmptyInput,
    InvalidHeadingSyntax,
}

/// `<p>` + `s` + `</p>`, unless `s` is blank.
pub fn parse_paragraph(s: &str) -> (r: Result<String, ParseError>)
    ensures
        all_whitespace(s@) ==> r == Err::<String, ParseError>(ParseError::EmptyInput),
        !all_whitespace(s@) ==> (r matches Ok(out) && out@ == seq!['<', 'p', '>'] + s@ + seq!['<', '/', 'p', '>']),
{
    if is_blank(s) {
        return Err(ParseError::EmptyInput);
    }
    let mut out = String::new();
    push_char(&mut out, '<');
    push_char(&mut out, 'p');
    push_char(&mut out, '>');
    push_str(&mut out, s);
    push_char(&mut out, '<');
    push_char(&mut out, '/');
    push_char(&mut out, 'p');
    push_char(&mut out, '>');
    assert(out@ =~= seq!['<', 'p', '>'] + s@ + seq!['<', '/', 'p', '>']);
    Ok(out)
}

/// The number of bytes of `c` in UTF-8.
pub open spec fn utf8_width(c: char) -> nat {
    let u = c as u32;
    if u < 0x80 {
        1
    } else if u < 0x800 {
        2
    } else if u < 0x10000 {
        3
    } else {
        4
    }
}

/// The number of bytes of `s` in UTF-8.
pub open spec fn utf8_len(s: Seq<char>) -> nat
    decreases s.len(),
{
    if s.len() == 0 {
        0
    } else {
        utf8_len(s.drop_last()) + utf8_width(s.last())
    }
}

/// The index of the first space in `s`, or its length.
pub open spec fn first_space(s: Seq<char>) -> int
    decreases s.len(),
{
    if s.len() == 0 {
        0
    } else if s[0] == ' ' {
        0
    } else {
        1 + first_space(s.drop_first())
    }
}

/// The index of the first non-whitespace character of `s`, or its length.
pub open spec fn trim_start_index(s: Seq<char>) -> int
    decreases s.len(),
{
    if s.len() == 0 {
        0
    } else if spec_is_whitespace(s[0]) {
        1 + trim_start_index(s.drop_first())
    } else {
        0
    }
}

/// The index after the last non-whitespace character of `s`, or 0.
pub open spec fn trim_end_index(s: Seq<char>) -> int
    decreases s.len(),
{
    if s.len() == 0 {
        0
    } else if spec_is_whitespace(s.last()) {
        trim_end_index(s.drop_last())
    } else {
        s.len() as int
    }
}

/// `s` without whitespace at either end.
pub open spec fn trim(s: Seq<char>) -> Seq<char> {
    let a = trim_start_index(s);
    let b = trim_end_index(s);
    if a < b {
        s.subrange(a, b)
    } else {
        Seq::empty()
    }
}

/// The heading level for a marker of `n` bytes: at most 6.
pub open spec fn heading_level(n: nat) -> nat {
    if n >= 6 {
        6
    } else {
        n
    }
}

/// The HTML for a heading line `s`: its first word is the marker, the rest (trimmed) the text.
pub open spec fn heading_html(s: Seq<char>) -> Seq<char> {
    let k = first_space(s);
    let level = s.subrange(0, k);
    let rest = if k < s.len() { trim(s.subrange(k + 1, s.len() as int)) } else { Seq::empty() };
    let d = ((heading_level(utf8_len(level)) + 48) as u8) as char;
    seq!['<', 'h', d, '>'] + rest + seq!['<', '/', 'h', d, '>']
}

/// A heading line is a marker that starts with `#`, a space, and text; the level is the
/// marker's length in bytes, at most 6.
pub fn parse_heading(s: &str) -> (r: Result<String, ParseError>)
    ensures
        all_whitespace(s@) ==> r == Err::<String, ParseError>(ParseError::EmptyInput),
        !all_whitespace(s@) && s@[0] != '#' ==> r == Err::<String, ParseError>(ParseError::InvalidHeadingSyntax),
        !all_whitespace(s@) && s@[0] == '#' ==> (r matches Ok(out) && out@ == heading_html(s@)),
{
    if is_blank(s) {
        return Err(ParseError::EmptyInput);
    }
    let chars = chars_of(s);
    let n = chars.len();
    // the marker ends at the first space
    let mut k: usize = 0;
    assert(chars@.subrange(0, n as int) =~= chars@);
    while k < n && chars[k] != ' '
        invariant
            k <= n,
            n == chars.len(),
            chars@ == s@,
            first_space(chars@) == k + first_space(chars@.subrange(k as int, n as int)),
        decreases n - k,
    {
        assert(chars@.subrange(k as int, n as int).drop_first() =~= chars@.subrange(k + 1, n as int));
        k += 1;
    }
    assert(first_space(chars@.subrange(k as int, n as int)) == 0);
    if k == 0 || chars[0] != '#' {
        return Err(ParseError::InvalidHeadingSyntax);
    }
    let level_len = utf8_length(&chars, k);
    let rest = if k < n {
        let (a, b) = trim_bounds(&chars, k + 1);
        if a < b {
            let r = string_of_range(&chars, a, b);
            proof {
                let sub = chars@.subrange(k + 1, n as int);
                assert(r@ =~= sub.subrange(trim_start_index(sub), trim_end_index(sub)));
            }
            r
        } else {
            String::new()
        }
    } else {
        String::new()
    };
    assert(rest@ == (if k < n { trim(chars@.subrange(k + 1, n as int)) } else { Seq::empty() }));
    let level = if level_len >= 6 {
        6
    } else {
        level_len
    };
    let d = ((level + 48) as u8) as char;
    proof {
        let lv = s@.subrange(0, first_space(s@));
        assert(lv == chars@.subrange(0, k as int));
        assert(d == ((heading_level(utf8_len(lv)) + 48) as u8) as char);
        if k < n {
            assert(chars@.subrange(k + 1, n as int) == s@.subrange(k + 1, s@.len() as int));
        }
    }
    let mut out = String::new();
    push_char(&mut out, '<');
    push_char(&mut out, 'h');
    push_char(&mut out, d);
    push_char(&mut out, '>');
    push_str(&mut out, rest.as_str());
    push_char(&mut out, '<');
    push_char(&mut out, '/');
    push_char(&mut out, 'h');
    push_char(&mut out, d);
    push_char(&mut out, '>');
    assert(out@ =~= heading_html(s@));
    Ok(out)
}

/// The UTF-8 length of `chars[0..k]`, capped at 6 (the only values the heading level needs).
fn utf8_length(chars: &Vec<char>, k: usize) -> (n: usize)
    requires
        k <= chars.len(),
    ensures
        heading_level(n as nat) == heading_level(utf8_len(chars@.subrange(0, k as int))),
        n <= 6,
{
    let mut n: usize = 0;
    let mut i: usize = 0;
    while i < k
        invariant
            i <= k <= chars.len(),
            n <= 6,
            heading_level(n as nat) == heading_level(utf8_len(chars@.subrange(0, i as int))),
            n < 6 ==> n == utf8_len(chars@.subrange(0, i as int)),
        decreases k - i,
    {
        let u = chars[i] as u32;
        let w: usize = if u < 0x80 {
            1
        } else if u < 0x800 {
            2
        } else if u < 0x10000 {
            3
        } else {
            4
        };
        assert(chars@.subrange(0, i + 1).drop_last() =~= chars@.subrange(0, i as int));
        n = if n + w >= 6 {
            6
        } else {
            n + w
        };
        i += 1;
    }
    n
}

/// The bounds of `chars[from..]` without whitespace at either end (`a >= b` when nothing is left).
fn trim_bounds(chars: &Vec<char>, from: usize) -> (r: (usize, usize))
    requires
        from <= chars.len(),
    ensures
        ({
            let s = chars@.subrange(from as int, chars.len() as int);
            let (a, b) = r;
            &&& from + trim_start_index(s) == a
            &&& from + trim_end_index(s) == b
            &&& from <= a <= chars.len()
            &&& from <= b <= chars.len()
        }),
{
    let n = chars.len();
    let ghost s = chars@.subrange(from as int, n as int);
    let mut a = from;
    while a < n && crate::text::is_whitespace(chars[a])
        invariant
            from <= a <= n,
            n == chars.len(),
            trim_start_index(s) == (a - from) + trim_start_index(chars@.subrange(a as int, n as int)),
        decreases n - a,
    {
        assert(chars@.subrange(a as int, n as int).drop_first() =~= chars@.subrange(a + 1, n as int));
        a += 1;
    }
    let mut b = n;
    while b > from && crate::text::is_whitespace(chars[b - 1])
        invariant
            from <= b <= n,
            n == chars.len(),
            trim_end_index(s) == trim_end_index(chars@.subrange(from as int, b as int)),
        decreases b,
    {
        assert(chars@.subrange(from as int, b as int).drop_last() =~= chars@.subrange(from as int, b - 1));
        b -= 1;
    }
    proof {
        lemma_trim_end_index(chars@.subrange(from as int, b as int));
    }
    (a, b)
}

pub proof fn lemma_trim_end_index(s: Seq<char>)
    ensures
        0 <= trim_end_index(s) <= s.len(),
        s.len() > 0 && !spec_is_whitespace(s.last()) ==> trim_end_index(s) == s.len(),
    decreases s.len(),
{
    if s.len() > 0 {
        lemma_trim_end_index(s.drop_last());
    }
}

/// The first `k >= i` where `m` appears twice in a row, or the last index when there is none.
pub open spec fn pair_end(c: Seq<char>, k: int, m: char) -> int
    decreases c.len() - k,
{
    if k < 0 || k + 1 >= c.len() {
        k
    } else if c[k] == m && c[k + 1] == m {
        k
    } else {
        pair_end(c, k + 1, m)
    }
}

pub open spec fn is_pair(c: Seq<char>, i: int) -> bool {
    i + 1 < c.len() && ((c[i] == '*' && c[i + 1] == '*') || (c[i] == '_' && c[i + 1] == '_'))
}

/// The text of `c[i..]` with each `**x**` or `__x__` written as `<b>x</b>` (with `tags`) or
/// with its two pairs of markers written back (without); an opening pair without a closing
/// one is kept as it is, with the rest of the text.
pub open spec fn bold_render(c: Seq<char>, i: int, tags: bool) -> Seq<char>
    decreases c.len() - i,
{
    if i < 0 || i >= c.len() {
        Seq::empty()
    } else if is_pair(c, i) {
        let m = c[i];
        let j = pair_end(c, i + 2, m);
        if j + 1 < c.len() && j >= i + 2 {
            let (open, close) = if tags {
                (seq!['<', 'b', '>'], seq!['<', '/', 'b', '>'])
            } else {
                (seq![m, m], seq![m, m])
            };
            open + c.subrange(i + 2, j) + close + bold_render(c, j + 2, tags)
        } else {
            seq![m, m] + c.subrange(i + 2, c.len() as int)
        }
    } else {
        seq![c[i]] + bold_render(c, i + 1, tags)
    }
}

/// The text of `c[i..]` with each `**x**` or `__x__` written as `<b>x</b>`.
pub open spec fn bold_from(c: Seq<char>, i: int) -> Seq<char> {
    bold_render(c, i, true)
}

pub proof fn lemma_pair_end(c: Seq<char>, k: int, m: char)
    requires
        0 <= k,
    ensures
        k <= pair_end(c, k, m),
        k + 1 < c.len() ==> pair_end(c, k, m) < c.len(),
        pair_end(c, k, m) + 1 < c.len() ==> c[pair_end(c, k, m)] == m && c[pair_end(c, k, m) + 1] == m,
    decreases c.len() - k,
{
    if !(k + 1 >= c.len()) && !(c[k] == m && c[k + 1] == m) {
        lemma_pair_end(c, k + 1, m);
    }
}

/// Writes each `**x**` or `__x__` in `s` as `<b>x</b>`, unless `s` is blank.
pub fn parse_bold(s: &str) -> (r: Result<String, ParseError>)
    ensures
        all_whitespace(s@) ==> r == Err::<String, ParseError>(ParseError::EmptyInput),
        !all_whitespace(s@) ==> (r matches Ok(out) && out@ == bold_from(s@, 0)),
{
    if is_blank(s) {
        return Err(ParseError::EmptyInput);
    }
    let mut output = String::new();
    let chars = chars_of(s);
    let ghost c = chars@;
    let mut i: usize = 0;

    while i < chars.len()
        invariant_except_break
            output@ + bold_from(c, i as int) == bold_from(c, 0),
        invariant
            c == chars@,
            c == s@,
            i <= chars.len(),
        ensures
            output@ == bold_from(c, 0),
        decreases chars.len() - i,
    {
        if i + 1 < chars.len() && ((chars[i] == '*' && chars[i + 1] == '*') || (chars[i] == '_' && chars[i + 1] == '_')) {
            let marker = chars[i];
            let ghost i0 = i as int;
            i += 2;

            let start = i;
            proof {
                lemma_pair_end(c, i as int, marker);
            }

            while i < chars.len() && i + 1 < chars.len() && !(chars[i] == marker && chars[i + 1] == marker)
                invariant
                    start <= i <= chars.len(),
                    c == chars@,
                    pair_end(c, start as int, marker) == pair_end(c, i as int, marker),
                decreases chars.len() - i,
            {
                i += 1;
            }

            if i < chars.len() && i + 1 < chars.len() {
                let bold_text = string_of_range(&chars, start, i);
                push_char(&mut output, '<');
                push_char(&mut output, 'b');
                push_char(&mut output, '>');
                push_str(&mut output, bold_text.as_str());
                push_char(&mut output, '<');
                push_char(&mut output, '/');
                push_char(&mut output, 'b');
                push_char(&mut output, '>');
                i += 2;
                proof {
                    let b = seq!['<', 'b', '>'] + c.subrange(i0 + 2, i - 2) + seq!['<', '/', 'b', '>'];
                    assert(bold_from(c, i0) == b + bold_from(c, i as int));
                }
            } else {
                push_char(&mut output, marker);
                push_char(&mut output, marker);
                let rest = string_of_range(&chars, start, chars.len());
                push_str(&mut output, rest.as_str());
                proof {
                    assert(bold_from(c, i0) == seq![marker, marker] + c.subrange(i0 + 2, c.len() as int));
                    assert(output@ =~= bold_from(c, 0));
                }
                break;
            }
        } else {
            let ghost before = output@;
            push_char(&mut output, chars[i]);
            i += 1;
            proof {
                assert(bold_from(c, i - 1) == seq![c[i - 1]] + bold_from(c, i as int));
                assert(output@ + bold_from(c, i as int) =~= before + bold_from(c, i - 1));
            }
        }
    }
    Ok(output)
}

proof fn lemma_utf8_len_positive(s: Seq<char>)
    requires
        s.len() > 0,
    ensures
        utf8_len(s) >= 1,
    decreases s.len(),
{
    if s.len() > 1 {
        lemma_utf8_len_positive(s.drop_last());
    }
}

/// A heading line always becomes an `h1` to `h6` element: longer markers are capped at 6.
pub proof fn lemma_heading_tag_in_range(s: Seq<char>)
    requires
        s.len() > 0,
        s[0] == '#',
    ensures
        heading_html(s).len() >= 4,
        heading_html(s)[0] == '<' && heading_html(s)[1] == 'h' && heading_html(s)[3] == '>',
        '1' <= heading_html(s)[2] <= '6',
{
    let k = first_space(s);
    lemma_first_space_bound(s);
    lemma_first_space_bound(s.drop_first());
    assert(k >= 1);
    lemma_utf8_len_positive(s.subrange(0, k));
    let n = heading_level(utf8_len(s.subrange(0, k)));
    assert(1 <= n <= 6);
    let d = ((n + 48) as u8) as char;
    assert(heading_html(s)[2] == d);
    assert((n + 48) as u8 == n + 48);
    assert(d as u32 == n + 48);
    assert('1' as u32 == 49 && '6' as u32 == 54);
}

proof fn lemma_first_space_bound(s: Seq<char>)
    ensures
        0 <= first_space(s) <= s.len(),
    decreases s.len(),
{
    if s.len() > 0 && s[0] != ' ' {
        lemma_first_space_bound(s.drop_first());
    }
}

proof fn lemma_bold_from_plain(c: Seq<char>, i: int)
    requires
        0 <= i <= c.len(),
        forall|k: int| i <= k < c.len() ==> !is_pair(c, k),
    ensures
        bold_from(c, i) == c.subrange(i, c.len() as int),
    decreases c.len() - i,
{
    if i < c.len() {
        assert(!is_pair(c, i));
        lemma_bold_from_plain(c, i + 1);
        assert(seq![c[i]] + c.subrange(i + 1, c.len() as int) =~= c.subrange(i, c.len() as int));
    } else {
        assert(c.subrange(i, c.len() as int) =~= Seq::<char>::empty());
    }
}

/// Text without `**` or `__` comes out of the bold conversion unchanged.
pub proof fn lemma_bold_keeps_plain_text(c: Seq<char>)
    requires
        forall|k: int| 0 <= k < c.len() ==> !is_pair(c, k),
    ensures
        bold_from(c, 0) == c,
{
    lemma_bold_from_plain(c, 0);
    assert(c.subrange(0, c.len() as int) =~= c);
}

proof fn lemma_markers_back(c: Seq<char>, i: int)
    requires
        0 <= i <= c.len(),
    ensures
        bold_render(c, i, false) == c.subrange(i, c.len() as int),
    decreases c.len() - i,
{
    if i < c.len() {
        if is_pair(c, i) {
            let m = c[i];
            let j = pair_end(c, i + 2, m);
            lemma_pair_end(c, i + 2, m);
            if j + 1 < c.len() && j >= i + 2 {
                lemma_markers_back(c, j + 2);
                assert(seq![m, m] + c.subrange(i + 2, j) + seq![m, m] + c.subrange(j + 2, c.len() as int)
                    =~= c.subrange(i, c.len() as int));
            } else {
                assert(seq![m, m] + c.subrange(i + 2, c.len() as int) =~= c.subrange(i, c.len() as int));
            }
        } else {
            lemma_markers_back(c, i + 1);
            assert(seq![c[i]] + c.subrange(i + 1, c.len() as int) =~= c.subrange(i, c.len() as int));
        }
    } else {
        assert(c.subrange(i, c.len() as int) =~= Seq::<char>::empty());
    }
}

/// The bold conversion is undone by writing the markers back: the same reading of `c` with
/// each bold span's two pairs of `*` or `_` in place of `<b>` and `</b>` gives `c` itself.
pub proof fn lemma_bold_markers_back(c: Seq<char>)
    ensures
        bold_render(c, 0, false) == c,
{
    lemma_markers_back(c, 0);
    assert(c.subrange(0, c.len() as int) =~= c);
}

/// `s` with each `<b>` and each `</b>` written as `**`, the other characters kept.
pub open spec fn tags_to_markers(s: Seq<char>) -> Seq<char>
    decreases s.len(),
{
    if s.len() == 0 {
        Seq::empty()
    } else if s.len() >= 3 && s.subrange(0, 3) == seq!['<', 'b', '>'] {
        seq!['*', '*'] + tags_to_markers(s.subrange(3, s.len() as int))
    } else if s.len() >= 4 && s.subrange(0, 4) == seq!['<', '/', 'b', '>'] {
        seq!['*', '*'] + tags_to_markers(s.subrange(4, s.len() as int))
    } else {
        seq![s[0]] + tags_to_markers(s.subrange(1, s.len() as int))
    }
}

proof fn lemma_tags_plain(u: Seq<char>, v: Seq<char>)
    requires
        forall|k: int| 0 <= k < u.len() ==> #[trigger] u[k] != '<',
    ensures
        tags_to_markers(u + v) == u + tags_to_markers(v),
    decreases u.len(),
{
    if u.len() > 0 {
        let w = u + v;
        assert(w[0] == u[0]);
        assert(w.len() >= 3 ==> w.subrange(0, 3)[0] == u[0]);
        assert(w.len() >= 4 ==> w.subrange(0, 4)[0] == u[0]);
        let u1 = u.subrange(1, u.len() as int);
        assert(w.subrange(1, w.len() as int) =~= u1 + v);
        lemma_tags_plain(u1, v);
        assert(seq![u[0]] + (u1 + tags_to_markers(v)) =~= u + tags_to_markers(v));
    } else {
        assert(u + v =~= v);
    }
}

proof fn lemma_tags_open(v: Seq<char>)
    ensures
        tags_to_markers(seq!['<', 'b', '>'] + v) == seq!['*', '*'] + tags_to_markers(v),
{
    let w = seq!['<', 'b', '>'] + v;
    assert(w.subrange(0, 3) =~= seq!['<', 'b', '>']);
    assert(w.subrange(3, w.len() as int) =~= v);
}

proof fn lemma_tags_close(v: Seq<char>)
    ensures
        tags_to_markers(seq!['<', '/', 'b', '>'] + v) == seq!['*', '*'] + tags_to_markers(v),
{
    let w = seq!['<', '/', 'b', '>'] + v;
    assert(w.subrange(0, 3)[1] == '/');
    assert(w.subrange(0, 3) != seq!['<', 'b', '>']);
    assert(w.subrange(0, 4) =~= seq!['<', '/', 'b', '>']);
    assert(w.subrange(4, w.len() as int) =~= v);
}

proof fn lemma_tags_back(c: Seq<char>, i: int)
    requires
        0 <= i <= c.len(),
        forall|k: int| 0 <= k < c.len() ==> #[trigger] c[k] != '<' && c[k] != '_',
    ensures
        tags_to_markers(bold_render(c, i, true)) == c.subrange(i, c.len() as int),
    decreases c.len() - i,
{
    if i < c.len() {
        if is_pair(c, i) {
            let m = c[i];
            assert(m == '*');
            let j = pair_end(c, i + 2, m);
            lemma_pair_end(c, i + 2, m);
            if j + 1 < c.len() && j >= i + 2 {
                lemma_tags_back(c, j + 2);
                let inner = c.subrange(i + 2, j);
                let rest = bold_render(c, j + 2, true);
                assert(bold_render(c, i, true) =~= seq!['<', 'b', '>'] + (inner + (seq!['<', '/', 'b', '>'] + rest)));
                lemma_tags_open(inner + (seq!['<', '/', 'b', '>'] + rest));
                lemma_tags_plain(inner, seq!['<', '/', 'b', '>'] + rest);
                lemma_tags_close(rest);
                assert(seq!['*', '*'] + (inner + (seq!['*', '*'] + c.subrange(j + 2, c.len() as int)))
                    =~= c.subrange(i, c.len() as int));
            } else {
                let u = seq![m, m] + c.subrange(i + 2, c.len() as int);
                lemma_tags_plain(u, Seq::empty());
                assert(u + Seq::<char>::empty() =~= u);
                assert(u =~= c.subrange(i, c.len() as int));
            }
        } else {
            lemma_tags_back(c, i + 1);
            lemma_tags_plain(seq![c[i]], bold_render(c, i + 1, true));
            assert(seq![c[i]] + c.subrange(i + 1, c.len() as int) =~= c.subrange(i, c.len() as int));
        }
    } else {
        assert(c.subrange(i, c.len() as int) =~= Seq::<char>::empty());
    }
}

/// For text with no `<` and no `_`, writing each `<b>` and `</b>` of the bold conversion back
/// as `**` gives the text itself.
pub proof fn lemma_bold_tags_back(c: Seq<char>)
    requires
        forall|k: int| 0 <= k < c.len() ==> #[trigger] c[k] != '<' && c[k] != '_',
    ensures
        tags_to_markers(bold_from(c, 0)) == c,
{
    lemma_tags_back(c, 0);
    assert(c.subrange(0, c.len() as int) =~= c);
}

/// `k` hash signs.
pub open spec fn hashes(k: nat) -> Seq<char> {
    Seq::new(k, |i: int| '#')
}

/// The digit of a heading level for a marker of `k` hash signs: `k`, but `6` from six on.
pub open spec fn level_digit(k: nat) -> char {
    if k == 1 {
        '1'
    } else if k == 2 {
        '2'
    } else if k == 3 {
        '3'
    } else if k == 4 {
        '4'
    } else if k == 5 {
        '5'
    } else {
        '6'
    }
}

proof fn lemma_hashes_first_space(k: nat, w: Seq<char>)
    ensures
        first_space(hashes(k) + seq![' '] + w) == k,
    decreases k,
{
    let s = hashes(k) + seq![' '] + w;
    if k == 0 {
        assert(s[0] == ' ');
    } else {
        assert(s[0] == '#');
        assert(s.drop_first() =~= hashes((k - 1) as nat) + seq![' '] + w);
        lemma_hashes_first_space((k - 1) as nat, w);
    }
}

proof fn lemma_hashes_utf8_len(k: nat)
    ensures
        utf8_len(hashes(k)) == k,
    decreases k,
{
    if k > 0 {
        assert(hashes(k).drop_last() =~= hashes((k - 1) as nat));
        assert(hashes(k).last() == '#');
        assert(utf8_width('#') == 1);
        lemma_hashes_utf8_len((k - 1) as nat);
    }
}

/// A heading line of `k` hash signs, a space and a word is the word in an `h` element of level
/// `k`, or `6` from six hash signs on.
pub proof fn lemma_heading_of_hashes(k: nat, w: Seq<char>)
    requires
        k >= 1,
        w.len() > 0,
        !spec_is_whitespace(w[0]),
        !spec_is_whitespace(w.last()),
    ensures
        heading_html(hashes(k) + seq![' '] + w) == seq!['<', 'h', level_digit(k), '>'] + w + seq!['<', '/', 'h',
            level_digit(k), '>'],
{
    let s = hashes(k) + seq![' '] + w;
    lemma_hashes_first_space(k, w);
    assert(s.subrange(0, k as int) =~= hashes(k));
    lemma_hashes_utf8_len(k);
    assert(s.subrange(k as int + 1, s.len() as int) =~= w);
    assert(trim_start_index(w) == 0);
    assert(trim_end_index(w) == w.len());
    assert(w.subrange(0, w.len() as int) =~= w);
    assert(trim(w) == w);
    let d = ((heading_level(k) + 48) as u8) as char;
    assert(d == level_digit(k)) by {
        if k >= 6 {
            assert(heading_level(k) == 6);
            assert(((6 + 48) as u8) as char == '6');
        } else if k == 1 {
            assert(((1 + 48) as u8) as char == '1');
        } else if k == 2 {
            assert(((2 + 48) as u8) as char == '2');
        } else if k == 3 {
            assert(((3 + 48) as u8) as char == '3');
        } else if k == 4 {
            assert(((4 + 48) as u8) as char == '4');
        } else {
            assert(((5 + 48) as u8) as char == '5');
        }
    }
}

} // verus!
