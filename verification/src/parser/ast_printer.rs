//! Writes the syntax tree as nested parenthesized forms, for inspection.
use vstd::prelude::*;
use vstd::string::StringExecFns;
use crate::numbers::{decimal, digit, usize_to_string};
use crate::lexer::scanner::count_of;
use crate::parser::in_line_node::{InLineNode, Inline, inline_view, inlines_view};
use crate::parser::markdown_node::{Block, MarkdownNode};
use crate::parser::visitor::NodeVisitor;
use crate::text::{push_char, push_str};

verus! {

/// `(name children)`.
pub open spec fn parenthesize(name: Seq<char>, children: Seq<char>) -> Seq<char> {
    seq!['('] + name + seq![' '] + children + seq![')']
}

/// The form for an inline node: text in double quotes, spans as `(name children)`.
pub open spec fn print_inline(n: Inline) -> Seq<char>
    decreases n, 1nat,
{
    match n {
        Inline::BreakLine => "(br)"@,
        Inline::Text(t) => seq!['"'] + t + seq!['"'],
        Inline::Emphasis(c) => parenthesize("em"@, print_all(c)),
        Inline::Strong(c) => parenthesize("strong"@, print_all(c)),
        Inline::Strikethrough(c) => parenthesize("strike"@, print_all(c)),
        Inline::Link { content, dest } => parenthesize("link href="@ + dest, print_all(content)),
        Inline::Code(c) => parenthesize("code"@, print_all(c)),
    }
}

/// The forms of `s` separated by single spaces.
pub open spec fn print_all(s: Seq<Inline>) -> Seq<char>
    decreases s, 0nat,
{
    if s.len() == 0 {
        Seq::empty()
    } else if s.len() == 1 {
        print_inline(s[0])
    } else {
        print_all(s.subrange(0, s.len() - 1)) + seq![' '] + print_inline(s[s.len() - 1])
    }
}

/// The form for a block.
pub open spec fn print_block(b: Block) -> Seq<char> {
    match b {
        Block::Heading { level, content } => "(heading level="@ + decimal(level as nat) + seq![' ']
            + print_all(content) + seq![')'],
        Block::Paragraph(c) => "(paragraph "@ + print_all(c) + seq![')'],
        Block::HorizontalRule => "(hr)"@,
        Block::Code { language, content } => parenthesize("code-block language="@ + language, print_all(content)),
    }
}

/// No parenthesis in `s`.
pub open spec fn parens_free(s: Seq<char>) -> bool {
    count_of(s, '(') == 0 && count_of(s, ')') == 0
}

/// No parenthesis in the text, addresses or code of an inline node.
pub open spec fn inline_parens_free(n: Inline) -> bool
    decreases n, 1nat,
{
    match n {
        Inline::BreakLine => true,
        Inline::Text(t) => parens_free(t),
        Inline::Emphasis(c) => all_parens_free(c),
        Inline::Strong(c) => all_parens_free(c),
        Inline::Strikethrough(c) => all_parens_free(c),
        Inline::Link { content, dest } => parens_free(dest) && all_parens_free(content),
        Inline::Code(c) => all_parens_free(c),
    }
}

pub open spec fn all_parens_free(s: Seq<Inline>) -> bool
    decreases s, 0nat,
{
    if s.len() == 0 {
        true
    } else {
        all_parens_free(s.subrange(0, s.len() - 1)) && inline_parens_free(s[s.len() - 1])
    }
}

/// No parenthesis in the text of a block, its code language included.
pub open spec fn block_parens_free(b: Block) -> bool {
    match b {
        Block::Heading { content, .. } => all_parens_free(content),
        Block::Paragraph(c) => all_parens_free(c),
        Block::HorizontalRule => true,
        Block::Code { language, content } => parens_free(language) && all_parens_free(content),
    }
}

proof fn lemma_count_concat(a: Seq<char>, b: Seq<char>, m: char)
    ensures
        count_of(a + b, m) == count_of(a, m) + count_of(b, m),
    decreases b.len(),
{
    if b.len() == 0 {
        assert(a + b =~= a);
    } else {
        lemma_count_concat(a, b.drop_last(), m);
        assert((a + b).drop_last() =~= a + b.drop_last());
    }
}

proof fn lemma_count_literal(s: Seq<char>)
    requires
        forall|k: int| 0 <= k < s.len() ==> #[trigger] s[k] != '(' && s[k] != ')',
    ensures
        parens_free(s),
    decreases s.len(),
{
    if s.len() > 0 {
        lemma_count_literal(s.drop_last());
    }
}

proof fn lemma_decimal_parens_free(n: nat)
    ensures
        parens_free(decimal(n)),
    decreases n,
{
    assert forall|d: nat| d < 10 implies #[trigger] digit(d) != '(' && digit(d) != ')' by {
        assert(((d + 48) as u8) == d + 48);
    }
    if n < 10 {
        lemma_count_literal(seq![digit(n)]);
    } else {
        lemma_decimal_parens_free(n / 10);
        lemma_count_literal(seq![digit(n % 10)]);
        lemma_count_concat(decimal(n / 10), seq![digit(n % 10)], '(');
        lemma_count_concat(decimal(n / 10), seq![digit(n % 10)], ')');
        assert(decimal(n / 10).push(digit(n % 10)) =~= decimal(n / 10) + seq![digit(n % 10)]);
    }
}

/// The number of `(` minus the number of `)`.
pub open spec fn paren_excess(s: Seq<char>) -> int {
    count_of(s, '(') - count_of(s, ')')
}

proof fn lemma_excess_concat(a: Seq<char>, b: Seq<char>)
    ensures
        paren_excess(a + b) == paren_excess(a) + paren_excess(b),
{
    lemma_count_concat(a, b, '(');
    lemma_count_concat(a, b, ')');
}

proof fn lemma_print_inline_balanced(n: Inline)
    requires
        inline_parens_free(n),
    ensures
        paren_excess(print_inline(n)) == 0,
        print_inline(n).len() > 0,
    decreases n, 1nat,
{
    reveal_with_fuel(count_of, 5);
    match n {
        Inline::BreakLine => {
            reveal_strlit("(br)");
            reveal_strlit("br");
            assert("(br)"@ =~= seq!['('] + "br"@ + seq![')']);
            lemma_count_literal("br"@);
            lemma_excess_concat(seq!['('] + "br"@, seq![')']);
            lemma_excess_concat(seq!['('], "br"@);
        },
        Inline::Text(t) => {
            lemma_excess_concat(seq!['"'] + t, seq!['"']);
            lemma_excess_concat(seq!['"'], t);
        },
        Inline::Emphasis(c) => {
            lemma_print_all_balanced(c);
            reveal_strlit("em");
            lemma_count_literal("em"@);
            lemma_parenthesize_balanced("em"@, print_all(c));
        },
        Inline::Strong(c) => {
            lemma_print_all_balanced(c);
            reveal_strlit("strong");
            lemma_count_literal("strong"@);
            lemma_parenthesize_balanced("strong"@, print_all(c));
        },
        Inline::Strikethrough(c) => {
            lemma_print_all_balanced(c);
            reveal_strlit("strike");
            lemma_count_literal("strike"@);
            lemma_parenthesize_balanced("strike"@, print_all(c));
        },
        Inline::Link { content, dest } => {
            lemma_print_all_balanced(content);
            reveal_strlit("link href=");
            lemma_count_literal("link href="@);
            lemma_excess_concat("link href="@, dest);
            lemma_parenthesize_balanced("link href="@ + dest, print_all(content));
        },
        Inline::Code(c) => {
            lemma_print_all_balanced(c);
            reveal_strlit("code");
            lemma_count_literal("code"@);
            lemma_parenthesize_balanced("code"@, print_all(c));
        },
    }
}

proof fn lemma_print_all_balanced(s: Seq<Inline>)
    requires
        all_parens_free(s),
    ensures
        paren_excess(print_all(s)) == 0,
    decreases s, 0nat,
{
    reveal_with_fuel(count_of, 2);
    if s.len() == 1 {
        assert(s.subrange(0, 0).len() == 0);
        lemma_print_inline_balanced(s[0]);
    } else if s.len() > 1 {
        let init = s.subrange(0, s.len() - 1);
        lemma_print_all_balanced(init);
        lemma_print_inline_balanced(s[s.len() - 1]);
        lemma_excess_concat(print_all(init) + seq![' '], print_inline(s[s.len() - 1]));
        lemma_excess_concat(print_all(init), seq![' ']);
    }
}

proof fn lemma_parenthesize_balanced(name: Seq<char>, children: Seq<char>)
    requires
        paren_excess(name) == 0,
        paren_excess(children) == 0,
    ensures
        paren_excess(parenthesize(name, children)) == 0,
{
    reveal_with_fuel(count_of, 2);
    lemma_excess_concat(seq!['('] + name + seq![' '] + children, seq![')']);
    lemma_excess_concat(seq!['('] + name + seq![' '], children);
    lemma_excess_concat(seq!['('] + name, seq![' ']);
    lemma_excess_concat(seq!['('], name);
}

/// The form of a block is one parenthesized form: it starts with `(`, ends with `)`, and when
/// its text holds no parenthesis, it holds as many `(` as `)`.
pub proof fn lemma_print_block_shape(b: Block)
    ensures
        print_block(b).len() >= 2,
        print_block(b)[0] == '(',
        print_block(b).last() == ')',
        block_parens_free(b) ==> paren_excess(print_block(b)) == 0,
{
    reveal_with_fuel(count_of, 2);
    match b {
        Block::Heading { level, content } => {
            let s = "(heading level="@ + decimal(level as nat) + seq![' '] + print_all(content) + seq![')'];
            assert(s[0] == '(') by { reveal_strlit("(heading level="); }
            if block_parens_free(b) {
                reveal_strlit("(heading level=");
                lemma_print_all_balanced(content);
                lemma_decimal_parens_free(level as nat);
                reveal_strlit("heading level=");
                lemma_count_literal("heading level="@);
                assert("(heading level="@ =~= seq!['('] + "heading level="@);
                lemma_excess_concat(seq!['('], "heading level="@);
                lemma_excess_concat("(heading level="@ + decimal(level as nat) + seq![' '] + print_all(content), seq![')']);
                lemma_excess_concat("(heading level="@ + decimal(level as nat) + seq![' '], print_all(content));
                lemma_excess_concat("(heading level="@ + decimal(level as nat), seq![' ']);
                lemma_excess_concat("(heading level="@, decimal(level as nat));
            }
        },
        Block::Paragraph(c) => {
            assert(print_block(b)[0] == '(') by { reveal_strlit("(paragraph "); }
            if block_parens_free(b) {
                reveal_strlit("(paragraph ");
                lemma_print_all_balanced(c);
                reveal_strlit("paragraph ");
                lemma_count_literal("paragraph "@);
                assert("(paragraph "@ =~= seq!['('] + "paragraph "@);
                lemma_excess_concat(seq!['('], "paragraph "@);
                lemma_excess_concat("(paragraph "@ + print_all(c), seq![')']);
                lemma_excess_concat("(paragraph "@, print_all(c));
            }
        },
        Block::HorizontalRule => {
            reveal_strlit("(hr)");
            reveal_strlit("hr");
            assert("(hr)"@ =~= seq!['('] + "hr"@ + seq![')']);
            lemma_count_literal("hr"@);
            lemma_excess_concat(seq!['('] + "hr"@, seq![')']);
            lemma_excess_concat(seq!['('], "hr"@);
        },
        Block::Code { language, content } => {
            if block_parens_free(b) {
                lemma_print_all_balanced(content);
                reveal_strlit("code-block language=");
                lemma_count_literal("code-block language="@);
                lemma_excess_concat("code-block language="@, language);
                lemma_parenthesize_balanced("code-block language="@ + language, print_all(content));
            }
        },
    }
}

/// How many inline nodes in `n` (itself included) are printed as a parenthesized form: all but
/// text.
pub open spec fn forms_in(n: Inline) -> nat
    decreases n, 1nat,
{
    match n {
        Inline::BreakLine => 1,
        Inline::Text(_) => 0,
        Inline::Emphasis(c) => 1 + forms_in_all(c),
        Inline::Strong(c) => 1 + forms_in_all(c),
        Inline::Strikethrough(c) => 1 + forms_in_all(c),
        Inline::Link { content, .. } => 1 + forms_in_all(content),
        Inline::Code(c) => 1 + forms_in_all(c),
    }
}

pub open spec fn forms_in_all(s: Seq<Inline>) -> nat
    decreases s, 0nat,
{
    if s.len() == 0 {
        0
    } else {
        forms_in_all(s.subrange(0, s.len() - 1)) + forms_in(s[s.len() - 1])
    }
}

/// How many text nodes `n` holds (itself included).
pub open spec fn texts_in(n: Inline) -> nat
    decreases n, 1nat,
{
    match n {
        Inline::BreakLine => 0,
        Inline::Text(_) => 1,
        Inline::Emphasis(c) => texts_in_all(c),
        Inline::Strong(c) => texts_in_all(c),
        Inline::Strikethrough(c) => texts_in_all(c),
        Inline::Link { content, .. } => texts_in_all(content),
        Inline::Code(c) => texts_in_all(c),
    }
}

pub open spec fn texts_in_all(s: Seq<Inline>) -> nat
    decreases s, 0nat,
{
    if s.len() == 0 {
        0
    } else {
        texts_in_all(s.subrange(0, s.len() - 1)) + texts_in(s[s.len() - 1])
    }
}

/// How many times `m` occurs in the text and link addresses of `n`.
pub open spec fn chars_in(n: Inline, m: char) -> nat
    decreases n, 1nat,
{
    match n {
        Inline::BreakLine => 0,
        Inline::Text(t) => count_of(t, m),
        Inline::Emphasis(c) => chars_in_all(c, m),
        Inline::Strong(c) => chars_in_all(c, m),
        Inline::Strikethrough(c) => chars_in_all(c, m),
        Inline::Link { content, dest } => count_of(dest, m) + chars_in_all(content, m),
        Inline::Code(c) => chars_in_all(c, m),
    }
}

pub open spec fn chars_in_all(s: Seq<Inline>, m: char) -> nat
    decreases s, 0nat,
{
    if s.len() == 0 {
        0
    } else {
        chars_in_all(s.subrange(0, s.len() - 1), m) + chars_in(s[s.len() - 1], m)
    }
}

/// The number of `(` in the form of `n`, and the number of `"`.
pub open spec fn marks_expected(n: Inline, m: char) -> nat {
    if m == '(' {
        forms_in(n) + chars_in(n, m)
    } else {
        2 * texts_in(n) + chars_in(n, m)
    }
}

pub open spec fn marks_expected_all(s: Seq<Inline>, m: char) -> nat {
    if m == '(' {
        forms_in_all(s) + chars_in_all(s, m)
    } else {
        2 * texts_in_all(s) + chars_in_all(s, m)
    }
}

proof fn lemma_no_mark(s: Seq<char>, m: char)
    requires
        forall|k: int| 0 <= k < s.len() ==> #[trigger] s[k] != m,
    ensures
        count_of(s, m) == 0,
    decreases s.len(),
{
    if s.len() > 0 {
        lemma_no_mark(s.drop_last(), m);
    }
}

proof fn lemma_form_marks(name: Seq<char>, children: Seq<char>, m: char)
    requires
        m == '(' || m == '"',
    ensures
        count_of(parenthesize(name, children), m) == count_of(name, m) + count_of(children, m) + if m == '(' {
            1int
        } else {
            0int
        },
{
    reveal_with_fuel(count_of, 2);
    lemma_count_concat(seq!['('] + name + seq![' '] + children, seq![')'], m);
    lemma_count_concat(seq!['('] + name + seq![' '], children, m);
    lemma_count_concat(seq!['('] + name, seq![' '], m);
    lemma_count_concat(seq!['('], name, m);
}

proof fn lemma_print_inline_marks(n: Inline, m: char)
    requires
        m == '(' || m == '"',
    ensures
        count_of(print_inline(n), m) == marks_expected(n, m),
    decreases n, 1nat,
{
    reveal_with_fuel(count_of, 5);
    match n {
        Inline::BreakLine => {
            reveal_strlit("(br)");
            assert("(br)"@ =~= seq!['('] + seq!['b', 'r'] + seq![')']);
            lemma_count_concat(seq!['('] + seq!['b', 'r'], seq![')'], m);
            lemma_count_concat(seq!['('], seq!['b', 'r'], m);
        },
        Inline::Text(t) => {
            lemma_count_concat(seq!['"'] + t, seq!['"'], m);
            lemma_count_concat(seq!['"'], t, m);
        },
        Inline::Emphasis(c) => {
            lemma_print_all_marks(c, m);
            reveal_strlit("em");
            lemma_no_mark("em"@, m);
            lemma_form_marks("em"@, print_all(c), m);
        },
        Inline::Strong(c) => {
            lemma_print_all_marks(c, m);
            reveal_strlit("strong");
            lemma_no_mark("strong"@, m);
            lemma_form_marks("strong"@, print_all(c), m);
        },
        Inline::Strikethrough(c) => {
            lemma_print_all_marks(c, m);
            reveal_strlit("strike");
            lemma_no_mark("strike"@, m);
            lemma_form_marks("strike"@, print_all(c), m);
        },
        Inline::Link { content, dest } => {
            lemma_print_all_marks(content, m);
            reveal_strlit("link href=");
            lemma_no_mark("link href="@, m);
            lemma_count_concat("link href="@, dest, m);
            lemma_form_marks("link href="@ + dest, print_all(content), m);
        },
        Inline::Code(c) => {
            lemma_print_all_marks(c, m);
            reveal_strlit("code");
            lemma_no_mark("code"@, m);
            lemma_form_marks("code"@, print_all(c), m);
        },
    }
}

proof fn lemma_print_all_marks(s: Seq<Inline>, m: char)
    requires
        m == '(' || m == '"',
    ensures
        count_of(print_all(s), m) == marks_expected_all(s, m),
    decreases s, 0nat,
{
    reveal_with_fuel(count_of, 2);
    if s.len() == 1 {
        assert(s.subrange(0, 0).len() == 0);
        lemma_print_inline_marks(s[0], m);
    } else if s.len() > 1 {
        let init = s.subrange(0, s.len() - 1);
        lemma_print_all_marks(init, m);
        lemma_print_inline_marks(s[s.len() - 1], m);
        lemma_count_concat(print_all(init) + seq![' '], print_inline(s[s.len() - 1]), m);
        lemma_count_concat(print_all(init), seq![' '], m);
    }
}

/// How many times `m` occurs in the text of a block: its inline text, link addresses, and code
/// language.
pub open spec fn block_chars(b: Block, m: char) -> nat {
    match b {
        Block::Heading { content, .. } => chars_in_all(content, m),
        Block::Paragraph(c) => chars_in_all(c, m),
        Block::HorizontalRule => 0,
        Block::Code { language, content } => count_of(language, m) + chars_in_all(content, m),
    }
}

/// The inline content of a block.
pub open spec fn block_content(b: Block) -> Seq<Inline> {
    match b {
        Block::Heading { content, .. } => content,
        Block::Paragraph(c) => c,
        Block::HorizontalRule => Seq::empty(),
        Block::Code { content, .. } => content,
    }
}

/// The form of a block holds one `(` for the block, one for each inline node that is not
/// text, and those of the text; and two `"` for each text node, and those of the text.
pub proof fn lemma_print_block_marks(b: Block)
    ensures
        count_of(print_block(b), '(') == 1 + forms_in_all(block_content(b)) + block_chars(b, '('),
        count_of(print_block(b), '"') == 2 * texts_in_all(block_content(b)) + block_chars(b, '"'),
{
    lemma_print_block_marks_of(b, '(');
    lemma_print_block_marks_of(b, '"');
}

proof fn lemma_print_block_marks_of(b: Block, m: char)
    requires
        m == '(' || m == '"',
    ensures
        count_of(print_block(b), m) == (if m == '(' { 1int } else { 0int }) + marks_expected_all(block_content(b), m)
            + block_chars(b, m) - chars_in_all(block_content(b), m),
{
    reveal_with_fuel(count_of, 2);
    lemma_decimal_marks(m);
    match b {
        Block::Heading { level, content } => {
            lemma_print_all_marks(content, m);
            reveal_strlit("(heading level=");
            reveal_strlit("heading level=");
            lemma_no_mark("heading level="@, m);
            assert("(heading level="@ =~= seq!['('] + "heading level="@);
            lemma_count_concat(seq!['('], "heading level="@, m);
            lemma_count_concat("(heading level="@ + decimal(level as nat) + seq![' '] + print_all(content), seq![')'], m);
            lemma_count_concat("(heading level="@ + decimal(level as nat) + seq![' '], print_all(content), m);
            lemma_count_concat("(heading level="@ + decimal(level as nat), seq![' '], m);
            lemma_count_concat("(heading level="@, decimal(level as nat), m);
        },
        Block::Paragraph(c) => {
            lemma_print_all_marks(c, m);
            reveal_strlit("(paragraph ");
            reveal_strlit("paragraph ");
            lemma_no_mark("paragraph "@, m);
            assert("(paragraph "@ =~= seq!['('] + "paragraph "@);
            lemma_count_concat(seq!['('], "paragraph "@, m);
            lemma_count_concat("(paragraph "@ + print_all(c), seq![')'], m);
            lemma_count_concat("(paragraph "@, print_all(c), m);
        },
        Block::HorizontalRule => {
            reveal_strlit("(hr)");
            assert("(hr)"@ =~= seq!['('] + seq!['h', 'r'] + seq![')']);
            lemma_count_concat(seq!['('] + seq!['h', 'r'], seq![')'], m);
            lemma_count_concat(seq!['('], seq!['h', 'r'], m);
            lemma_no_mark(seq!['h', 'r'], m);
            assert(forms_in_all(Seq::<Inline>::empty()) == 0);
            assert(texts_in_all(Seq::<Inline>::empty()) == 0);
            assert(chars_in_all(Seq::<Inline>::empty(), m) == 0);
        },
        Block::Code { language, content } => {
            lemma_print_all_marks(content, m);
            reveal_strlit("code-block language=");
            lemma_no_mark("code-block language="@, m);
            lemma_count_concat("code-block language="@, language, m);
            lemma_form_marks("code-block language="@ + language, print_all(content), m);
        },
    }
}

proof fn lemma_decimal_marks(m: char)
    requires
        m == '(' || m == '"',
    ensures
        forall|n: nat| #[trigger] count_of(decimal(n), m) == 0,
{
    assert forall|n: nat| #[trigger] count_of(decimal(n), m) == 0 by {
        lemma_decimal_no_mark(n, m);
    }
}

proof fn lemma_decimal_no_mark(n: nat, m: char)
    requires
        m == '(' || m == '"',
    ensures
        count_of(decimal(n), m) == 0,
    decreases n,
{
    assert forall|d: nat| d < 10 implies #[trigger] digit(d) != m by {
        assert(((d + 48) as u8) == d + 48);
    }
    if n < 10 {
        lemma_no_mark(seq![digit(n)], m);
    } else {
        lemma_decimal_no_mark(n / 10, m);
        lemma_no_mark(seq![digit(n % 10)], m);
        lemma_count_concat(decimal(n / 10), seq![digit(n % 10)], m);
        assert(decimal(n / 10).push(digit(n % 10)) =~= decimal(n / 10) + seq![digit(n % 10)]);
    }
}

proof fn lemma_print_one(n: Inline)
    ensures
        print_all(seq![n]) == print_inline(n),
{
}

/// The printed forms around a text `w`: a text in double quotes, each span as
/// `(name "w")`, and blocks as `(paragraph ...)`, `(heading level=L ...)`, `(hr)` and
/// `(code-block language=L ...)`.
pub proof fn lemma_print_forms(w: Seq<char>, d: Seq<char>)
    ensures
        print_inline(Inline::Text(w)) == seq!['"'] + w + seq!['"'],
        print_inline(Inline::Emphasis(seq![Inline::Text(w)])) == "(em \""@ + w + "\")"@,
        print_inline(Inline::Strong(seq![Inline::Text(w)])) == "(strong \""@ + w + "\")"@,
        print_inline(Inline::Strikethrough(seq![Inline::Text(w)])) == "(strike \""@ + w + "\")"@,
        print_inline(Inline::Code(seq![Inline::Text(w)])) == "(code \""@ + w + "\")"@,
        print_inline(Inline::Link { content: seq![Inline::Text(w)], dest: d }) == "(link href="@ + d + " \""@ + w
            + "\")"@,
        print_inline(Inline::BreakLine) == "(br)"@,
        print_block(Block::Paragraph(seq![Inline::Text(w)])) == "(paragraph \""@ + w + "\")"@,
        print_block(Block::Heading { level: 1, content: seq![Inline::Text(w)] }) == "(heading level=1 \""@ + w
            + "\")"@,
        print_block(Block::HorizontalRule) == "(hr)"@,
        print_block(Block::Code { language: d, content: seq![Inline::Text(w)] }) == "(code-block language="@ + d
            + " \""@ + w + "\")"@,
{
    reveal_strlit("(em \"");
    reveal_strlit("(strong \"");
    reveal_strlit("(strike \"");
    reveal_strlit("(code \"");
    reveal_strlit("(link href=");
    reveal_strlit(" \"");
    reveal_strlit("\")");
    reveal_strlit("(paragraph \"");
    reveal_strlit("(paragraph ");
    reveal_strlit("(heading level=1 \"");
    reveal_strlit("(heading level=");
    reveal_strlit("(code-block language=");
    reveal_strlit("code-block language=");
    reveal_strlit("link href=");
    reveal_strlit("em");
    reveal_strlit("strong");
    reveal_strlit("strike");
    reveal_strlit("code");
    let t = Inline::Text(w);
    let q = seq!['"'] + w + seq!['"'];
    lemma_print_one(t);
    assert(decimal(1) =~= seq!['1']);
    assert(parenthesize("em"@, q) =~= "(em \""@ + w + "\")"@);
    assert(parenthesize("strong"@, q) =~= "(strong \""@ + w + "\")"@);
    assert(parenthesize("strike"@, q) =~= "(strike \""@ + w + "\")"@);
    assert(parenthesize("code"@, q) =~= "(code \""@ + w + "\")"@);
    assert(parenthesize("link href="@ + d, q) =~= "(link href="@ + d + " \""@ + w + "\")"@);
    assert("(paragraph "@ + q + seq![')'] =~= "(paragraph \""@ + w + "\")"@);
    assert("(heading level="@ + decimal(1) + seq![' '] + q + seq![')'] =~= "(heading level=1 \""@ + w + "\")"@);
    assert(parenthesize("code-block language="@ + d, q) =~= "(code-block language="@ + d + " \""@ + w + "\")"@);
}

pub struct AstPrinter;

impl AstPrinter {
    pub fn print(&mut self, node: &MarkdownNode) -> (s: String)
        ensures
            s@ == print_block(node@),
    {
        match node {
            MarkdownNode::Heading { level, content } => self.visit_heading(level, content),
            MarkdownNode::Paragraph(content) => self.visit_paragraph(content),
            MarkdownNode::HorizontalRule => self.visit_horizontal_rule(),
            MarkdownNode::Code { language, content } => self.visit_code_block(language.as_str(), content),
        }
    }

    fn print_in_line(&mut self, nodes: &Vec<InLineNode>) -> (s: String)
        ensures
            s@ == print_all(inlines_view(nodes@)),
        decreases nodes, 0nat,
    {
        let ghost v = inlines_view(nodes@);
        let mut s = String::new();
        let mut i: usize = 0;
        while i < nodes.len()
            invariant
                i <= nodes.len(),
                v == inlines_view(nodes@),
                s@ == print_all(v.subrange(0, i as int)),
            decreases nodes.len() - i,
        {
            proof {
                assert(decreases_to!(*nodes => nodes@[i as int]));
            }
            if i > 0 {
                push_char(&mut s, ' ');
            }
            let part = self.print_node(&nodes[i]);
            push_str(&mut s, part.as_str());
            i += 1;
            proof {
                let w = v.subrange(0, i as int);
                assert(w.subrange(0, w.len() - 1) =~= v.subrange(0, i - 1));
                assert(v[i - 1] == inline_view(nodes@[i - 1]));
                assert(s@ =~= print_all(w));
            }
        }
        assert(v.subrange(0, nodes.len() as int) =~= v);
        s
    }

    fn parenthesize(&mut self, name: String, children: &Vec<InLineNode>) -> (s: String)
        ensures
            s@ == parenthesize(name@, print_all(inlines_view(children@))),
        decreases children, 1nat,
    {
        let mut s = String::new();
        push_char(&mut s, '(');
        push_str(&mut s, name.as_str());
        push_char(&mut s, ' ');
        let inner = self.print_in_line(children);
        push_str(&mut s, inner.as_str());
        push_char(&mut s, ')');
        assert(s@ =~= parenthesize(name@, print_all(inlines_view(children@))));
        s
    }

    fn print_node(&mut self, node: &InLineNode) -> (s: String)
        ensures
            s@ == print_inline(inline_view(*node)),
        decreases node, 2nat,
    {
        match node {
            InLineNode::BreakLine => String::from_str("(br)"),
            InLineNode::Text(text) => quoted(text.as_str()),
            InLineNode::Emphasis(content) => self.parenthesize(String::from_str("em"), content),
            InLineNode::Strong(content) => self.parenthesize(String::from_str("strong"), content),
            InLineNode::Strikethrough(content) => self.parenthesize(String::from_str("strike"), content),
            InLineNode::Link { content, dest } => self.parenthesize(link_name(dest.as_str()), content),
            InLineNode::Code(content) => self.parenthesize(String::from_str("code"), content),
        }
    }
}

/// `text` in double quotes.
fn quoted(text: &str) -> (s: String)
    ensures
        s@ == print_inline(Inline::Text(text@)),
{
    let mut s = String::new();
    push_char(&mut s, '"');
    push_str(&mut s, text);
    push_char(&mut s, '"');
    assert(s@ =~= seq!['"'] + text@ + seq!['"']);
    s
}

/// `link href=` and the address.
fn link_name(dest: &str) -> (s: String)
    ensures
        s@ == "link href="@ + dest@,
{
    let mut name = String::from_str("link href=");
    push_str(&mut name, dest);
    name
}

impl NodeVisitor<String> for AstPrinter {
    open spec fn text_result(&self, text: Seq<char>, r: String) -> bool {
        r@ == print_inline(Inline::Text(text))
    }

    open spec fn emphasis_result(&self, content: Seq<Inline>, r: String) -> bool {
        r@ == print_inline(Inline::Emphasis(content))
    }

    open spec fn strong_result(&self, content: Seq<Inline>, r: String) -> bool {
        r@ == print_inline(Inline::Strong(content))
    }

    open spec fn strikethrough_result(&self, content: Seq<Inline>, r: String) -> bool {
        r@ == print_inline(Inline::Strikethrough(content))
    }

    open spec fn link_result(&self, content: Seq<Inline>, dest: Seq<char>, r: String) -> bool {
        r@ == print_inline(Inline::Link { content, dest })
    }

    open spec fn break_line_result(&self, r: String) -> bool {
        r@ == print_inline(Inline::BreakLine)
    }

    open spec fn code_result(&self, content: Seq<Inline>, r: String) -> bool {
        r@ == print_inline(Inline::Code(content))
    }

    open spec fn heading_result(&self, level: usize, content: Seq<Inline>, r: String) -> bool {
        r@ == print_block(Block::Heading { level, content })
    }

    open spec fn paragraph_result(&self, content: Seq<Inline>, r: String) -> bool {
        r@ == print_block(Block::Paragraph(content))
    }

    open spec fn horizontal_rule_result(&self, r: String) -> bool {
        r@ == print_block(Block::HorizontalRule)
    }

    open spec fn code_block_result(&self, language: Seq<char>, content: Seq<Inline>, r: String) -> bool {
        r@ == print_block(Block::Code { language, content })
    }

    fn visit_text(&mut self, text: &str) -> (s: String)
        ensures
            s@ == print_inline(Inline::Text(text@)),
    {
        quoted(text)
    }

    fn visit_emphasis(&mut self, content: &Vec<InLineNode>) -> (s: String)
        ensures
            s@ == print_inline(Inline::Emphasis(inlines_view(content@))),
    {
        self.parenthesize(String::from_str("em"), content)
    }

    fn visit_strong(&mut self, content: &Vec<InLineNode>) -> (s: String)
        ensures
            s@ == print_inline(Inline::Strong(inlines_view(content@))),
    {
        self.parenthesize(String::from_str("strong"), content)
    }

    fn visit_strikethrough(&mut self, content: &Vec<InLineNode>) -> (s: String)
        ensures
            s@ == print_inline(Inline::Strikethrough(inlines_view(content@))),
    {
        self.parenthesize(String::from_str("strike"), content)
    }

    fn visit_link(&mut self, content: &Vec<InLineNode>, dest: &str) -> (s: String)
        ensures
            s@ == print_inline(Inline::Link { content: inlines_view(content@), dest: dest@ }),
    {
        self.parenthesize(link_name(dest), content)
    }

    fn visit_break_line(&mut self) -> (s: String)
        ensures
            s@ == print_inline(Inline::BreakLine),
    {
        String::from_str("(br)")
    }

    fn visit_code(&mut self, content: &Vec<InLineNode>) -> (s: String)
        ensures
            s@ == print_inline(Inline::Code(inlines_view(content@))),
    {
        self.parenthesize(String::from_str("code"), content)
    }

    fn visit_heading(&mut self, level: &usize, content: &Vec<InLineNode>) -> (s: String)
        ensures
            s@ == print_block(Block::Heading { level: *level, content: inlines_view(content@) }),
    {
        let mut s = String::from_str("(heading level=");
        let digits = usize_to_string(*level);
        push_str(&mut s, digits.as_str());
        push_char(&mut s, ' ');
        let inner = self.print_in_line(content);
        push_str(&mut s, inner.as_str());
        push_char(&mut s, ')');
        s
    }

    fn visit_paragraph(&mut self, content: &Vec<InLineNode>) -> (s: String)
        ensures
            s@ == print_block(Block::Paragraph(inlines_view(content@))),
    {
        let mut s = String::from_str("(paragraph ");
        let inner = self.print_in_line(content);
        push_str(&mut s, inner.as_str());
        push_char(&mut s, ')');
        s
    }

    fn visit_horizontal_rule(&mut self) -> (s: String)
        ensures
            s@ == print_block(Block::HorizontalRule),
    {
        String::from_str("(hr)")
    }

    fn visit_code_block(&mut self, language: &str, content: &Vec<InLineNode>) -> (s: String)
        ensures
            s@ == print_block(Block::Code { language: language@, content: inlines_view(content@) }),
    {
        let mut name = String::from_str("code-block language=");
        push_str(&mut name, language);
        self.parenthesize(name, content)
    }
}

} // verus!
