use md2html::lexer::lexer::Lexer;
use md2html::lexer::scanner::Scanner;
use md2html::lexer::token::{Token, TokenType};
use md2html::markdown::markdown::parse_bold;
use md2html::parser::ast_printer::AstPrinter;
use md2html::parser::core_parser::Parser;
use md2html::parser::in_line_node::InLineNode;
use md2html::parser::markdown_node::MarkdownNode;
use md2html::parser::node::Node;
use md2html::run::run;
use md2html::transformer::html_ast_transform::HtmlAstTransformer;
use md2html::transformer::html_node::{Display, HtmlNode};

fn text(s: &str) -> InLineNode {
    InLineNode::Text(s.to_string())
}

#[test]
fn scanner_lexemes_rebuild_source() {
    let src = "# Title\n\nSome *text* with __bold__ and [a](b) `c`  \n~~x~~ - item";
    let joined: String = Scanner::new(src).scan_tokens().iter().map(|t| t.lexeme.clone()).collect();
    assert_eq!(joined, src);
}

#[test]
fn lexer_shape() {
    let toks = Lexer::new("a  \t b\n**c** _d_\n".to_string()).scan_tokens();
    let last = toks.last().unwrap();
    assert_eq!(last.token_type, TokenType::Eof);
    assert_eq!(last.lexeme, "");
    assert_eq!(last.line, 3);
    assert_eq!(toks.iter().filter(|t| t.token_type == TokenType::Eof).count(), 1);
    for w in toks.windows(2) {
        assert!(!(w[0].token_type == TokenType::Whitespace && w[1].token_type == TokenType::Whitespace));
    }
    for t in &toks {
        if t.token_type == TokenType::Whitespace {
            assert_eq!(t.lexeme, " ");
        }
    }
}

#[test]
fn bold_markers_put_back() {
    let src = "a **b** c __d__ **e";
    let out = parse_bold(src).unwrap();
    assert_eq!(out, "a <b>b</b> c <b>d</b> **e");
    let back = out.replace("<b>b</b>", "**b**").replace("<b>d</b>", "__d__");
    assert_eq!(back, src);
}

#[test]
fn plain_text_with_spaces_is_one_paragraph() {
    let toks = Scanner::new("hello big world").scan_tokens();
    assert_eq!(
        Parser::new(toks).try_parse(),
        Some(vec![MarkdownNode::Paragraph(vec![text("hello big world")])])
    );
}

#[test]
fn delimiters_that_cannot_close_change_nothing() {
    // `*` before a space cannot close, and one followed by a letter after a space only opens
    let toks = Scanner::new("a * b *c").scan_tokens();
    let parsed = Parser::new(toks).try_parse().unwrap();
    assert_eq!(
        parsed,
        vec![MarkdownNode::Paragraph(vec![text("a * b *c")])]
    );
}

#[test]
fn printer_form_is_balanced() {
    let mut p = AstPrinter;
    let node = MarkdownNode::Paragraph(vec![
        text("x"),
        InLineNode::Strong(vec![InLineNode::Emphasis(vec![text("y")]), InLineNode::BreakLine]),
        InLineNode::Link { content: vec![text("z")], dest: "u".to_string() },
    ]);
    let s = p.print(&node);
    assert!(s.starts_with('('));
    assert!(s.ends_with(')'));
    assert_eq!(s.matches('(').count(), s.matches(')').count());
    assert_eq!(s, "(paragraph \"x\" (strong (em \"y\") (br)) (link href=u \"z\"))");
}

#[test]
fn visitors_through_accept() {
    let node = InLineNode::Strong(vec![text("b")]);
    let mut p = AstPrinter;
    assert_eq!(node.accept(&mut p), "(strong \"b\")");
    let mut h = HtmlAstTransformer;
    let html = node.accept(&mut h);
    let expected = HtmlNode::Element {
        tag: "strong".to_string(),
        attrs: None,
        children: vec![HtmlNode::Text("b".to_string())],
        display: Display::Inline,
    };
    assert_eq!(format!("{:?}", html), format!("{:?}", expected));
    let block = MarkdownNode::Heading { level: 2, content: vec![text("t")] };
    assert_eq!(block.accept(&mut p), "(heading level=2 \"t\")");
    assert_eq!(MarkdownNode::HorizontalRule.accept(&mut p), "(hr)");
}

#[test]
fn nodes_clone_to_equal_nodes() {
    let n = InLineNode::Link { content: vec![text("a"), InLineNode::Code(vec![text("c")])], dest: "d".to_string() };
    assert_eq!(n.clone(), n);
    let b = MarkdownNode::Code { language: "rs".to_string(), content: vec![n.clone()] };
    assert_eq!(b.clone(), b);
}

#[test]
fn token_display_string() {
    let t = Token::new(TokenType::Content, "a\tb\"é".to_string(), 1, 0);
    assert_eq!(t.to_display_string(), format!("({:?} {})", t.token_type, t.lexeme.escape_default()));
    let d = Token::new(
        TokenType::Delimiter { length: 12, can_open: true, can_close: false },
        "**".to_string(),
        1,
        0,
    );
    assert_eq!(d.to_display_string(), format!("({:?} {})", d.token_type, d.lexeme.escape_default()));
    assert_eq!(d.to_display_string(), "(Delimiter { length: 12, can_open: true, can_close: false } **)");
    let n = Token::new(TokenType::NewLine, "\n".to_string(), 1, 0);
    assert_eq!(n.to_display_string(), "(NewLine \\n)");
}

#[test]
fn run_keeps_plain_text_with_spaces() {
    let html = run("plain words here").unwrap();
    assert!(html.contains("plain words here"));
}

#[test]
fn delimiter_pass_keeps_other_tokens_and_pairs() {
    let toks = Scanner::new("x *a* y **b** z").scan_tokens();
    assert_eq!(
        Parser::new(toks).try_parse(),
        Some(vec![MarkdownNode::Paragraph(vec![
            text("x "),
            InLineNode::Emphasis(vec![text("a")]),
            text(" y "),
            InLineNode::Strong(vec![text("b")]),
            text(" z"),
        ])])
    );
}

#[test]
fn prose_parses_to_one_paragraph() {
    let parse = |s: &str| Parser::new(Scanner::new(s).scan_tokens()).try_parse();
    assert_eq!(parse(""), Some(vec![]));
    assert_eq!(parse("   "), Some(vec![MarkdownNode::Paragraph(vec![])]));
    assert_eq!(
        parse("  Hi, there! It's 3. "),
        Some(vec![MarkdownNode::Paragraph(vec![text("Hi, there! It's 3. ")])])
    );
}

#[test]
fn bold_tags_written_back() {
    let src = "x **a** y **b c** z **open";
    let out = parse_bold(src).unwrap();
    assert_eq!(out.replace("<b>", "**").replace("</b>", "**"), src);
}

#[test]
fn printer_marks_count_forms_and_texts() {
    let mut p = AstPrinter;
    let node = MarkdownNode::Paragraph(vec![
        text("a(b"),
        InLineNode::Emphasis(vec![text("\"q\""), InLineNode::BreakLine]),
    ]);
    let s = p.print(&node);
    // one form for the block, two for the emphasis and the line break, one `(` in the text
    assert_eq!(s.matches('(').count(), 1 + 2 + 1);
    // two quotes per text node, two more inside the text
    assert_eq!(s.matches('"').count(), 2 * 2 + 2);
}

#[test]
fn delimiter_runs_left_are_runs_of_the_input() {
    let toks = Scanner::new("x **a* y").scan_tokens();
    assert_eq!(
        Parser::new(toks).try_parse(),
        Some(vec![MarkdownNode::Paragraph(vec![
            text("x **"),
            InLineNode::Emphasis(vec![text("a")]),
            text(" y"),
        ])])
    );
}

#[test]
fn emphasis_nests_across_kinds() {
    let toks = Scanner::new("*a **b** c*").scan_tokens();
    assert_eq!(
        Parser::new(toks).try_parse(),
        Some(vec![MarkdownNode::Paragraph(vec![InLineNode::Emphasis(vec![
            text("a "),
            InLineNode::Strong(vec![text("b")]),
            text(" c"),
        ])])])
    );
}
