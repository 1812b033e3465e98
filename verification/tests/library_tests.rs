use md2html::lexer::error_handler::ErrorHandler;
use md2html::lexer::scanner::Scanner;
use md2html::lexer::token::{Token, TokenType};
use md2html::markdown::markdown::{parse_bold, parse_heading, parse_paragraph, ParseError};
use md2html::parser::ast_printer::AstPrinter;
use md2html::parser::core_parser::Parser;
use md2html::parser::in_line_node::InLineNode;
use md2html::parser::markdown_node::MarkdownNode;
use md2html::run::run;
use md2html::transformer::html_ast_transform::HtmlAstTransformer;
use md2html::transformer::html_node::{Display, HtmlNode};
use md2html::transformer::html_transform::HtmlTransformer;
use md2html::transformer::html_wrapper::HtmlWrapper;

fn tokens_of(s: &str) -> Vec<Token> {
    Scanner::new(s).scan_tokens()
}

fn kinds(s: &str) -> Vec<TokenType> {
    tokens_of(s).iter().map(|t| t.token_type).collect()
}

fn parse(s: &str) -> Option<Vec<MarkdownNode>> {
    Parser::new(tokens_of(s)).try_parse()
}

fn text(s: &str) -> InLineNode {
    InLineNode::Text(s.to_string())
}

// ----- scanner -----

#[test]
fn scanner_heading_line() {
    let toks = tokens_of("# Title\n");
    let kinds: Vec<TokenType> = toks.iter().map(|t| t.token_type).collect();
    assert_eq!(
        kinds,
        vec![TokenType::Hash, TokenType::Whitespace, TokenType::Content, TokenType::NewLine, TokenType::Eof]
    );
    let lexemes: Vec<&str> = toks.iter().map(|t| t.lexeme.as_str()).collect();
    assert_eq!(lexemes, vec!["#", " ", "Title", "\n", ""]);
    let positions: Vec<usize> = toks.iter().map(|t| t.pos).collect();
    assert_eq!(positions, vec![0, 1, 2, 7, 7]);
    assert_eq!(toks[4].line, 2);
}

#[test]
fn scanner_tab_reads_as_one_space() {
    let toks = tokens_of("\tb");
    assert_eq!(toks[0].token_type, TokenType::Whitespace);
    assert_eq!(toks[0].lexeme, " ");
    // inside text, whitespace belongs to the text
    assert_eq!(tokens_of("a\tb")[0].lexeme, "a\tb");
}

#[test]
fn scanner_break_line_after_two_spaces() {
    assert_eq!(
        kinds("ab  \ncd"),
        vec![TokenType::Content, TokenType::BreakLine, TokenType::Content, TokenType::Eof]
    );
}

#[test]
fn scanner_lines_count_newlines() {
    let toks = tokens_of("a\nb\n\nc");
    let lines: Vec<usize> = toks.iter().map(|t| t.line).collect();
    assert_eq!(lines, vec![1, 1, 2, 2, 3, 4, 4]);
}

#[test]
fn scanner_delimiter_flanking() {
    let toks = tokens_of("a **b** c");
    assert_eq!(
        toks[1].token_type,
        TokenType::Delimiter { length: 2, can_open: true, can_close: false }
    );
    assert_eq!(
        toks[3].token_type,
        TokenType::Delimiter { length: 2, can_open: false, can_close: true }
    );
    // an underscore inside a word can neither open nor close
    let toks = tokens_of("a_b");
    assert_eq!(
        toks[1].token_type,
        TokenType::Delimiter { length: 1, can_open: false, can_close: false }
    );
}

#[test]
fn scanner_dash_tilde_and_rule() {
    assert_eq!(kinds("- a"), vec![TokenType::Dash, TokenType::Content, TokenType::Eof]);
    assert_eq!(kinds("~~a"), vec![TokenType::Tilde, TokenType::Content, TokenType::Eof]);
    assert_eq!(kinds("~a"), vec![TokenType::Content, TokenType::Eof]);
    let toks = tokens_of("a --- \nc");
    assert_eq!(toks[1].token_type, TokenType::HorizontalRule);
    assert_eq!(toks[1].lexeme, "-");
    // the rest of the line after the rule marker is skipped
    assert_eq!(toks[2].token_type, TokenType::NewLine);
}

#[test]
fn scanner_drops_nul_characters() {
    assert_eq!(kinds("\0"), vec![TokenType::Eof]);
}

#[test]
fn scanner_hash_inside_text() {
    let toks = tokens_of("a#b");
    assert_eq!(toks[0].lexeme, "a#b");
}

#[test]
fn scanner_empty_source() {
    let toks = tokens_of("");
    assert_eq!(toks.len(), 1);
    assert_eq!(toks[0].token_type, TokenType::Eof);
    assert_eq!(toks[0].line, 1);
    assert_eq!(toks[0].pos, 0);
}

#[test]
fn scanner_non_ascii_text() {
    let toks = tokens_of("héllo *wörld*");
    assert_eq!(toks[0].lexeme, "héllo ");
    assert_eq!(toks[2].lexeme, "wörld");
    assert_eq!(toks[2].pos, 7);
}

// ----- parser -----

#[test]
fn parser_heading_levels() {
    assert_eq!(
        parse("## Sub title\ntext"),
        Some(vec![
            MarkdownNode::Heading { level: 2, content: vec![text("Sub title")] },
            MarkdownNode::Paragraph(vec![text("text")])
        ])
    );
}

#[test]
fn parser_line_keeps_trailing_space_before_newline() {
    assert_eq!(
        parse("a\nb"),
        Some(vec![MarkdownNode::Paragraph(vec![text("a ")]), MarkdownNode::Paragraph(vec![text("b")])])
    );
}

#[test]
fn parser_inline_code_trims_one_space() {
    assert_eq!(
        parse("` a `"),
        Some(vec![MarkdownNode::Paragraph(vec![InLineNode::Code(vec![text("a")])])])
    );
    assert_eq!(
        parse("`a"),
        Some(vec![MarkdownNode::Paragraph(vec![text("`a")])])
    );
}

#[test]
fn parser_code_block_with_language() {
    assert_eq!(
        parse("```rust\nlet x\n```"),
        Some(vec![MarkdownNode::Code { language: "rust".to_string(), content: vec![text("let x")] }])
    );
}

#[test]
fn parser_unclosed_code_block() {
    assert_eq!(
        parse("```\nabc"),
        Some(vec![MarkdownNode::Paragraph(vec![text("```")]), MarkdownNode::Paragraph(vec![text("abc")])])
    );
}

#[test]
fn parser_break_line_and_link() {
    assert_eq!(
        parse("a  \nb"),
        Some(vec![MarkdownNode::Paragraph(vec![text("a  "), InLineNode::BreakLine, text("b")])])
    );
}

#[test]
fn parser_rejects_malformed_input() {
    // unclosed strikethrough, link without destination, a parenthesis in text,
    // a closing delimiter before any opener, and a rule in the middle of a line
    assert_eq!(parse("~~abc"), None);
    assert_eq!(parse("[abc]"), None);
    assert_eq!(parse("a (b)"), None);
    assert_eq!(parse("a* b"), None);
    assert_eq!(parse("abc ---"), None);
    assert_eq!(parse("```\n```"), None);
}

#[test]
fn parser_text_is_merged() {
    let nodes = parse("a  b   c").unwrap();
    assert_eq!(nodes, vec![MarkdownNode::Paragraph(vec![text("a  b   c")])]);
}

#[test]
fn parser_tokens_without_delimiters_are_kept() {
    let mut p = Parser::new(tokens_of("plain words here"));
    let nodes = p.parse();
    assert_eq!(nodes, vec![MarkdownNode::Paragraph(vec![text("plain words here")])]);
}

// ----- html -----

#[test]
fn html_transform_of_blocks() {
    let mut t = HtmlAstTransformer;
    let h = t.transform(&MarkdownNode::Heading { level: 10, content: vec![text("x")] });
    // only h1 to h6 are written on one line
    assert_eq!(HtmlTransformer::transform(&h), "<h10>\nx</h10>\n");
    let p = t.transform(&MarkdownNode::Paragraph(vec![
        InLineNode::Emphasis(vec![text("e")]),
        InLineNode::Link { content: vec![text("l")], dest: "u".to_string() },
        InLineNode::BreakLine,
        InLineNode::Strikethrough(vec![InLineNode::Strong(vec![text("s")])]),
    ]));
    assert_eq!(
        HtmlTransformer::transform(&p),
        "<p><em>e</em><a href=\"u\">l</a><br /><del><strong>s</strong></del></p>\n"
    );
    let hr = t.transform(&MarkdownNode::HorizontalRule);
    assert_eq!(HtmlTransformer::transform(&hr), "<hr>\n</hr>\n");
    let code = t.transform(&MarkdownNode::Code { language: "c".to_string(), content: vec![text("x")] });
    assert_eq!(HtmlTransformer::transform(&code), "<pre><code>x</code></pre>\n");
}

#[test]
fn html_nested_blocks_are_indented() {
    let inner = HtmlNode::Element {
        tag: "div".to_string(),
        attrs: Some(vec![("a".to_string(), "1".to_string()), ("b".to_string(), "2".to_string())]),
        children: vec![HtmlNode::Text("t".to_string())],
        display: Display::Block,
    };
    let outer = HtmlNode::Element {
        tag: "section".to_string(),
        attrs: None,
        children: vec![inner],
        display: Display::Block,
    };
    assert_eq!(
        HtmlTransformer::transform(&outer),
        "<section>\n\t<div a=\"1\" b=\"2\">\nt\t</div>\n</section>\n"
    );
}

#[test]
fn html_wrap_title_from_first_h1() {
    let mut t = HtmlAstTransformer;
    let h1 = t.transform(&MarkdownNode::Heading {
        level: 1,
        content: vec![text("My "), InLineNode::Emphasis(vec![text("Title")])],
    });
    let page = HtmlWrapper::wrap(vec![h1]);
    assert_eq!(
        HtmlTransformer::transform(&page),
        "<html>\n\t<head>\n<title>My Title</title>\t</head>\n\t<body>\n\t\t<h1>My <em>Title</em></h1>\n\t</body>\n</html>\n"
    );
    let h2 = t.transform(&MarkdownNode::Heading { level: 2, content: vec![text("x")] });
    let page = HtmlWrapper::wrap(vec![h2]);
    assert!(HtmlTransformer::transform(&page).contains("<title>My page</title>"));
    let empty = HtmlWrapper::wrap(vec![]);
    assert!(HtmlTransformer::transform(&empty).contains("<title>My page</title>"));
}

#[test]
fn html_index_links() {
    let index = HtmlWrapper::create_index(&["a.md".to_string(), "docs/b.md".to_string()]);
    assert_eq!(
        HtmlTransformer::transform(&index),
        "<html>\n\t<head>\n<title>My page</title>\t</head>\n\t<body>\n\t\t<a href=\"a.html\">\na\t\t</a>\n\t\t<a href=\"b.html\">\nb\t\t</a>\n\t</body>\n</html>\n"
    );
}

#[test]
fn html_page_links() {
    assert_eq!(
        HtmlWrapper::page_link("docs/notes.md"),
        ("notes.html".to_string(), "notes".to_string())
    );
    assert_eq!(HtmlWrapper::page_link("a.b.md"), ("a.b.html".to_string(), "a.b".to_string()));
    assert_eq!(HtmlWrapper::page_link(".."), ("index.html".to_string(), "index.html".to_string()));
}

// ----- printer -----

#[test]
fn printer_forms() {
    let mut p = AstPrinter;
    assert_eq!(
        p.print(&MarkdownNode::Heading {
            level: 3,
            content: vec![text("a"), InLineNode::Strong(vec![text("b"), text("c")])]
        }),
        "(heading level=3 \"a\" (strong \"b\" \"c\"))"
    );
    assert_eq!(p.print(&MarkdownNode::Paragraph(vec![])), "(paragraph )");
    assert_eq!(p.print(&MarkdownNode::HorizontalRule), "(hr)");
}

// ----- error handler -----

#[test]
fn error_handler_report() {
    let mut h = ErrorHandler::new();
    assert!(!h.had_error());
    let report = h.log_error(12, 305, "bad");
    assert_eq!(report, "[line 12, character 305] Error : bad");
    assert!(h.had_error());
}

// ----- direct conversions -----

#[test]
fn markdown_heading_edge_cases() {
    assert_eq!(parse_heading("#"), Ok("<h1></h1>".to_string()));
    assert_eq!(parse_heading("#é  text  "), Ok("<h3>text</h3>".to_string()));
    assert_eq!(parse_heading(" # x"), Err(ParseError::InvalidHeadingSyntax));
    assert_eq!(parse_heading("#x y z"), Ok("<h2>y z</h2>".to_string()));
}

#[test]
fn markdown_bold_edge_cases() {
    assert_eq!(parse_bold("**open"), Ok("**open".to_string()));
    assert_eq!(parse_bold("a __b__ c **d**"), Ok("a <b>b</b> c <b>d</b>".to_string()));
    assert_eq!(parse_bold("plain text"), Ok("plain text".to_string()));
    assert_eq!(parse_bold("   "), Err(ParseError::EmptyInput));
}

#[test]
fn markdown_paragraph_blank() {
    assert_eq!(parse_paragraph(" \t\n"), Err(ParseError::EmptyInput));
    assert_eq!(parse_paragraph(" x "), Ok("<p> x </p>".to_string()));
}

// ----- whole pipeline -----

#[test]
fn run_plain_text_page() {
    assert_eq!(
        run("hello"),
        Some("<html>\n\t<head>\n<title>My page</title>\t</head>\n\t<body>\n\t\t<p>hello</p>\n\t</body>\n</html>\n".to_string())
    );
}

#[test]
fn run_heading_gives_title() {
    let html = run("# Hi\n**x**").unwrap();
    assert!(html.contains("<title>Hi</title>"));
    assert!(html.contains("\t\t<h1>Hi</h1>\n"));
    assert!(html.contains("\t\t<p><strong>x</strong></p>\n"));
}

#[test]
fn run_rejects_unparsable_source() {
    assert_eq!(run("~~x"), None);
}
