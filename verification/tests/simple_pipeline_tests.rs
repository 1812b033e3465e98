use md2html::lexer::lexer::Lexer;
use md2html::lexer::scanner::Scanner;
use md2html::lexer::token::TokenType;
use md2html::parser::in_line_node::InLineNode;
use md2html::parser::markdown_node::MarkdownNode;
use md2html::parser::parser::Parser as SimpleParser;

fn simple_parse(s: &str) -> Option<Vec<MarkdownNode>> {
    SimpleParser::new(Scanner::new(s).scan_tokens()).try_parse()
}

fn text(s: &str) -> InLineNode {
    InLineNode::Text(s.to_string())
}

#[test]
fn lexer_token_kinds() {
    let toks = Lexer::new("**bold** _it_ ~~s~~ - x\n# h".to_string()).scan_tokens();
    let kinds: Vec<TokenType> = toks.iter().map(|t| t.token_type).collect();
    assert_eq!(
        kinds,
        vec![
            TokenType::DoubleStar,
            TokenType::Content,
            TokenType::DoubleStar,
            TokenType::Whitespace,
            TokenType::Underscore,
            TokenType::Content,
            TokenType::Underscore,
            TokenType::Whitespace,
            TokenType::Tilde,
            TokenType::Content,
            TokenType::Tilde,
            TokenType::Whitespace,
            TokenType::Dash,
            TokenType::Content,
            TokenType::NewLine,
            TokenType::Hash,
            TokenType::Whitespace,
            TokenType::Content,
            TokenType::Eof,
        ]
    );
    assert_eq!(toks[12].lexeme, "- ");
    assert_eq!(toks[17].line, 2);
}

#[test]
fn lexer_whitespace_run_is_one_token() {
    let toks = Lexer::new(" \t a*".to_string()).scan_tokens();
    let kinds: Vec<TokenType> = toks.iter().map(|t| t.token_type).collect();
    assert_eq!(kinds, vec![TokenType::Whitespace, TokenType::Content, TokenType::Star, TokenType::Eof]);
    assert_eq!(toks[0].lexeme, " ");
    assert_eq!(toks[1].pos, 3);
}

#[test]
fn simple_parser_emphasis_and_strong() {
    assert_eq!(
        simple_parse("**bold**"),
        Some(vec![MarkdownNode::Paragraph(vec![InLineNode::Strong(vec![text("bold")])])])
    );
    assert_eq!(
        simple_parse("*a* b"),
        Some(vec![MarkdownNode::Paragraph(vec![InLineNode::Emphasis(vec![text("a")]), text(" b")])])
    );
}

#[test]
fn simple_parser_heading_and_lines() {
    assert_eq!(
        simple_parse("# T\nx"),
        Some(vec![
            MarkdownNode::Heading { level: 1, content: vec![text("T")] },
            MarkdownNode::Paragraph(vec![text("x")])
        ])
    );
    // consecutive lines form one paragraph; an empty line ends it
    assert_eq!(simple_parse("a\nb"), Some(vec![MarkdownNode::Paragraph(vec![text("a "), text("b")])]));
    assert_eq!(
        simple_parse("a\n\nb"),
        Some(vec![MarkdownNode::Paragraph(vec![text("a")]), MarkdownNode::Paragraph(vec![text("b")])])
    );
}

#[test]
fn simple_parser_link() {
    assert_eq!(
        simple_parse("[x](y)"),
        Some(vec![MarkdownNode::Paragraph(vec![InLineNode::Link { content: vec![text("x")], dest: "y".to_string() }])])
    );
}

#[test]
fn simple_parser_rejects() {
    assert_eq!(simple_parse("`code`"), None);
    assert_eq!(simple_parse("*a"), None);
    assert_eq!(simple_parse("a* b"), None);
    assert_eq!(SimpleParser::new(vec![]).try_parse(), None);
}
