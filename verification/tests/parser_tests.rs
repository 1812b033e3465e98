use md2html::lexer::scanner::Scanner;
use md2html::parser::core_parser::Parser;
use md2html::parser::in_line_node::InLineNode;
use md2html::parser::markdown_node::MarkdownNode;

fn parse_from_lexemes(lexemes: &str) -> Vec<MarkdownNode> {
    let mut scanner = Scanner::new(lexemes);
    let tokens = scanner.scan_tokens();
    let mut parser = Parser::new(tokens);
    parser.parse()
}

fn paragraph(nodes: Vec<InLineNode>) -> MarkdownNode {
    MarkdownNode::Paragraph(nodes)
}

fn text(s: &str) -> InLineNode {
    InLineNode::Text(s.to_string())
}

#[test]
fn test_strong() {
    let nodes = parse_from_lexemes("**bold**");
    let underscore_nodes = parse_from_lexemes("__bold__");
    assert_eq!(
        nodes,
        vec![paragraph(vec![InLineNode::Strong(vec![text("bold")])])]
    );
    assert_eq!(
        underscore_nodes,
        vec![paragraph(vec![InLineNode::Strong(vec![text("bold")])])]
    );
}

#[test]
fn test_emphasis() {
    let nodes = parse_from_lexemes("*em*");
    let underscore_nodes = parse_from_lexemes("_em_");
    assert_eq!(
        nodes,
        vec![paragraph(vec![InLineNode::Emphasis(vec![text("em")])])]
    );
    assert_eq!(
        underscore_nodes,
        vec![paragraph(vec![InLineNode::Emphasis(vec![text("em")])])]
    );
}

#[test]
fn test_strikethrough() {
    let nodes = parse_from_lexemes("~~content~~");
    assert_eq!(
        nodes,
        vec![paragraph(vec![InLineNode::Strikethrough(vec![text(
            "content"
        )])])]
    );
}

#[test]
fn test_link() {
    let nodes = parse_from_lexemes("[link content](link)");
    assert_eq!(
        nodes,
        vec![paragraph(vec![InLineNode::Link {
            content: vec![text("link content")],
            dest: "link".to_string()
        }])]
    );
}

#[test]
fn test_text() {
    let nodes = parse_from_lexemes("  content");
    assert_eq!(nodes, vec![paragraph(vec![text("content")])]);
}

#[test]
fn test_nested_tokens_strong_in_em() {
    let nodes = parse_from_lexemes("***bi**i*");
    let underscore_nodes = parse_from_lexemes("___bi__i_");
    assert_eq!(
        nodes,
        vec![paragraph(vec![InLineNode::Emphasis(vec![
            InLineNode::Strong(vec![text("bi")]),
            text("i")
        ])])]
    );
    assert_eq!(underscore_nodes, vec![paragraph(vec![text("___bi__i_")])]);
}

#[test]
fn test_nested_tokens_em_in_strong() {
    let nodes = parse_from_lexemes("***bi*b**");
    let underscore_nodes = parse_from_lexemes("___bi_b__");
    assert_eq!(
        nodes,
        vec![paragraph(vec![InLineNode::Strong(vec![
            InLineNode::Emphasis(vec![text("bi")]),
            text("b")
        ])])]
    );
    assert_eq!(underscore_nodes, vec![paragraph(vec![text("___bi_b__")])]);
}

#[test]
fn test_nested_tokens_em_along_strong() {
    let nodes = parse_from_lexemes("*i***bi**");
    let underscore_nodes = parse_from_lexemes("_i___bi__");
    assert_eq!(
        nodes,
        vec![paragraph(vec![
            InLineNode::Emphasis(vec![text("i")]),
            InLineNode::Strong(vec![text("bi")])
        ])]
    );
    assert_eq!(underscore_nodes, vec![paragraph(vec![text("_i___bi__")])]);
}

#[test]
fn test_nested_tokens_strong_along_em() {
    let nodes = parse_from_lexemes("**b***i*");
    let underscore_nodes = parse_from_lexemes("__b___i_");
    assert_eq!(
        nodes,
        vec![paragraph(vec![
            InLineNode::Strong(vec![text("b")]),
            InLineNode::Emphasis(vec![text("i")])
        ])]
    );
    assert_eq!(underscore_nodes, vec![paragraph(vec![text("__b___i_")])]);
}

#[test]
fn test_uneven_number_of_delimiters() {
    let nodes = parse_from_lexemes("*i***bi***");
    let underscore_nodes = parse_from_lexemes("_i___bi___");
    assert_eq!(
        nodes,
        vec![paragraph(vec![
            InLineNode::Emphasis(vec![text("i")]),
            InLineNode::Strong(vec![text("bi")]),
            text("*")
        ])]
    );
    assert_eq!(underscore_nodes, vec![paragraph(vec![text("_i___bi___")])]);
}

#[test]
fn test_horizontal_rule() {
    let nodes = parse_from_lexemes("***");
    let nodes_dashes = parse_from_lexemes("-----");
    let nodes_underscores = parse_from_lexemes("__________ _____");
    assert!(nodes == nodes_dashes && nodes == nodes_underscores);
    assert_eq!(nodes, vec![MarkdownNode::HorizontalRule])
}

#[test]
fn test_doc() {
    let doc = "~~Strikethrough~~

---";
    let nodes = parse_from_lexemes(doc);
    assert_eq!(
        nodes,
        vec![
            paragraph(vec![InLineNode::Strikethrough(vec![text("Strikethrough")])]),
            MarkdownNode::HorizontalRule
        ]
    );
}

#[test]
fn test_backtick() {
    let nodes = parse_from_lexemes("`abc`");
    assert_eq!(
        nodes,
        vec![paragraph(vec![InLineNode::Code(vec!(text("abc")))])]
    );
}

#[test]
fn test_code_block() {
    let lexemes = "```
asdf
    ff
```";
    let expected_output = "asdf
    ff";
    let nodes = parse_from_lexemes(lexemes);
    assert_eq!(
        nodes,
        vec![MarkdownNode::Code {
            language: "".to_string(),
            content: vec![text(expected_output)]
        }]
    );
}
