use md2html::markdown::markdown::{parse_bold, parse_heading, parse_paragraph, ParseError};

#[test]
fn test_parse_paragraph_empty() {
    let parsed_paragraph = parse_paragraph("");
    assert_eq!(parsed_paragraph, Err(ParseError::EmptyInput));
}

#[test]
fn test_parse_paragraph() {
    let text = "Lorem ipsum dolor sit amet, 
            consectetuer adipiscing elit. 
            Aliquam erat volutpat. Nullam
            sapien sem, ornare ac, nonummy
            non, lobortis a enim.";

    let parsed_paragraph = parse_paragraph(text);
    let awaited_output = format!("<p>{text}</p>");
    assert_eq!(parsed_paragraph, Ok(awaited_output));
}

#[test]
fn test_parse_heading_empty() {
    let parsed_heading = parse_heading("");
    assert_eq!(parsed_heading, Err(ParseError::EmptyInput));
}

#[test]
fn test_parse_heading_not_a_heading() {
    let parsed_heading = parse_heading("not a heading");
    assert_eq!(parsed_heading, Err(ParseError::InvalidHeadingSyntax))
}

#[test]
fn test_parse_heading() {
    for level in 1..6 {
        let hashes = "#".repeat(level);
        let text = "Heading";
        let input = format!("{hashes} {text}");
        let expected = format!("<h{level}>{text}</h{level}>");
        let parsed_heading = parse_heading(&input);
        assert_eq!(parsed_heading, Ok(expected));
    }
}

#[test]
fn test_parse_heading_bigger() {
    let hashes = "#".repeat(7);
    let text = "Heading";
    let input = format!("{hashes} {text}");
    let expected = format!("<h6>{text}</h6>");
    let parsed_heading = parse_heading(&input);
    assert_eq!(parsed_heading, Ok(expected));
}

#[test]
fn test_parse_bold_empty() {
    let parsed_bold = parse_bold("");
    assert_eq!(parsed_bold, Err(ParseError::EmptyInput));
}

#[test]
fn test_parse_bold() {
    let bold = "**bold text**";
    let expected = format!("<b>bold text</b>");
    let parsed_bold = parse_bold(bold);
    assert_eq!(parsed_bold, Ok(expected));
}
