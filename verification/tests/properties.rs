use gemtext::parse;
use gemtext::Document;
use gemtext::Element;
use gemtext::ParseError;

#[test]
fn plain_lines_become_text() {
    let document = parse("first line\n  second line  \n\nthird");

    assert_eq!(document, Ok(Document(vec![
        Element::Text("first line".to_string()),
        Element::Text("second line".to_string()),
        Element::Text("third".to_string()),
    ])));
}

#[test]
fn link_example_without_text() {
    let document = parse("=> https://example.com");

    assert_eq!(document, Ok(Document(vec![
        Element::Link {
            url: "https://example.com".to_string(),
            text: None,
        },
    ])));
}

#[test]
fn link_example_with_text() {
    let document = parse("=> https://example.com Example");

    assert_eq!(document, Ok(Document(vec![
        Element::Link {
            url: "https://example.com".to_string(),
            text: Some("Example".to_string()),
        },
    ])));
}

#[test]
fn preformatted_keeps_blank_lines() {
    let document = parse("```\nA\n\nB\n```");

    assert_eq!(document, Ok(Document(vec![
        Element::Preformatted {
            caption: None,
            lines: vec!["A".to_string(), "".to_string(), "B".to_string()],
        },
    ])));
}

#[test]
fn preformatted_short_caption() {
    let document = parse("``` cap\nA\n```");

    assert_eq!(document, Ok(Document(vec![
        Element::Preformatted {
            caption: Some("cap".to_string()),
            lines: vec!["A".to_string()],
        },
    ])));
}

#[test]
fn heading_levels() {
    let document = parse("# a\n## b\n### c");

    assert_eq!(document, Ok(Document(vec![
        Element::Heading { level: 1, text: "a".to_string() },
        Element::Heading { level: 2, text: "b".to_string() },
        Element::Heading { level: 3, text: "c".to_string() },
    ])));
}

#[test]
fn two_list_items() {
    let document = parse("* a\n* b");

    assert_eq!(document, Ok(Document(vec![
        Element::UnorderedListItem("a".to_string()),
        Element::UnorderedListItem("b".to_string()),
    ])));
}

#[test]
fn quote_line() {
    let document = parse("> a");

    assert_eq!(document, Ok(Document(vec![
        Element::Quote("a".to_string()),
    ])));
}

#[test]
fn canonical_document_round_trips() {
    // A document in canonical textual form: rendering these elements in the
    // documented form gives exactly this source, and parsing gives them back.
    let source = "=> url label\n# Title\nplain\n```\ncode\n```\n* item\n> quoted\n";
    let expected = Document(vec![
        Element::Link { url: "url".to_string(), text: Some("label".to_string()) },
        Element::Heading { level: 1, text: "Title".to_string() },
        Element::Text("plain".to_string()),
        Element::Preformatted { caption: None, lines: vec!["code".to_string()] },
        Element::UnorderedListItem("item".to_string()),
        Element::Quote("quoted".to_string()),
    ]);

    let document = parse(source);
    assert_eq!(document, Ok(expected));

    let again = parse(source);
    assert_eq!(parse(source), again);
}

#[test]
fn unterminated_fence_fails() {
    let document = parse("```\nnever closed\n");

    assert_eq!(document, Err(ParseError { offset: 0 }));
}

#[test]
fn unterminated_fence_after_elements_fails() {
    let document = parse("# fine\n``` cap\nstill open");

    assert_eq!(document, Err(ParseError { offset: 7 }));
}

#[test]
fn empty_input_is_empty_document() {
    assert_eq!(parse(""), Ok(Document(vec![])));
}

#[test]
fn blank_lines_only_is_empty_document() {
    assert_eq!(parse("\n\n\n"), Ok(Document(vec![])));
}

#[test]
fn link_rule_has_priority_over_text() {
    let document = parse("=> x");

    assert_eq!(document, Ok(Document(vec![
        Element::Link { url: "x".to_string(), text: None },
    ])));
}

#[test]
fn bare_link_marker_is_text() {
    // Without a url there is no link; the fallback rule claims the line.
    let document = parse("=>");

    assert_eq!(document, Ok(Document(vec![
        Element::Text("=>".to_string()),
    ])));
}

#[test]
fn blank_caption_is_none() {
    let document = parse("```   \nA\n```");

    assert_eq!(document, Ok(Document(vec![
        Element::Preformatted {
            caption: None,
            lines: vec!["A".to_string()],
        },
    ])));
}

#[test]
fn preformatted_trailing_blank_line_kept() {
    let document = parse("```\nA\n\n```");

    assert_eq!(document, Ok(Document(vec![
        Element::Preformatted {
            caption: None,
            lines: vec!["A".to_string(), "".to_string()],
        },
    ])));
}

#[test]
fn empty_preformatted_block() {
    let document = parse("```\n```");

    assert_eq!(document, Ok(Document(vec![
        Element::Preformatted { caption: None, lines: vec![] },
    ])));
}

#[test]
fn heading_markers_without_space() {
    let document = parse("##x");

    assert_eq!(document, Ok(Document(vec![
        Element::Heading { level: 2, text: "x".to_string() },
    ])));
}

#[test]
fn whitespace_only_line_is_empty_text() {
    let document = parse("   ");

    assert_eq!(document, Ok(Document(vec![
        Element::Text("".to_string()),
    ])));
}

#[test]
fn leading_blank_lines_are_skipped() {
    let document = parse("\n\nhello");

    assert_eq!(document, Ok(Document(vec![
        Element::Text("hello".to_string()),
    ])));
}

#[test]
fn unicode_whitespace_is_trimmed() {
    let document = parse("\u{00A0}padded\u{2003}");

    assert_eq!(document, Ok(Document(vec![
        Element::Text("padded".to_string()),
    ])));
}

#[test]
fn heading_text_is_trimmed() {
    let document = parse("#   spaced   ");

    assert_eq!(document, Ok(Document(vec![
        Element::Heading { level: 1, text: "spaced".to_string() },
    ])));
}
