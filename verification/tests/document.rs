use gemtext::Document;
use gemtext::Element;

#[test]
fn text() {
    let document = Document::try_from("Hello, world!");

    assert_eq!(document, Ok(Document(vec![
        Element::Text("Hello, world!".to_string()),
    ])));
}

#[test]
fn link_without_text() {
    let document = Document::try_from("=> https://www.google.com");

    assert_eq!(document, Ok(Document(vec![
        Element::Link {
            url: "https://www.google.com".to_string(),
            text: None,
        },
    ])));
}

#[test]
fn link_with_text() {
    let document = Document::try_from("=> https://www.google.com Hello, world!");

    assert_eq!(document, Ok(Document(vec![
        Element::Link {
            url: "https://www.google.com".to_string(),
            text: Some("Hello, world!".to_string()),
        },
    ])));
}

#[test]
fn preformatted_without_caption() {
    let document = Document::try_from("```\nHello, world!\n\nYay.\n```");

    assert_eq!(document, Ok(Document(vec![
        Element::Preformatted {
            caption: None,
            lines: vec![
                "Hello, world!".to_string(),
                "".to_string(),
                "Yay.".to_string(),
            ],
        },
    ])));
}

#[test]
fn preformatted_with_caption() {
    let document = Document::try_from("``` Preformatted text\nHello, world!\n\nYay.\n```");

    assert_eq!(document, Ok(Document(vec![
        Element::Preformatted {
            caption: Some("Preformatted text".to_string()),
            lines: vec![
                "Hello, world!".to_string(),
                "".to_string(),
                "Yay.".to_string(),
            ],
        },
    ])));
}

#[test]
fn heading() {
    let document = Document::try_from("# Hello, world!\n## Yay.\n### Meow.");

    assert_eq!(document, Ok(Document(vec![
        Element::Heading { level: 1, text: "Hello, world!".to_string() },
        Element::Heading { level: 2, text: "Yay.".to_string() },
        Element::Heading { level: 3, text: "Meow.".to_string() },
    ])));
}

#[test]
fn unordered_list_item() {
    let document = Document::try_from("* Hello, world!\n* Yay.\n* Meow.");

    assert_eq!(document, Ok(Document(vec![
        Element::UnorderedListItem("Hello, world!".to_string()),
        Element::UnorderedListItem("Yay.".to_string()),
        Element::UnorderedListItem("Meow.".to_string()),
    ])));
}

#[test]
fn quote() {
    let document = Document::try_from("> Hello, world!");

    assert_eq!(document, Ok(Document(vec![
        Element::Quote("Hello, world!".to_string()),
    ])));
}

#[test]
fn full_document() {
    let document = Document::try_from(r#"=> https://www.google.com Hello, world!

``` some rust code
fn main() {
    println!("Hello, world!");
}
```

## A list

* Hello, world!
* Yay."#);

    assert_eq!(document, Ok(Document(vec![
        Element::Link {
            url: "https://www.google.com".to_string(),
            text: Some("Hello, world!".to_string()),
        },
        Element::Preformatted {
            caption: Some("some rust code".to_string()),
            lines: vec![
                "fn main() {".to_string(),
                "    println!(\"Hello, world!\");".to_string(),
                "}".to_string(),
            ] },
        Element::Heading { level: 2, text: "A list".to_string() },
        Element::UnorderedListItem("Hello, world!".to_string()),
        Element::UnorderedListItem("Yay.".to_string()),
    ])));
}
