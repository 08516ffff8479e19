//! The document model: elements, documents, and the parse error.

use crate::model::ElementModel;
use vstd::prelude::*;

verus! {

/// An element is a single unit of content in a document.
#[derive(Debug, PartialEq, Clone)]
pub enum Element {
    /// A line of text.
    Text(String),
    /// A link.
    Link { url: String, text: Option<String> },
    /// A preformatted block of text.
    Preformatted { caption: Option<String>, lines: Vec<String> },
    /// A heading.
    Heading { level: u8, text: String },
    /// An unordered list item.
    UnorderedListItem(String),
    /// A quote.
    Quote(String),
}

/// A `Document` is a collection of `Element`s.
#[derive(Debug, PartialEq)]
pub struct Document(pub Vec<Element>);

/// The single failure of parsing: after every rule was tried, non-blank
/// input remained.  The offset is the character position, in the normalized
/// input, of the residue that no rule could claim.
#[derive(Debug, PartialEq, Eq, Clone, Copy)]
pub struct ParseError {
    pub offset: usize,
}

/// The character sequences of a sequence of strings.
pub open spec fn lines_view(v: Seq<String>) -> Seq<Seq<char>> {
    Seq::new(v.len(), |j: int| v[j]@)
}

/// The models of a sequence of elements.
pub open spec fn elems_view(v: Seq<Element>) -> Seq<ElementModel> {
    Seq::new(v.len(), |j: int| v[j]@)
}

impl View for Element {
    type V = ElementModel;

    open spec fn view(&self) -> ElementModel {
        match self {
            Element::Text(t) => ElementModel::Text(t@),
            Element::Link { url, text } => ElementModel::Link {
                url: url@,
                text: match text {
                    Some(t) => Some(t@),
                    None => None,
                },
            },
            Element::Preformatted { caption, lines } => ElementModel::Preformatted {
                caption: match caption {
                    Some(c) => Some(c@),
                    None => None,
                },
                lines: lines_view(lines@),
            },
            Element::Heading { level, text } => ElementModel::Heading {
                level: *level,
                text: text@,
            },
            Element::UnorderedListItem(t) => ElementModel::UnorderedListItem(t@),
            Element::Quote(t) => ElementModel::Quote(t@),
        }
    }
}

impl View for Document {
    type V = Seq<ElementModel>;

    open spec fn view(&self) -> Seq<ElementModel> {
        elems_view(self.0@)
    }
}

/// Whether an executable recognizer outcome carries exactly the model's
/// outcome: the same element (by view) and the same new cursor.
pub open spec fn step_matches(r: Option<(Element, usize)>, m: Option<(ElementModel, int)>) -> bool {
    match (r, m) {
        (None, None) => true,
        (Some((e, k)), Some((em, km))) => e@ == em && k as int == km,
        _ => false,
    }
}

/// Whether an executable optional caption carries exactly the model's.
pub open spec fn opt_string_matches(r: Option<String>, m: Option<Seq<char>>) -> bool {
    match (r, m) {
        (None, None) => true,
        (Some(c), Some(cm)) => c@ == cm,
        _ => false,
    }
}

} // verus!
