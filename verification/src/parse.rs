//! The executable parser: one recognizer per element kind, the ordered
//! dispatcher, and the document assembler, each proved to agree with the
//! model in `model`.

use crate::document::elems_view;
use crate::document::opt_string_matches;
use crate::document::step_matches;
use crate::document::Document;
use crate::document::Element;
use crate::document::ParseError;
use crate::model::assemble;
use crate::model::fence_at;
use crate::model::lemma_recognize_advances;
use crate::model::line_end;
use crate::model::normalize;
use crate::model::pre_caption;
use crate::model::rec_heading;
use crate::model::rec_link;
use crate::model::rec_link_with_text;
use crate::model::rec_link_without_text;
use crate::model::rec_preformatted;
use crate::model::rec_quote;
use crate::model::rec_text;
use crate::model::rec_unordered_list_item;
use crate::model::recognize;
use crate::model::skip_blanks;
use crate::model::spec_parse;
use crate::model::with_prefix;
use crate::model::ElementModel;
use crate::scan::fence_at_pos;
use crate::scan::find_fence_from;
use crate::scan::line_end_from;
use crate::scan::marker_run_from;
use crate::scan::space_run_from;
use crate::scan::split_region;
use crate::scan::token_end_from;
use crate::scan::trim_region;
use vstd::prelude::*;

verus! {

impl Element {
    /// The fallback rule: a non-empty line that no marker opened, trimmed.
    pub fn text(s: &str, i: usize) -> (r: Option<(Element, usize)>)
        requires
            i <= s@.len(),
        ensures
            step_matches(r, rec_text(s@, i as int)),
    {
        let e: usize = line_end_from(s, i);
        if e == i {
            return None;
        }
        if fence_at_pos(s, i) {
            return None;
        }
        let line: String = trim_region(s, i, e);
        Some((Element::Text(line), e))
    }

    /// A link whose url is followed by horizontal space and a text token.
    pub fn link_with_text(s: &str, i: usize) -> (r: Option<(Element, usize)>)
        requires
            i <= s@.len(),
        ensures
            step_matches(r, rec_link_with_text(s@, i as int)),
    {
        let n: usize = s.unicode_len();
        if !(n - i >= 2 && s.get_char(i) == '=' && s.get_char(i + 1) == '>') {
            return None;
        }
        let j: usize = space_run_from(s, i + 2);
        let u: usize = token_end_from(s, j);
        if u == n {
            return None;
        }
        let cu: char = s.get_char(u);
        if !(cu == ' ' || cu == '\t') {
            return None;
        }
        let t: usize = space_run_from(s, u);
        let e: usize = line_end_from(s, t);
        let url: String = trim_region(s, j, u);
        if url.as_str().is_empty() {
            return None;
        }
        let text: String = trim_region(s, t, e);
        Some((Element::Link { url, text: Some(text) }, e))
    }

    /// A link whose whole line remainder is the url.
    pub fn link_without_text(s: &str, i: usize) -> (r: Option<(Element, usize)>)
        requires
            i <= s@.len(),
        ensures
            step_matches(r, rec_link_without_text(s@, i as int)),
    {
        let n: usize = s.unicode_len();
        if !(n - i >= 2 && s.get_char(i) == '=' && s.get_char(i + 1) == '>') {
            return None;
        }
        let j: usize = space_run_from(s, i + 2);
        let e: usize = line_end_from(s, j);
        let url: String = trim_region(s, j, e);
        if url.as_str().is_empty() {
            return None;
        }
        Some((Element::Link { url, text: None }, e))
    }

    /// A link: the with-text form first, then the without-text form.
    pub fn link(s: &str, i: usize) -> (r: Option<(Element, usize)>)
        requires
            i <= s@.len(),
        ensures
            step_matches(r, rec_link(s@, i as int)),
    {
        match Self::link_with_text(s, i) {
            Some(x) => Some(x),
            None => Self::link_without_text(s, i),
        }
    }

    /// A heading: its markers counted, the rest of the line trimmed.
    pub fn heading(s: &str, i: usize) -> (r: Option<(Element, usize)>)
        requires
            i <= s@.len(),
        ensures
            step_matches(r, rec_heading(s@, i as int)),
    {
        let n: usize = s.unicode_len();
        if i == n {
            return None;
        }
        if s.get_char(i) != '#' {
            return None;
        }
        let m: usize = marker_run_from(s, i);
        let e: usize = line_end_from(s, m);
        let d: usize = m - i;
        let level: u8 = if d > 255 {
            255
        } else {
            d as u8
        };
        let text: String = trim_region(s, m, e);
        Some((Element::Heading { level, text }, e))
    }

    /// An unordered list item: the rest of the line after its marker.
    pub fn unordered_list_item(s: &str, i: usize) -> (r: Option<(Element, usize)>)
        requires
            i <= s@.len(),
        ensures
            step_matches(r, rec_unordered_list_item(s@, i as int)),
    {
        let n: usize = s.unicode_len();
        if i == n {
            return None;
        }
        if s.get_char(i) != '*' {
            return None;
        }
        let e: usize = line_end_from(s, i + 1);
        let text: String = trim_region(s, i + 1, e);
        Some((Element::UnorderedListItem(text), e))
    }

    /// A quote: the rest of the line after its marker.
    pub fn quote(s: &str, i: usize) -> (r: Option<(Element, usize)>)
        requires
            i <= s@.len(),
        ensures
            step_matches(r, rec_quote(s@, i as int)),
    {
        let n: usize = s.unicode_len();
        if i == n {
            return None;
        }
        if s.get_char(i) != '>' {
            return None;
        }
        let e: usize = line_end_from(s, i + 1);
        let text: String = trim_region(s, i + 1, e);
        Some((Element::Quote(text), e))
    }

    /// The opening line of a preformatted block: the fence and its optional
    /// caption, blank captions normalized to none.  Returns the caption and
    /// the position of the opening line's end.
    pub fn preformatted_start(s: &str, i: usize) -> (r: Option<(Option<String>, usize)>)
        requires
            i <= s@.len(),
        ensures
            r is Some <==> fence_at(s@, i as int),
            r matches Some((cap, e)) ==> e as int == line_end(s@, i as int + 3)
                && opt_string_matches(cap, pre_caption(s@, i as int)) && e <= s@.len(),
    {
        let n: usize = s.unicode_len();
        if !fence_at_pos(s, i) {
            return None;
        }
        let e: usize = line_end_from(s, i + 3);
        let c: String = trim_region(s, i + 3, e);
        if c.as_str().is_empty() {
            Some((None, e))
        } else {
            Some((Some(c), e))
        }
    }

    /// A preformatted block: the opening line, the shortest content up to
    /// the next fence token, and that closing fence.
    pub fn preformatted(s: &str, i: usize) -> (r: Option<(Element, usize)>)
        requires
            i <= s@.len(),
        ensures
            step_matches(r, rec_preformatted(s@, i as int)),
    {
        let n: usize = s.unicode_len();
        match Self::preformatted_start(s, i) {
            None => None,
            Some((caption, e)) => {
                if e == n {
                    return None;
                }
                match find_fence_from(s, e + 1) {
                    None => None,
                    Some(f) => {
                        let lines: Vec<String> = split_region(s, e + 1, f);
                        Some((Element::Preformatted { caption, lines }, f + 3))
                    },
                }
            },
        }
    }

    /// The ordered-alternative dispatcher: the rules in their fixed
    /// priority, first success wins.
    pub fn from_str(s: &str, i: usize) -> (r: Option<(Element, usize)>)
        requires
            i <= s@.len(),
        ensures
            step_matches(r, recognize(s@, i as int)),
    {
        if let Some(x) = Self::preformatted(s, i) {
            return Some(x);
        }
        if let Some(x) = Self::link(s, i) {
            return Some(x);
        }
        if let Some(x) = Self::heading(s, i) {
            return Some(x);
        }
        if let Some(x) = Self::unordered_list_item(s, i) {
            return Some(x);
        }
        if let Some(x) = Self::quote(s, i) {
            return Some(x);
        }
        Self::text(s, i)
    }
}

impl Document {
    /// The document assembler over an already normalized input: skip blank
    /// separators, recognize elements until the input is consumed, and fail
    /// with the offset of the first residue no rule can claim.
    pub fn from_str(s: &str) -> (r: Result<Document, ParseError>)
        ensures
            ({
                let m = assemble(s@, 0);
                match r {
                    Ok(d) => m matches Ok(els) && d@ == els,
                    Err(pe) => m matches Err(o) && pe.offset as int == o,
                }
            }),
    {
        let n: usize = s.unicode_len();
        let mut out: Vec<Element> = Vec::new();
        let mut p: usize = 0;
        proof {
            assert(elems_view(out@) + assemble(s@, 0)->Ok_0 =~= assemble(s@, 0)->Ok_0);
            assert(with_prefix(elems_view(out@), assemble(s@, 0)) == assemble(s@, 0));
        }
        loop
            invariant
                p <= n,
                n == s@.len(),
                with_prefix(elems_view(out@), assemble(s@, p as int)) == assemble(s@, 0),
            decreases n - p,
        {
            let ghost p_entry: int = p as int;
            // consume the run of blank separators
            loop
                invariant
                    p_entry <= p as int,
                    p <= n,
                    n == s@.len(),
                    with_prefix(elems_view(out@), assemble(s@, p as int)) == assemble(s@, 0),
                ensures
                    p_entry <= p as int,
                    p <= n,
                    with_prefix(elems_view(out@), assemble(s@, p as int)) == assemble(s@, 0),
                    p == n || s@[p as int] != '\n',
                decreases n - p,
            {
                if p == n {
                    break;
                }
                if s.get_char(p) != '\n' {
                    break;
                }
                proof {
                    assert(skip_blanks(s@, p as int) == skip_blanks(s@, p + 1));
                    assert(assemble(s@, p as int) == assemble(s@, p + 1));
                }
                p = p + 1;
            }
            if p == n {
                proof {
                    assert(skip_blanks(s@, p as int) == p as int);
                    assert(assemble(s@, p as int) == Ok::<Seq<ElementModel>, int>(Seq::empty()));
                    assert(elems_view(out@) + Seq::<ElementModel>::empty() =~= elems_view(out@));
                }
                return Ok(Document(out));
            }
            proof {
                assert(skip_blanks(s@, p as int) == p as int);
            }
            match Element::from_str(s, p) {
                None => {
                    proof {
                        assert(assemble(s@, p as int) == Err::<Seq<ElementModel>, int>(p as int));
                    }
                    return Err(ParseError { offset: p });
                },
                Some((el, k)) => {
                    proof {
                        lemma_recognize_advances(s@, p as int);
                        assert(assemble(s@, p as int) == with_prefix(
                            seq![el@],
                            assemble(s@, k as int),
                        ));
                    }
                    let ghost old_out: Seq<Element> = out@;
                    out.push(el);
                    proof {
                        assert(elems_view(out@) =~= elems_view(old_out) + seq![el@]);
                        let rest = assemble(s@, k as int);
                        if rest is Ok {
                            assert((elems_view(old_out) + seq![el@]) + rest->Ok_0
                                =~= elems_view(old_out) + (seq![el@] + rest->Ok_0));
                        }
                        assert(with_prefix(elems_view(out@), rest) == with_prefix(
                            elems_view(old_out),
                            assemble(s@, p as int),
                        ));
                    }
                    p = k;
                },
            }
        }
    }

    /// Parse a `Document` from a string: the single entry point's behaviour,
    /// stated against `spec_parse`.
    pub fn try_from(input: &str) -> (r: Result<Document, ParseError>)
        ensures
            ({
                let m = spec_parse(input@);
                match r {
                    Ok(d) => m matches Ok(els) && d@ == els,
                    Err(pe) => m matches Err(o) && pe.offset as int == o,
                }
            }),
    {
        parse(input)
    }
}

/// Parse an input into a `Document`, or fail with the offset, in the
/// normalized input, of the first residue that no grammar rule can claim.
/// Succeeds exactly when the model's `spec_parse` does, with the same
/// elements in the same order.
pub fn parse(source: &str) -> (r: Result<Document, ParseError>)
    ensures
        ({
            let m = spec_parse(source@);
            match r {
                Ok(d) => m matches Ok(els) && d@ == els,
                Err(pe) => m matches Err(o) && pe.offset as int == o,
            }
        }),
{
    let n: usize = source.unicode_len();
    let ends_with_newline: bool = n > 0 && source.get_char(n - 1) == '\n';
    if ends_with_newline {
        proof {
            assert(normalize(source@) == source@);
        }
        Document::from_str(source)
    } else {
        let mut owned: String = String::from_str(source);
        owned.append("\n");
        proof {
            reveal_strlit("\n");
            assert(owned@ =~= normalize(source@));
        }
        Document::from_str(owned.as_str())
    }
}

} // verus!
