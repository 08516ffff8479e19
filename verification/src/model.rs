//! The mathematical model of the markup dialect.
//!
//! Everything here is specification: the grammar is stated as total spec
//! functions over `Seq<char>` and a cursor position.  The executable parser
//! in `parse` is proved to agree with `spec_parse` exactly.

use vstd::prelude::*;

verus! {

// ---------------------------------------------------------------------------
// Character classes
// ---------------------------------------------------------------------------

/// The Unicode whitespace characters: what trimming removes from the ends of
/// a field.
pub open spec fn is_white(c: char) -> bool {
    c == ' ' || c == '\t' || c == '\n' || c == '\u{000B}' || c == '\u{000C}' || c == '\r'
        || c == '\u{0085}' || c == '\u{00A0}' || c == '\u{1680}' || c == '\u{2000}'
        || c == '\u{2001}' || c == '\u{2002}' || c == '\u{2003}' || c == '\u{2004}'
        || c == '\u{2005}' || c == '\u{2006}' || c == '\u{2007}' || c == '\u{2008}'
        || c == '\u{2009}' || c == '\u{200A}' || c == '\u{2028}' || c == '\u{2029}'
        || c == '\u{202F}' || c == '\u{205F}' || c == '\u{3000}'
}

/// The ASCII whitespace characters: a link's url token runs up to the first
/// of these.
pub open spec fn is_ascii_white(c: char) -> bool {
    c == ' ' || c == '\t' || c == '\n' || c == '\u{000C}' || c == '\r'
}

/// Horizontal space: what may separate a link marker from its url, and the
/// url from its text.
pub open spec fn is_space(c: char) -> bool {
    c == ' ' || c == '\t'
}

// ---------------------------------------------------------------------------
// Scanning
// ---------------------------------------------------------------------------

/// The position of the first newline at or after `i`, or `s.len()` if there
/// is none.
pub open spec fn line_end(s: Seq<char>, i: int) -> int
    decreases s.len() - i,
{
    if i >= s.len() {
        s.len() as int
    } else if s[i] == '\n' {
        i
    } else {
        line_end(s, i + 1)
    }
}

/// Whether a fence token (three backticks) stands at position `i`.
pub open spec fn fence_at(s: Seq<char>, i: int) -> bool {
    i + 3 <= s.len() && s[i] == '`' && s[i + 1] == '`' && s[i + 2] == '`'
}

/// The position of the first fence token at or after `i`, if any.
pub open spec fn find_fence(s: Seq<char>, i: int) -> Option<int>
    decreases s.len() - i,
{
    if i + 3 > s.len() {
        None
    } else if fence_at(s, i) {
        Some(i)
    } else {
        find_fence(s, i + 1)
    }
}

/// The position after the run of horizontal space starting at `i`.
pub open spec fn space_run(s: Seq<char>, i: int) -> int
    decreases s.len() - i,
{
    if i < s.len() && is_space(s[i]) {
        space_run(s, i + 1)
    } else {
        i
    }
}

/// The position of the first ASCII whitespace character at or after `i`:
/// the end of a url token starting at `i`.
pub open spec fn token_end(s: Seq<char>, i: int) -> int
    decreases s.len() - i,
{
    if i < s.len() && !is_ascii_white(s[i]) {
        token_end(s, i + 1)
    } else {
        i
    }
}

/// The position after the run of heading markers starting at `i`.
pub open spec fn marker_run(s: Seq<char>, i: int) -> int
    decreases s.len() - i,
{
    if i < s.len() && s[i] == '#' {
        marker_run(s, i + 1)
    } else {
        i
    }
}

/// The position after the run of blank separators (bare newlines) at `i`.
pub open spec fn skip_blanks(s: Seq<char>, i: int) -> int
    decreases s.len() - i,
{
    if 0 <= i < s.len() && s[i] == '\n' {
        skip_blanks(s, i + 1)
    } else {
        i
    }
}

// ---------------------------------------------------------------------------
// Trimming
// ---------------------------------------------------------------------------

/// `s` without its leading whitespace.
pub open spec fn trim_start(s: Seq<char>) -> Seq<char>
    decreases s.len(),
{
    if s.len() > 0 && is_white(s[0]) {
        trim_start(s.subrange(1, s.len() as int))
    } else {
        s
    }
}

/// `s` without its trailing whitespace.
pub open spec fn trim_end(s: Seq<char>) -> Seq<char>
    decreases s.len(),
{
    if s.len() > 0 && is_white(s[s.len() - 1]) {
        trim_end(s.subrange(0, s.len() - 1))
    } else {
        s
    }
}

/// `s` without its surrounding whitespace.
pub open spec fn trimmed(s: Seq<char>) -> Seq<char> {
    trim_end(trim_start(s))
}

// ---------------------------------------------------------------------------
// Splitting preformatted content into lines
// ---------------------------------------------------------------------------

/// The newline-separated segments of `s`: at least one segment, one more for
/// every newline.
pub open spec fn split_segments(s: Seq<char>) -> Seq<Seq<char>>
    decreases s.len(),
{
    let e: int = line_end(s, 0);
    if e >= s.len() {
        seq![s]
    } else {
        proof {
            lemma_line_end_props(s, 0);
        }
        seq![s.subrange(0, e)] + split_segments(s.subrange(e + 1, s.len() as int))
    }
}

/// The lines of a preformatted block's content: the newline-separated
/// segments, except that a final newline terminates the last line rather
/// than opening an empty one.
pub open spec fn split_lines(content: Seq<char>) -> Seq<Seq<char>> {
    if content.len() == 0 {
        Seq::empty()
    } else if content[content.len() - 1] == '\n' {
        split_segments(content).drop_last()
    } else {
        split_segments(content)
    }
}

// ---------------------------------------------------------------------------
// The element model
// ---------------------------------------------------------------------------

/// The mathematical value of one parsed element: the shape of `Element`,
/// with every string replaced by its sequence of characters.
#[verifier::ext_equal]
pub enum ElementModel {
    Text(Seq<char>),
    Link { url: Seq<char>, text: Option<Seq<char>> },
    Preformatted { caption: Option<Seq<char>>, lines: Seq<Seq<char>> },
    Heading { level: u8, text: Seq<char> },
    UnorderedListItem(Seq<char>),
    Quote(Seq<char>),
}

// ---------------------------------------------------------------------------
// The element recognizers
// ---------------------------------------------------------------------------

/// The fallback rule: a non-empty line, trimmed.  It must not claim a line
/// opened by a fence token, so that an unterminated preformatted block is a
/// parse failure rather than a silently wrong element.
pub open spec fn rec_text(s: Seq<char>, i: int) -> Option<(ElementModel, int)> {
    let e: int = line_end(s, i);
    if i < e && !fence_at(s, i) {
        Some((ElementModel::Text(trimmed(s.subrange(i, e))), e))
    } else {
        None
    }
}

/// A link whose url is followed by horizontal space and a text token: the
/// marker, optional space, a url token, at least one space or tab, and the
/// rest of the line as text.  The url must not be blank.
pub open spec fn rec_link_with_text(s: Seq<char>, i: int) -> Option<(ElementModel, int)> {
    if i + 2 <= s.len() && s[i] == '=' && s[i + 1] == '>' {
        let j: int = space_run(s, i + 2);
        let u: int = token_end(s, j);
        if u < s.len() && is_space(s[u]) {
            let t: int = space_run(s, u);
            let e: int = line_end(s, t);
            let url: Seq<char> = trimmed(s.subrange(j, u));
            if url.len() > 0 {
                Some(
                    (
                        ElementModel::Link { url, text: Some(trimmed(s.subrange(t, e))) },
                        e,
                    ),
                )
            } else {
                None
            }
        } else {
            None
        }
    } else {
        None
    }
}

/// A link without a text token: the marker, optional space, and the rest of
/// the line as the url.  The url must not be blank.
pub open spec fn rec_link_without_text(s: Seq<char>, i: int) -> Option<(ElementModel, int)> {
    if i + 2 <= s.len() && s[i] == '=' && s[i + 1] == '>' {
        let j: int = space_run(s, i + 2);
        let e: int = line_end(s, j);
        let url: Seq<char> = trimmed(s.subrange(j, e));
        if url.len() > 0 {
            Some((ElementModel::Link { url, text: None }, e))
        } else {
            None
        }
    } else {
        None
    }
}

/// A link: the with-text form, or failing that, the without-text form.
pub open spec fn rec_link(s: Seq<char>, i: int) -> Option<(ElementModel, int)> {
    if rec_link_with_text(s, i) is Some {
        rec_link_with_text(s, i)
    } else {
        rec_link_without_text(s, i)
    }
}

/// A heading: one or more marker characters, then the rest of the line,
/// trimmed.  The level is the marker count, saturated at the largest level
/// the model can carry.
pub open spec fn rec_heading(s: Seq<char>, i: int) -> Option<(ElementModel, int)> {
    if i < s.len() && s[i] == '#' {
        let m: int = marker_run(s, i);
        let e: int = line_end(s, m);
        let level: u8 = if m - i > 255 {
            255u8
        } else {
            (m - i) as u8
        };
        Some((ElementModel::Heading { level, text: trimmed(s.subrange(m, e)) }, e))
    } else {
        None
    }
}

/// An unordered list item: its marker, then the rest of the line, trimmed.
pub open spec fn rec_unordered_list_item(s: Seq<char>, i: int) -> Option<(ElementModel, int)> {
    if i < s.len() && s[i] == '*' {
        let e: int = line_end(s, i + 1);
        Some((ElementModel::UnorderedListItem(trimmed(s.subrange(i + 1, e))), e))
    } else {
        None
    }
}

/// A quote: its marker, then the rest of the line, trimmed.
pub open spec fn rec_quote(s: Seq<char>, i: int) -> Option<(ElementModel, int)> {
    if i < s.len() && s[i] == '>' {
        let e: int = line_end(s, i + 1);
        Some((ElementModel::Quote(trimmed(s.subrange(i + 1, e))), e))
    } else {
        None
    }
}

/// The caption on a preformatted block's opening line: the rest of the line
/// after the fence, trimmed, with a blank caption normalized to none.
pub open spec fn pre_caption(s: Seq<char>, i: int) -> Option<Seq<char>> {
    let e: int = line_end(s, i + 3);
    let c: Seq<char> = trimmed(s.subrange(i + 3, e));
    if c.len() == 0 {
        None
    } else {
        Some(c)
    }
}

/// A preformatted block: an opening fence with optional caption, a newline,
/// then the shortest run of content up to the next fence token anywhere, and
/// that closing fence.  Without a closing fence the rule fails.
pub open spec fn rec_preformatted(s: Seq<char>, i: int) -> Option<(ElementModel, int)> {
    if fence_at(s, i) {
        let e: int = line_end(s, i + 3);
        if e < s.len() {
            match find_fence(s, e + 1) {
                Some(f) => Some(
                    (
                        ElementModel::Preformatted {
                            caption: pre_caption(s, i),
                            lines: split_lines(s.subrange(e + 1, f)),
                        },
                        f + 3,
                    ),
                ),
                None => None,
            }
        } else {
            None
        }
    } else {
        None
    }
}

/// The ordered-alternative dispatcher: the first rule to match claims the
/// cursor.  Order is significant; the fallback comes last.
pub open spec fn recognize(s: Seq<char>, i: int) -> Option<(ElementModel, int)> {
    if rec_preformatted(s, i) is Some {
        rec_preformatted(s, i)
    } else if rec_link(s, i) is Some {
        rec_link(s, i)
    } else if rec_heading(s, i) is Some {
        rec_heading(s, i)
    } else if rec_unordered_list_item(s, i) is Some {
        rec_unordered_list_item(s, i)
    } else if rec_quote(s, i) is Some {
        rec_quote(s, i)
    } else {
        rec_text(s, i)
    }
}

// ---------------------------------------------------------------------------
// The document assembler
// ---------------------------------------------------------------------------

/// The document assembler from position `i`: skip blank separators, stop
/// cleanly at end of input, and otherwise demand an element and continue
/// after it.  A failed recognition is a failure of the whole parse, carrying
/// the offset of the residue.
pub open spec fn assemble(s: Seq<char>, i: int) -> Result<Seq<ElementModel>, int>
    decreases s.len() - i
        when 0 <= i <= s.len()
{
    let j: int = skip_blanks(s, i);
    if j >= s.len() {
        Ok(Seq::empty())
    } else {
        match recognize(s, j) {
            None => Err(j),
            Some((e, k)) => {
                proof {
                    lemma_skip_blanks_bounds(s, i);
                    lemma_recognize_advances(s, j);
                }
                match assemble(s, k) {
                    Ok(rest) => Ok(seq![e] + rest),
                    Err(o) => Err(o),
                }
            },
        }
    }
}

/// An element sequence prepended to an assembler outcome.
pub open spec fn with_prefix(
    pre: Seq<ElementModel>,
    r: Result<Seq<ElementModel>, int>,
) -> Result<Seq<ElementModel>, int> {
    match r {
        Ok(rest) => Ok(pre + rest),
        Err(o) => Err(o),
    }
}

/// The preprocessing step: an input that does not end in a newline gets one
/// appended, so the final line terminates like every other line.
pub open spec fn normalize(s: Seq<char>) -> Seq<char> {
    if s.len() > 0 && s[s.len() - 1] == '\n' {
        s
    } else {
        s + seq!['\n']
    }
}

/// What parsing an input means: normalize it, then run the assembler over
/// the whole of it from the start.
pub open spec fn spec_parse(s: Seq<char>) -> Result<Seq<ElementModel>, int> {
    assemble(normalize(s), 0)
}

// ---------------------------------------------------------------------------
// Properties of the scanning functions
// ---------------------------------------------------------------------------

/// `line_end` lands on the first newline at or after `i`, or at the end.
pub proof fn lemma_line_end_props(s: Seq<char>, i: int)
    requires
        i <= s.len(),
    ensures
        i <= line_end(s, i) <= s.len(),
        forall|k: int| i <= k < line_end(s, i) ==> s[k] != '\n',
        line_end(s, i) < s.len() ==> s[line_end(s, i)] == '\n',
    decreases s.len() - i,
{
    if i < s.len() && s[i] != '\n' {
        lemma_line_end_props(s, i + 1);
    }
}

/// A position with no newline before it (from `i`) and a newline or the end
/// at it is exactly `line_end(s, i)`.
pub proof fn lemma_line_end_at(s: Seq<char>, i: int, m: int)
    requires
        i <= m <= s.len(),
        forall|k: int| i <= k < m ==> s[k] != '\n',
        m == s.len() || s[m] == '\n',
    ensures
        line_end(s, i) == m,
    decreases m - i,
{
    if i < m {
        lemma_line_end_at(s, i + 1, m);
    }
}

/// What `find_fence` returns: the first fence position, or none at all.
pub proof fn lemma_find_fence_props(s: Seq<char>, i: int)
    ensures
        find_fence(s, i) matches Some(f) ==> i <= f && fence_at(s, f) && (forall|k: int|
            i <= k < f ==> !fence_at(s, k)),
        find_fence(s, i) is None ==> forall|k: int| i <= k ==> !fence_at(s, k),
    decreases s.len() - i,
{
    if i + 3 > s.len() {
    } else if fence_at(s, i) {
    } else {
        lemma_find_fence_props(s, i + 1);
    }
}

/// A fence position with no fence before it (from `i`) is exactly what
/// `find_fence(s, i)` returns.
pub proof fn lemma_find_fence_at(s: Seq<char>, i: int, f: int)
    requires
        i <= f,
        fence_at(s, f),
        forall|k: int| i <= k < f ==> !fence_at(s, k),
    ensures
        find_fence(s, i) == Some(f),
    decreases f - i,
{
    if i < f {
        lemma_find_fence_at(s, i + 1, f);
    }
}

/// `space_run` ends at the first character that is not horizontal space.
pub proof fn lemma_space_run_props(s: Seq<char>, i: int)
    requires
        i <= s.len(),
    ensures
        i <= space_run(s, i) <= s.len(),
        forall|k: int| i <= k < space_run(s, i) ==> is_space(s[k]),
        space_run(s, i) < s.len() ==> !is_space(s[space_run(s, i)]),
    decreases s.len() - i,
{
    if i < s.len() && is_space(s[i]) {
        lemma_space_run_props(s, i + 1);
    }
}

/// `token_end` ends at the first ASCII whitespace character.
pub proof fn lemma_token_end_props(s: Seq<char>, i: int)
    requires
        i <= s.len(),
    ensures
        i <= token_end(s, i) <= s.len(),
        forall|k: int| i <= k < token_end(s, i) ==> !is_ascii_white(s[k]),
        token_end(s, i) < s.len() ==> is_ascii_white(s[token_end(s, i)]),
    decreases s.len() - i,
{
    if i < s.len() && !is_ascii_white(s[i]) {
        lemma_token_end_props(s, i + 1);
    }
}

/// `marker_run` ends at the first character that is not a heading marker.
pub proof fn lemma_marker_run_props(s: Seq<char>, i: int)
    requires
        i <= s.len(),
    ensures
        i <= marker_run(s, i) <= s.len(),
        forall|k: int| i <= k < marker_run(s, i) ==> s[k] == '#',
        marker_run(s, i) < s.len() ==> s[marker_run(s, i)] != '#',
    decreases s.len() - i,
{
    if i < s.len() && s[i] == '#' {
        lemma_marker_run_props(s, i + 1);
    }
}

/// `skip_blanks` does not move backwards and stays inside the input.
pub proof fn lemma_skip_blanks_bounds(s: Seq<char>, i: int)
    ensures
        i <= skip_blanks(s, i),
        i <= s.len() ==> skip_blanks(s, i) <= s.len(),
        forall|k: int| i <= k < skip_blanks(s, i) ==> s[k] == '\n',
        0 <= skip_blanks(s, i) < s.len() ==> s[skip_blanks(s, i)] != '\n',
    decreases s.len() - i,
{
    if 0 <= i < s.len() && s[i] == '\n' {
        lemma_skip_blanks_bounds(s, i + 1);
    }
}

/// A successful recognition strictly advances the cursor, and never past the
/// end of the input.
pub proof fn lemma_recognize_advances(s: Seq<char>, i: int)
    requires
        i <= s.len(),
    ensures
        recognize(s, i) matches Some((e, k)) ==> i < k && k <= s.len(),
{
    lemma_line_end_props(s, i);
    if i + 3 <= s.len() {
        lemma_line_end_props(s, i + 3);
        let e: int = line_end(s, i + 3);
        if e + 1 <= s.len() {
            lemma_find_fence_props(s, e + 1);
        }
    }
    if i + 2 <= s.len() {
        lemma_space_run_props(s, i + 2);
        let j: int = space_run(s, i + 2);
        lemma_token_end_props(s, j);
        let u: int = token_end(s, j);
        lemma_space_run_props(s, u);
        let t: int = space_run(s, u);
        lemma_line_end_props(s, t);
        lemma_line_end_props(s, j);
    }
    if i < s.len() {
        lemma_marker_run_props(s, i);
        let m: int = marker_run(s, i);
        lemma_line_end_props(s, m);
        if i + 1 <= s.len() {
            lemma_line_end_props(s, i + 1);
        }
    }
}

// ---------------------------------------------------------------------------
// Properties of splitting
// ---------------------------------------------------------------------------

/// Splitting yields at least one segment.
pub proof fn lemma_split_segments_nonempty(s: Seq<char>)
    ensures
        split_segments(s).len() >= 1,
{
}

/// Splitting off the first line: content with a newline yields its first
/// segment and then the split of what follows that newline; content without
/// one is a single line.
pub proof fn lemma_split_lines_step(content: Seq<char>)
    requires
        content.len() > 0,
    ensures
        line_end(content, 0) < content.len() ==> split_lines(content) == seq![
            content.subrange(0, line_end(content, 0)),
        ] + split_lines(content.subrange(line_end(content, 0) + 1, content.len() as int)),
        line_end(content, 0) == content.len() ==> split_lines(content) == seq![content],
{
    lemma_line_end_props(content, 0);
    let e: int = line_end(content, 0);
    if e < content.len() {
        let first: Seq<char> = content.subrange(0, e);
        let rest: Seq<char> = content.subrange(e + 1, content.len() as int);
        assert(split_segments(content) == seq![first] + split_segments(rest));
        if rest.len() == 0 {
            assert(content[content.len() - 1] == '\n');
            assert(split_segments(rest) =~= seq![rest]);
            assert((seq![first] + seq![rest]).drop_last() =~= seq![first]);
            assert(split_lines(content) =~= seq![first]);
            assert(split_lines(rest) =~= Seq::<Seq<char>>::empty());
            assert(seq![first] + split_lines(rest) =~= seq![first]);
        } else {
            assert(content[content.len() - 1] == rest[rest.len() - 1]);
            lemma_split_segments_nonempty(rest);
            if content[content.len() - 1] == '\n' {
                assert((seq![first] + split_segments(rest)).drop_last() =~= seq![first]
                    + split_segments(rest).drop_last());
            }
        }
    } else {
        assert(content[content.len() - 1] != '\n');
    }
}

// ---------------------------------------------------------------------------
// Properties of trimming
// ---------------------------------------------------------------------------

/// `trim_start` drops exactly the leading run of whitespace.
pub proof fn lemma_trim_start_at(q: Seq<char>, a: int)
    requires
        0 <= a <= q.len(),
        forall|k: int| 0 <= k < a ==> is_white(q[k]),
        a < q.len() ==> !is_white(q[a]),
    ensures
        trim_start(q) == q.subrange(a, q.len() as int),
    decreases a,
{
    if a == 0 {
        assert(q.subrange(0, q.len() as int) =~= q);
    } else {
        let q2: Seq<char> = q.subrange(1, q.len() as int);
        lemma_trim_start_at(q2, a - 1);
        assert(q2.subrange(a - 1, q2.len() as int) =~= q.subrange(a, q.len() as int));
    }
}

/// `trim_end` drops exactly the trailing run of whitespace.
pub proof fn lemma_trim_end_at(q: Seq<char>, b: int)
    requires
        0 <= b <= q.len(),
        forall|k: int| b <= k < q.len() ==> is_white(q[k]),
        b > 0 ==> !is_white(q[b - 1]),
    ensures
        trim_end(q) == q.subrange(0, b),
    decreases q.len() - b,
{
    if b == q.len() {
        assert(q.subrange(0, q.len() as int) =~= q);
    } else {
        let q2: Seq<char> = q.subrange(0, q.len() - 1);
        lemma_trim_end_at(q2, b);
        assert(q2.subrange(0, b) =~= q.subrange(0, b));
    }
}

/// Trimming keeps exactly the span between the first and last characters
/// that are not whitespace.
pub proof fn lemma_trimmed_at(q: Seq<char>, a: int, b: int)
    requires
        0 <= a <= b <= q.len(),
        forall|k: int| 0 <= k < a ==> is_white(q[k]),
        forall|k: int| b <= k < q.len() ==> is_white(q[k]),
        a < b ==> !is_white(q[a]) && !is_white(q[b - 1]),
    ensures
        trimmed(q) == q.subrange(a, b),
{
    if a == b {
        lemma_trim_start_at(q, q.len() as int);
        let q2: Seq<char> = q.subrange(q.len() as int, q.len() as int);
        assert(q2.len() == 0);
        assert(trim_end(q2) =~= q.subrange(a, b));
    } else {
        lemma_trim_start_at(q, a);
        let q2: Seq<char> = q.subrange(a, q.len() as int);
        lemma_trim_end_at(q2, b - a);
        assert(q2.subrange(0, b - a) =~= q.subrange(a, b));
    }
}

} // verus!
