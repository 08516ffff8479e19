//! The general laws of the parser, stated over the model in `model` and
//! proved once and for all: what plain inputs parse to, how rule priority
//! resolves, that an unterminated preformatted block is a failure, and that
//! a canonically rendered document parses back to itself.

use crate::model::assemble;
use crate::model::fence_at;
use crate::model::find_fence;
use crate::model::is_ascii_white;
use crate::model::is_space;
use crate::model::is_white;
use crate::model::lemma_find_fence_at;
use crate::model::lemma_find_fence_props;
use crate::model::lemma_line_end_at;
use crate::model::lemma_line_end_props;
use crate::model::lemma_marker_run_props;
use crate::model::lemma_skip_blanks_bounds;
use crate::model::lemma_space_run_props;
use crate::model::lemma_split_lines_step;
use crate::model::lemma_token_end_props;
use crate::model::lemma_trimmed_at;
use crate::model::line_end;
use crate::model::marker_run;
use crate::model::normalize;
use crate::model::pre_caption;
use crate::model::rec_heading;
use crate::model::rec_link;
use crate::model::rec_link_with_text;
use crate::model::rec_link_without_text;
use crate::model::rec_preformatted;
use crate::model::rec_quote;
use crate::model::rec_text;
use crate::model::rec_unordered_list_item;
use crate::model::recognize;
use crate::model::skip_blanks;
use crate::model::space_run;
use crate::model::spec_parse;
use crate::model::split_lines;
use crate::model::token_end;
use crate::model::trimmed;
use crate::model::ElementModel;
use vstd::prelude::*;

verus! {

// ---------------------------------------------------------------------------
// Empty input
// ---------------------------------------------------------------------------

/// An empty input parses to a document with zero elements.
pub proof fn lemma_parse_empty()
    ensures
        spec_parse(Seq::<char>::empty()) == Ok::<Seq<ElementModel>, int>(Seq::empty()),
{
    let s: Seq<char> = normalize(Seq::<char>::empty());
    assert(s =~= seq!['\n']);
    assert(skip_blanks(s, 1) == 1);
    assert(skip_blanks(s, 0) == 1);
    assert(assemble(s, 0) == Ok::<Seq<ElementModel>, int>(Seq::empty()));
}

// ---------------------------------------------------------------------------
// Rule priority
// ---------------------------------------------------------------------------

/// Where the link rule matches, it is the link rule that decides: the line
/// is never claimed by the fallback (nor by any later rule), and the element
/// is a link.
pub proof fn lemma_link_priority(s: Seq<char>, i: int)
    requires
        rec_link(s, i) is Some,
    ensures
        recognize(s, i) == rec_link(s, i),
        recognize(s, i) matches Some((e, k)) ==> e is Link,
{
    assert(s[i] == '=');
    assert(!fence_at(s, i));
}

// ---------------------------------------------------------------------------
// Unterminated preformatted blocks
// ---------------------------------------------------------------------------

/// A fence token with no further fence token anywhere after it opens a block
/// that nothing can close: no rule matches there, so an assembler that
/// reaches it fails rather than returning a truncated document.
pub proof fn lemma_unterminated_fence_refused(s: Seq<char>, i: int)
    requires
        i <= s.len(),
        fence_at(s, i),
        forall|k: int| i + 3 <= k ==> !fence_at(s, k),
    ensures
        recognize(s, i) is None,
{
    lemma_line_end_props(s, i + 3);
    let e: int = line_end(s, i + 3);
    if e < s.len() {
        lemma_find_fence_props(s, e + 1);
        assert(find_fence(s, e + 1) is None);
    }
    assert(s[i] == '`');
    assert(rec_text(s, i) is None);
}

/// The single-line rules: where the dispatcher matches anything but a
/// preformatted block, the element's span stays inside one line, and the
/// cursor stops at that line's newline or at the end of the input.
pub proof fn lemma_single_line_rules(s: Seq<char>, i: int)
    requires
        i <= s.len(),
        rec_preformatted(s, i) is None,
    ensures
        recognize(s, i) matches Some((e, k)) ==> i < k <= s.len() && (forall|m: int|
            i <= m < k ==> s[m] != '\n') && (k == s.len() || s[k] == '\n'),
{
    lemma_line_end_props(s, i);
    if i + 2 <= s.len() {
        lemma_space_run_props(s, i + 2);
        let j: int = space_run(s, i + 2);
        lemma_token_end_props(s, j);
        let u: int = token_end(s, j);
        lemma_space_run_props(s, u);
        let t: int = space_run(s, u);
        lemma_line_end_props(s, t);
        lemma_line_end_props(s, j);
    }
    if i < s.len() {
        lemma_marker_run_props(s, i);
        let m: int = marker_run(s, i);
        lemma_line_end_props(s, m);
        if i + 1 <= s.len() {
            lemma_line_end_props(s, i + 1);
        }
    }
}

/// A document whose only fence token stands at the start of a line is an
/// unterminated block: assembling from any point at or before that fence
/// fails.  (A fence token inside a line belongs to that line's element; one
/// preceded by another fence may be a closing fence.  Neither is claimed
/// here.)
pub proof fn lemma_lone_fence_fails(s: Seq<char>, j: int, i: int)
    requires
        0 <= i <= s.len(),
        i <= j,
        fence_at(s, j),
        j == 0 || s[j - 1] == '\n',
        forall|k: int| 0 <= k && k != j ==> !fence_at(s, k),
    ensures
        assemble(s, i) is Err,
    decreases j - i,
{
    lemma_skip_blanks_bounds(s, i);
    let p: int = skip_blanks(s, i);
    assert(s[j] == '`');
    assert(p <= j) by {
        if p > j {
            assert(s[j] == '\n');
        }
    }
    if p == j {
        lemma_unterminated_fence_refused(s, j);
    } else {
        assert(!fence_at(s, p));
        assert(rec_preformatted(s, p) is None);
        lemma_single_line_rules(s, p);
        match recognize(s, p) {
            None => {},
            Some((e, k)) => {
                // the fence's line start cannot fall inside the element
                assert(k <= j) by {
                    if k > j {
                        assert(j >= 1 && p <= j - 1 < k);
                        assert(s[j - 1] != '\n');
                    }
                }
                assert(k != j) by {
                    if k == j {
                        assert(j + 3 <= s.len());
                        assert(s[k] == '\n');
                    }
                }
                lemma_lone_fence_fails(s, j, k);
            },
        }
    }
}

/// The whole-parse reading: an input whose one and only fence token stands
/// at the start of a line never parses, whatever else it holds.
pub proof fn lemma_lone_fence_input_fails(s: Seq<char>, j: int)
    requires
        0 <= j,
        fence_at(s, j),
        j == 0 || s[j - 1] == '\n',
        forall|k: int| 0 <= k && k != j ==> !fence_at(s, k),
    ensures
        spec_parse(s) is Err,
{
    let t: Seq<char> = normalize(s);
    assert(fence_at(t, j)) by {
        assert(t[j] == s[j] && t[j + 1] == s[j + 1] && t[j + 2] == s[j + 2]);
    }
    assert forall|k: int| 0 <= k && k != j implies !fence_at(t, k) by {
        if fence_at(t, k) && k != j {
            if k + 3 <= s.len() {
                assert(fence_at(s, k));
            } else {
                // a fence cannot reach into the appended newline
                assert(t[t.len() - 1] == '\n');
                assert(k + 3 == t.len() ==> t[k + 2] == '\n');
            }
        }
    }
    lemma_lone_fence_fails(t, j, 0);
}

// ---------------------------------------------------------------------------
// Plain text inputs
// ---------------------------------------------------------------------------

/// Whether position `p` starts a line of `s`.
pub open spec fn line_start(s: Seq<char>, p: int) -> bool {
    0 <= p < s.len() && (p == 0 || s[p - 1] == '\n')
}

/// Whether the line starting at `p` opens with no marker of any rule.
pub open spec fn unmarked_at(s: Seq<char>, p: int) -> bool {
    s[p] != '#' && s[p] != '*' && s[p] != '>' && !(p + 2 <= s.len() && s[p] == '=' && s[p + 1]
        == '>') && !fence_at(s, p)
}

/// Whether no line of `s` opens with a marker.
pub open spec fn no_marked_line(s: Seq<char>) -> bool {
    forall|p: int| line_start(s, p) ==> unmarked_at(s, p)
}

/// One `Text` element, holding the line trimmed, for each non-empty line.
pub open spec fn text_lines(lines: Seq<Seq<char>>) -> Seq<ElementModel>
    decreases lines.len(),
{
    if lines.len() == 0 {
        Seq::empty()
    } else if lines[0].len() == 0 {
        text_lines(lines.drop_first())
    } else {
        seq![ElementModel::Text(trimmed(lines[0]))] + text_lines(lines.drop_first())
    }
}

/// Assembling a normalized input none of whose lines opens with a marker
/// succeeds, and yields one `Text` element per non-empty line, each the line
/// trimmed, in order.
pub proof fn lemma_unmarked_assemble(s: Seq<char>, i: int)
    requires
        0 <= i <= s.len(),
        s.len() > 0 && s[s.len() - 1] == '\n',
        no_marked_line(s),
        i == 0 || s[i - 1] == '\n',
    ensures
        assemble(s, i) == Ok::<Seq<ElementModel>, int>(
            text_lines(split_lines(s.subrange(i, s.len() as int))),
        ),
    decreases s.len() - i,
{
    let n: int = s.len() as int;
    let tail: Seq<char> = s.subrange(i, n);
    if i == n {
        assert(skip_blanks(s, i) == i);
        assert(tail.len() == 0);
    } else {
        lemma_split_lines_step(tail);
        lemma_line_end_props(s, i);
        let e: int = line_end(s, i);
        assert(e < n) by {
            if e == n {
                assert(s[n - 1] != '\n');
            }
        }
        assert forall|m: int| 0 <= m < e - i implies tail[m] != '\n' by {
            assert(tail[m] == s[i + m]);
        }
        assert(tail[e - i] == s[e]);
        lemma_line_end_at(tail, 0, e - i);
        assert(tail.subrange(e - i + 1, tail.len() as int) =~= s.subrange(e + 1, n));
        if s[i] == '\n' {
            // an empty line: a blank separator, dropped
            assert(e == i);
            assert(skip_blanks(s, i) == skip_blanks(s, i + 1));
            assert(assemble(s, i) == assemble(s, i + 1));
            lemma_unmarked_assemble(s, i + 1);
            assert(tail.subrange(0, 0) =~= Seq::<char>::empty());
            assert(split_lines(tail) == seq![tail.subrange(0, 0)] + split_lines(
                s.subrange(e + 1, n),
            ));
            assert(text_lines(split_lines(tail)) =~= text_lines(
                (seq![tail.subrange(0, 0)] + split_lines(s.subrange(e + 1, n))).drop_first(),
            ));
            assert((seq![tail.subrange(0, 0)] + split_lines(s.subrange(e + 1, n))).drop_first()
                =~= split_lines(s.subrange(e + 1, n)));
        } else {
            // a non-empty, unmarked line: the fallback rule claims it
            assert(line_start(s, i));
            assert(unmarked_at(s, i));
            assert(skip_blanks(s, i) == i);
            assert(rec_preformatted(s, i) is None);
            assert(rec_link_with_text(s, i) is None);
            assert(rec_link_without_text(s, i) is None);
            assert(rec_heading(s, i) is None);
            assert(rec_unordered_list_item(s, i) is None);
            assert(rec_quote(s, i) is None);
            assert(i < e);
            let el: ElementModel = ElementModel::Text(trimmed(s.subrange(i, e)));
            assert(recognize(s, i) == Some((el, e)));
            assert(s[e] == '\n');
            assert(skip_blanks(s, e) == skip_blanks(s, e + 1));
            assert(assemble(s, e) == assemble(s, e + 1));
            lemma_unmarked_assemble(s, e + 1);
            let rest: Seq<ElementModel> = text_lines(split_lines(s.subrange(e + 1, n)));
            assert(assemble(s, i) == Ok::<Seq<ElementModel>, int>(seq![el] + rest));
            let first: Seq<char> = tail.subrange(0, e - i);
            assert(first =~= s.subrange(i, e));
            assert(split_lines(tail) == seq![first] + split_lines(s.subrange(e + 1, n)));
            assert((seq![first] + split_lines(s.subrange(e + 1, n))).drop_first() =~= split_lines(
                s.subrange(e + 1, n),
            ));
            assert(first.len() > 0);
            assert(text_lines(split_lines(tail)) =~= seq![el] + rest);
        }
    }
}

/// Parsing any input none of whose lines opens with a marker succeeds, and
/// yields one `Text` element per non-empty line, each the line trimmed, in
/// order.
pub proof fn lemma_unmarked_lines_parse(s: Seq<char>)
    requires
        no_marked_line(normalize(s)),
    ensures
        spec_parse(s) == Ok::<Seq<ElementModel>, int>(text_lines(split_lines(normalize(s)))),
{
    let t: Seq<char> = normalize(s);
    assert(t.len() > 0 && t[t.len() - 1] == '\n') by {
        if !(s.len() > 0 && s[s.len() - 1] == '\n') {
            assert(t == s + seq!['\n']);
            assert(t[t.len() - 1] == '\n');
        }
    }
    lemma_unmarked_assemble(t, 0);
    assert(t.subrange(0, t.len() as int) =~= t);
}

// ---------------------------------------------------------------------------
// Rendering a document model back to text
// ---------------------------------------------------------------------------

/// `t` holds no newline.
pub open spec fn no_newline(t: Seq<char>) -> bool {
    forall|k: int| 0 <= k < t.len() ==> t[k] != '\n'
}

/// `t` holds no fence token.
pub open spec fn no_fence_inside(t: Seq<char>) -> bool {
    forall|k: int| 0 <= k ==> !fence_at(t, k)
}

/// A field in canonical form: single-line, and already trimmed (no
/// whitespace at either end).
pub open spec fn canonical_field(t: Seq<char>) -> bool {
    no_newline(t) && (t.len() == 0 || (!is_white(t[0]) && !is_white(t[t.len() - 1])))
}

/// An element the grammar itself could have produced, in canonical textual
/// form: fields trimmed and single-line, a non-blank url without embedded
/// ASCII whitespace, a non-blank caption, text that no marker rule would
/// claim, and preformatted lines free of fence tokens.
pub open spec fn canonical_elem(e: ElementModel) -> bool {
    match e {
        ElementModel::Text(t) => canonical_field(t) && t.len() > 0 && t[0] != '#' && t[0] != '*'
            && t[0] != '>' && !(t.len() >= 2 && t[0] == '=' && t[1] == '>') && !(t.len() >= 3
            && t[0] == '`' && t[1] == '`' && t[2] == '`'),
        ElementModel::Link { url, text } => url.len() > 0 && !is_white(url[0]) && !is_white(
            url[url.len() - 1],
        ) && (forall|k: int| 0 <= k < url.len() ==> !is_ascii_white(url[k])) && (match text {
            Some(t) => canonical_field(t),
            None => true,
        }),
        ElementModel::Preformatted { caption, lines } => (match caption {
            Some(c) => canonical_field(c) && c.len() > 0,
            None => true,
        }) && (forall|k: int|
            0 <= k < lines.len() ==> no_newline(lines[k]) && no_fence_inside(lines[k])),
        ElementModel::Heading { level, text } => level >= 1 && canonical_field(text),
        ElementModel::UnorderedListItem(t) => canonical_field(t),
        ElementModel::Quote(t) => canonical_field(t),
    }
}

/// A document the grammar could have produced, in canonical form.
pub open spec fn canonical_doc(d: Seq<ElementModel>) -> bool {
    forall|k: int| 0 <= k < d.len() ==> canonical_elem(d[k])
}

/// A run of heading markers.
pub open spec fn hash_run(n: int) -> Seq<char> {
    Seq::new(n as nat, |k: int| '#')
}

/// A preformatted block's lines as content text, each line terminated by a
/// newline.
pub open spec fn render_lines(lines: Seq<Seq<char>>) -> Seq<char>
    decreases lines.len(),
{
    if lines.len() == 0 {
        Seq::empty()
    } else {
        lines[0] + seq!['\n'] + render_lines(lines.drop_first())
    }
}

/// One element in its documented textual form, newline-terminated.
pub open spec fn render_elem(e: ElementModel) -> Seq<char> {
    match e {
        ElementModel::Text(t) => t + seq!['\n'],
        ElementModel::Link { url, text: Some(t) } => seq!['=', '>', ' '] + url + seq![' '] + t
            + seq!['\n'],
        ElementModel::Link { url, text: None } => seq!['=', '>', ' '] + url + seq!['\n'],
        ElementModel::Preformatted { caption: Some(c), lines } => seq!['`', '`', '`', ' '] + c
            + seq!['\n'] + render_lines(lines) + seq!['`', '`', '`', '\n'],
        ElementModel::Preformatted { caption: None, lines } => seq!['`', '`', '`', '\n']
            + render_lines(lines) + seq!['`', '`', '`', '\n'],
        ElementModel::Heading { level, text } => hash_run(level as int) + seq![' '] + text
            + seq!['\n'],
        ElementModel::UnorderedListItem(t) => seq!['*', ' '] + t + seq!['\n'],
        ElementModel::Quote(t) => seq!['>', ' '] + t + seq!['\n'],
    }
}

/// A document in its documented textual form: its elements, one after the
/// other.
pub open spec fn render_doc(d: Seq<ElementModel>) -> Seq<char>
    decreases d.len(),
{
    if d.len() == 0 {
        Seq::empty()
    } else {
        render_elem(d[0]) + render_doc(d.drop_first())
    }
}

// ---------------------------------------------------------------------------
// Small helpers for the round trip
// ---------------------------------------------------------------------------

/// A canonical field is already trimmed.
proof fn lemma_canonical_trim(t: Seq<char>)
    requires
        canonical_field(t),
    ensures
        trimmed(t) == t,
{
    lemma_trimmed_at(t, 0, t.len() as int);
    assert(t.subrange(0, t.len() as int) =~= t);
}

/// Trimming a canonical field with one space in front gives the field back.
proof fn lemma_space_prefix_trim(t: Seq<char>)
    requires
        canonical_field(t),
    ensures
        trimmed(seq![' '] + t) == t,
{
    let q: Seq<char> = seq![' '] + t;
    lemma_trimmed_at(q, 1, 1 + t.len() as int);
    assert(q.subrange(1, 1 + t.len() as int) =~= t);
}

/// `find_fence` skips any fence-free prefix.
proof fn lemma_find_fence_skip(s: Seq<char>, c: int, m: int)
    requires
        c <= m,
        forall|k: int| c <= k < m ==> !fence_at(s, k),
    ensures
        find_fence(s, c) == find_fence(s, m),
    decreases m - c,
{
    if c < m {
        if c + 3 > s.len() {
            assert(m + 3 > s.len());
        } else {
            lemma_find_fence_skip(s, c + 1, m);
        }
    }
}

/// Scanning rendered preformatted content: the first fence token at or
/// after the content is the closing fence right after it, and splitting the
/// content gives the lines back.
proof fn lemma_content_scan(s: Seq<char>, c: int, lines: Seq<Seq<char>>)
    requires
        0 <= c,
        c + render_lines(lines).len() + 3 <= s.len(),
        s.subrange(c, c + render_lines(lines).len() as int) == render_lines(lines),
        fence_at(s, c + render_lines(lines).len()),
        forall|k: int| 0 <= k < lines.len() ==> no_newline(lines[k]) && no_fence_inside(lines[k]),
    ensures
        find_fence(s, c) == Some(c + render_lines(lines).len() as int),
        split_lines(s.subrange(c, c + render_lines(lines).len() as int)) == lines,
    decreases lines.len(),
{
    let rl: Seq<char> = render_lines(lines);
    let close: int = c + rl.len() as int;
    assert forall|m: int| 0 <= m < rl.len() implies s[c + m] == rl[m] by {
        assert(rl[m] == s.subrange(c, close)[m]);
    }
    if lines.len() == 0 {
        lemma_find_fence_at(s, c, c);
        assert(s.subrange(c, close).len() == 0);
        assert(split_lines(s.subrange(c, close)) =~= lines);
    } else {
        let line0: Seq<char> = lines[0];
        let l0: int = line0.len() as int;
        let rest: Seq<Seq<char>> = lines.drop_first();
        assert(rl == line0 + seq!['\n'] + render_lines(rest));
        assert forall|m: int| 0 <= m < l0 implies s[c + m] == line0[m] by {
            assert(rl[m] == (line0 + seq!['\n'])[m]);
        }
        assert(rl[l0] == (line0 + seq!['\n'])[l0]);
        assert(s[c + l0] == '\n');
        // no fence token starts inside the first line or at its newline
        assert forall|k: int| c <= k < c + l0 + 1 implies !fence_at(s, k) by {
            if fence_at(s, k) {
                if k + 3 <= c + l0 {
                    assert(fence_at(line0, k - c)) by {
                        assert(line0[k - c] == s[k] && line0[k - c + 1] == s[k + 1] && line0[k - c
                            + 2] == s[k + 2]);
                    }
                    assert(!fence_at(line0, k - c));
                } else {
                    // the token would cover the newline
                    assert(k <= c + l0 < k + 3);
                    assert(s[c + l0] == '`');
                }
            }
        }
        lemma_find_fence_skip(s, c, c + l0 + 1);
        assert forall|m: int| 0 <= m < render_lines(rest).len() implies s[c + l0 + 1 + m]
            == render_lines(rest)[m] by {
            assert(rl[l0 + 1 + m] == render_lines(rest)[m]);
            assert(s[c + (l0 + 1 + m)] == rl[l0 + 1 + m]);
        }
        assert(s.subrange(c + l0 + 1, c + l0 + 1 + render_lines(rest).len() as int)
            =~= render_lines(rest));
        assert(fence_at(s, c + l0 + 1 + render_lines(rest).len()));
        lemma_content_scan(s, c + l0 + 1, rest);
        // splitting the content
        let content: Seq<char> = s.subrange(c, close);
        assert(content.len() > 0);
        assert forall|m: int| 0 <= m < l0 implies content[m] != '\n' by {
            assert(content[m] == s[c + m]);
        }
        assert(content[l0] == s[c + l0]);
        lemma_line_end_at(content, 0, l0);
        lemma_split_lines_step(content);
        assert(content.subrange(0, l0) =~= line0);
        assert(content.subrange(l0 + 1, content.len() as int) =~= s.subrange(c + l0 + 1, close));
        assert(split_lines(content) == seq![line0] + split_lines(s.subrange(c + l0 + 1, close)));
        assert(seq![line0] + rest =~= lines);
    }
}

/// One character of a region known to equal `r`.
proof fn lemma_char_at(s: Seq<char>, i: int, r: Seq<char>, m: int)
    requires
        0 <= i,
        i + r.len() <= s.len(),
        s.subrange(i, i + r.len() as int) == r,
        0 <= m < r.len(),
    ensures
        s[i + m] == r[m],
{
    assert(r[m] == s.subrange(i, i + r.len() as int)[m]);
}

/// A canonically rendered text line is recognized as exactly that element.
proof fn lemma_render_text(s: Seq<char>, i: int, t: Seq<char>)
    requires
        canonical_elem(ElementModel::Text(t)),
        0 <= i,
        i + t.len() + 1 <= s.len(),
        s.subrange(i, i + t.len() + 1) == t + seq!['\n'],
    ensures
        recognize(s, i) == Some((ElementModel::Text(t), i + t.len() as int)),
{
    let r: Seq<char> = t + seq!['\n'];
    let tl: int = t.len() as int;
    assert forall|k: int| i <= k < i + tl implies s[k] != '\n' by {
        lemma_char_at(s, i, r, k - i);
        assert(r[k - i] == t[k - i]);
    }
    lemma_char_at(s, i, r, tl);
    assert(r[tl] == '\n');
    lemma_line_end_at(s, i, i + tl);
    lemma_char_at(s, i, r, 0);
    assert(s[i] == t[0]);
    assert(!fence_at(s, i)) by {
        if fence_at(s, i) {
            if tl >= 3 {
                lemma_char_at(s, i, r, 1);
                lemma_char_at(s, i, r, 2);
                assert(t[0] == s[i] && t[1] == s[i + 1] && t[2] == s[i + 2]);
            } else {
                assert(i <= i + tl < i + 3);
                assert(s[i + tl] == '\n');
            }
        }
    }
    assert(rec_preformatted(s, i) is None);
    assert(rec_link_with_text(s, i) is None && rec_link_without_text(s, i) is None) by {
        if i + 2 <= s.len() && s[i] == '=' && s[i + 1] == '>' {
            if tl >= 2 {
                lemma_char_at(s, i, r, 1);
                assert(t[1] == s[i + 1]);
            } else {
                assert(s[i + 1] == '\n');
            }
        }
    }
    assert(rec_heading(s, i) is None);
    assert(rec_unordered_list_item(s, i) is None);
    assert(rec_quote(s, i) is None);
    assert(s.subrange(i, i + tl) =~= t);
    lemma_canonical_trim(t);
    assert(rec_text(s, i) == Some((ElementModel::Text(t), i + tl)));
}

/// A canonically rendered marker line (a quote or a list item) has its body
/// after the marker and the space, up to its newline; shared ground work for
/// the two lemmas below.
proof fn lemma_render_marked_line(s: Seq<char>, i: int, mark: char, t: Seq<char>)
    requires
        canonical_field(t),
        mark != '\n',
        0 <= i,
        i + t.len() + 3 <= s.len(),
        s.subrange(i, i + t.len() + 3) == seq![mark, ' '] + t + seq!['\n'],
    ensures
        s[i] == mark,
        s[i + 1] == ' ',
        line_end(s, i + 1) == i + 2 + t.len(),
        trimmed(s.subrange(i + 1, i + 2 + t.len() as int)) == t,
{
    let r: Seq<char> = seq![mark, ' '] + t + seq!['\n'];
    let tl: int = t.len() as int;
    lemma_char_at(s, i, r, 0);
    lemma_char_at(s, i, r, 1);
    assert(r[0] == mark && r[1] == ' ');
    assert forall|k: int| i + 1 <= k < i + 2 + tl implies s[k] != '\n' by {
        lemma_char_at(s, i, r, k - i);
        if k - i >= 2 {
            assert(r[k - i] == (seq![mark, ' '] + t)[k - i]);
            assert(r[k - i] == t[k - i - 2]);
        }
    }
    lemma_char_at(s, i, r, 2 + tl);
    assert(r[2 + tl] == '\n');
    lemma_line_end_at(s, i + 1, i + 2 + tl);
    assert forall|m: int| 0 <= m < 1 + tl implies s.subrange(i + 1, i + 2 + tl)[m] == (seq![' ']
        + t)[m] by {
        lemma_char_at(s, i, r, 1 + m);
        if m >= 1 {
            assert(r[1 + m] == (seq![mark, ' '] + t)[1 + m]);
            assert(r[1 + m] == t[m - 1]);
        }
    }
    assert(s.subrange(i + 1, i + 2 + tl) =~= seq![' '] + t);
    lemma_space_prefix_trim(t);
}

/// A canonically rendered quote line is recognized as exactly that element.
proof fn lemma_render_quote(s: Seq<char>, i: int, t: Seq<char>)
    requires
        canonical_elem(ElementModel::Quote(t)),
        0 <= i,
        i + t.len() + 3 <= s.len(),
        s.subrange(i, i + t.len() + 3) == seq!['>', ' '] + t + seq!['\n'],
    ensures
        recognize(s, i) == Some((ElementModel::Quote(t), i + 2 + t.len() as int)),
{
    lemma_render_marked_line(s, i, '>', t);
    assert(rec_quote(s, i) == Some((ElementModel::Quote(t), i + 2 + t.len() as int)));
    assert(!fence_at(s, i));
    assert(rec_preformatted(s, i) is None);
    assert(rec_link_with_text(s, i) is None && rec_link_without_text(s, i) is None);
    assert(rec_heading(s, i) is None);
    assert(rec_unordered_list_item(s, i) is None);
}

/// A canonically rendered list item line is recognized as exactly that
/// element.
proof fn lemma_render_item(s: Seq<char>, i: int, t: Seq<char>)
    requires
        canonical_elem(ElementModel::UnorderedListItem(t)),
        0 <= i,
        i + t.len() + 3 <= s.len(),
        s.subrange(i, i + t.len() + 3) == seq!['*', ' '] + t + seq!['\n'],
    ensures
        recognize(s, i) == Some((ElementModel::UnorderedListItem(t), i + 2 + t.len() as int)),
{
    lemma_render_marked_line(s, i, '*', t);
    assert(rec_unordered_list_item(s, i) == Some(
        (ElementModel::UnorderedListItem(t), i + 2 + t.len() as int),
    ));
    assert(!fence_at(s, i));
    assert(rec_preformatted(s, i) is None);
    assert(rec_link_with_text(s, i) is None && rec_link_without_text(s, i) is None);
    assert(rec_heading(s, i) is None);
}

/// A canonically rendered heading line is recognized as exactly that
/// element.
proof fn lemma_render_heading(s: Seq<char>, i: int, level: u8, t: Seq<char>)
    requires
        canonical_elem(ElementModel::Heading { level, text: t }),
        0 <= i,
        i + level as int + t.len() + 2 <= s.len(),
        s.subrange(i, i + level as int + t.len() + 2) == hash_run(level as int) + seq![' '] + t
            + seq!['\n'],
    ensures
        recognize(s, i) == Some(
            (ElementModel::Heading { level, text: t }, i + level as int + 1 + t.len() as int),
        ),
{
    let lv: int = level as int;
    let tl: int = t.len() as int;
    let r: Seq<char> = hash_run(lv) + seq![' '] + t + seq!['\n'];
    assert(r.len() == lv + tl + 2);
    assert forall|m: int| 0 <= m < lv implies s[i + m] == #[trigger] hash_run(lv)[m] by {
        lemma_char_at(s, i, r, m);
        assert(r[m] == (hash_run(lv) + seq![' '])[m]);
        assert(r[m] == hash_run(lv)[m]);
    }
    lemma_char_at(s, i, r, lv);
    assert(r[lv] == (hash_run(lv) + seq![' '])[lv]);
    assert(s[i + lv] == ' ');
    lemma_char_at(s, i, r, lv + 1 + tl);
    assert(r[lv + 1 + tl] == '\n');
    lemma_marker_run_props(s, i);
    let mr: int = marker_run(s, i);
    assert(mr == i + lv) by {
        if mr < i + lv {
            assert(hash_run(lv)[mr - i] == '#');
            assert(s[i + (mr - i)] == hash_run(lv)[mr - i]);
        }
        if mr > i + lv {
            assert(s[i + lv] == '#');
        }
    }
    assert forall|k: int| i + lv <= k < i + lv + 1 + tl implies s[k] != '\n' by {
        lemma_char_at(s, i, r, k - i);
        if k - i >= lv + 1 {
            assert(r[k - i] == ((hash_run(lv) + seq![' ']) + t)[k - i]);
            assert(r[k - i] == t[k - i - lv - 1]);
        }
    }
    lemma_line_end_at(s, i + lv, i + lv + 1 + tl);
    assert forall|m: int| 0 <= m < 1 + tl implies s.subrange(i + lv, i + lv + 1 + tl)[m] == (
    seq![' '] + t)[m] by {
        lemma_char_at(s, i, r, lv + m);
        if m >= 1 {
            assert(r[lv + m] == ((hash_run(lv) + seq![' ']) + t)[lv + m]);
            assert(r[lv + m] == t[m - 1]);
        }
    }
    assert(s.subrange(i + lv, i + lv + 1 + tl) =~= seq![' '] + t);
    lemma_space_prefix_trim(t);
    assert(hash_run(lv)[0] == '#');
    assert(s[i + 0] == hash_run(lv)[0]);
    assert(rec_heading(s, i) == Some(
        (ElementModel::Heading { level, text: t }, i + lv + 1 + tl),
    ));
    assert(!fence_at(s, i));
    assert(rec_preformatted(s, i) is None);
    assert(rec_link_with_text(s, i) is None && rec_link_without_text(s, i) is None);
}

/// Shared ground work for the two link lemmas: the marker, the single
/// separating space, and the url token are found exactly where rendered.
proof fn lemma_render_link_head(s: Seq<char>, i: int, url: Seq<char>, r: Seq<char>)
    requires
        url.len() > 0,
        !is_white(url[0]),
        !is_white(url[url.len() - 1]),
        forall|k: int| 0 <= k < url.len() ==> !is_ascii_white(url[k]),
        0 <= i,
        i + r.len() <= s.len(),
        s.subrange(i, i + r.len() as int) == r,
        r.len() >= 3 + url.len() as int + 1,
        forall|m: int| 0 <= m < 3 + url.len() as int ==> r[m] == (seq!['=', '>', ' '] + url)[m],
        is_ascii_white(r[3 + url.len() as int]),
    ensures
        s[i] == '=',
        s[i + 1] == '>',
        space_run(s, i + 2) == i + 3,
        token_end(s, i + 3) == i + 3 + url.len() as int,
        trimmed(s.subrange(i + 3, i + 3 + url.len() as int)) == url,
        forall|k: int| i + 3 <= k < i + 3 + url.len() as int ==> s[k] != '\n',
{
    let ul: int = url.len() as int;
    lemma_char_at(s, i, r, 0);
    lemma_char_at(s, i, r, 1);
    lemma_char_at(s, i, r, 2);
    assert(r[0] == '=' && r[1] == '>' && r[2] == ' ');
    assert forall|m: int| 0 <= m < ul implies s[i + 3 + m] == url[m] by {
        lemma_char_at(s, i, r, 3 + m);
        assert(r[3 + m] == (seq!['=', '>', ' '] + url)[3 + m]);
    }
    lemma_char_at(s, i, r, 3 + ul);
    // the space run after the marker is the one rendered space
    lemma_space_run_props(s, i + 2);
    let j: int = space_run(s, i + 2);
    assert(j == i + 3) by {
        assert(is_space(s[i + 2]));
        assert(s[i + 3 + 0] == url[0]);
        assert(!is_space(s[i + 3]));
        if j > i + 3 {
            assert(is_space(s[i + 3]));
        }
    }
    // the url token ends exactly at the rendered separator
    lemma_token_end_props(s, i + 3);
    let u: int = token_end(s, i + 3);
    assert(u == i + 3 + ul) by {
        if u < i + 3 + ul {
            assert(s[i + 3 + (u - i - 3)] == url[u - i - 3]);
            assert(!is_ascii_white(s[u]));
        }
        if u > i + 3 + ul {
            assert(is_ascii_white(s[i + 3 + ul]));
        }
    }
    assert forall|k: int| i + 3 <= k < i + 3 + ul implies s[k] != '\n' by {
        assert(s[i + 3 + (k - i - 3)] == url[k - i - 3]);
        assert(!is_ascii_white(url[k - i - 3]));
    }
    assert forall|m: int| 0 <= m < ul implies s.subrange(i + 3, i + 3 + ul)[m] == url[m] by {
        assert(s[i + 3 + m] == url[m]);
    }
    assert(s.subrange(i + 3, i + 3 + ul) =~= url);
    lemma_trimmed_at(url, 0, ul);
    assert(url.subrange(0, ul) =~= url);
}

/// A canonically rendered link without a text token is recognized as
/// exactly that element.
proof fn lemma_render_link_plain(s: Seq<char>, i: int, url: Seq<char>)
    requires
        canonical_elem(ElementModel::Link { url, text: None }),
        0 <= i,
        i + url.len() + 4 <= s.len(),
        s.subrange(i, i + url.len() + 4) == seq!['=', '>', ' '] + url + seq!['\n'],
    ensures
        recognize(s, i) == Some(
            (ElementModel::Link { url, text: None }, i + 3 + url.len() as int),
        ),
{
    let r: Seq<char> = seq!['=', '>', ' '] + url + seq!['\n'];
    let ul: int = url.len() as int;
    assert forall|m: int| 0 <= m < 3 + ul implies r[m] == (seq!['=', '>', ' '] + url)[m] by {}
    assert(r[3 + ul] == '\n');
    lemma_render_link_head(s, i, url, r);
    let u: int = i + 3 + ul;
    lemma_char_at(s, i, r, 3 + ul);
    assert(s[u] == '\n');
    // the with-text form fails: no horizontal space follows the url token
    assert(rec_link_with_text(s, i) is None);
    // the without-text form takes the whole remainder as the url
    lemma_line_end_at(s, i + 3, u);
    assert(rec_link_without_text(s, i) == Some(
        (ElementModel::Link { url, text: None }, u),
    ));
    assert(!fence_at(s, i));
    assert(rec_preformatted(s, i) is None);
}

/// A canonically rendered link with a text token is recognized as exactly
/// that element.
proof fn lemma_render_link_texted(s: Seq<char>, i: int, url: Seq<char>, t: Seq<char>)
    requires
        canonical_elem(ElementModel::Link { url, text: Some(t) }),
        0 <= i,
        i + url.len() + t.len() + 5 <= s.len(),
        s.subrange(i, i + url.len() + t.len() + 5) == seq!['=', '>', ' '] + url + seq![' '] + t
            + seq!['\n'],
    ensures
        recognize(s, i) == Some(
            (
                ElementModel::Link { url, text: Some(t) },
                i + 4 + url.len() as int + t.len() as int,
            ),
        ),
{
    let r: Seq<char> = seq!['=', '>', ' '] + url + seq![' '] + t + seq!['\n'];
    let ul: int = url.len() as int;
    let tl: int = t.len() as int;
    assert forall|m: int| 0 <= m < 3 + ul implies r[m] == (seq!['=', '>', ' '] + url)[m] by {
        assert(r[m] == ((seq!['=', '>', ' '] + url) + seq![' '])[m]);
    }
    assert(r[3 + ul] == ((seq!['=', '>', ' '] + url) + seq![' '])[3 + ul]);
    assert(r[3 + ul] == ' ');
    lemma_render_link_head(s, i, url, r);
    let u: int = i + 3 + ul;
    lemma_char_at(s, i, r, 3 + ul);
    assert(s[u] == ' ');
    assert forall|m: int| 0 <= m < tl implies s[u + 1 + m] == t[m] by {
        lemma_char_at(s, i, r, 4 + ul + m);
        assert(r[4 + ul + m] == (((seq!['=', '>', ' '] + url) + seq![' ']) + t)[4 + ul + m]);
    }
    lemma_char_at(s, i, r, 4 + ul + tl);
    assert(r[4 + ul + tl] == '\n');
    assert(s[u + 1 + tl] == '\n');
    // the run of space after the url is the one rendered space
    lemma_space_run_props(s, u);
    assert(space_run(s, u) == u + 1) by {
        assert(is_space(s[u]));
        if tl > 0 {
            assert(s[u + 1 + 0] == t[0]);
            assert(!is_space(s[u + 1]));
        } else {
            assert(!is_space(s[u + 1]));
        }
        if space_run(s, u) > u + 1 {
            assert(is_space(s[u + 1]));
        }
    }
    assert forall|k: int| u + 1 <= k < u + 1 + tl implies s[k] != '\n' by {
        assert(s[u + 1 + (k - u - 1)] == t[k - u - 1]);
    }
    lemma_line_end_at(s, u + 1, u + 1 + tl);
    assert forall|m: int| 0 <= m < tl implies s.subrange(u + 1, u + 1 + tl)[m] == t[m] by {
        assert(s[u + 1 + m] == t[m]);
    }
    assert(s.subrange(u + 1, u + 1 + tl) =~= t);
    lemma_canonical_trim(t);
    assert(u < s.len() && is_space(s[u]));
    assert(rec_link_with_text(s, i) == Some(
        (ElementModel::Link { url, text: Some(t) }, u + 1 + tl),
    ));
    assert(!fence_at(s, i));
    assert(rec_preformatted(s, i) is None);
}

/// A canonically rendered preformatted block is recognized as exactly that
/// element.
proof fn lemma_render_pre(s: Seq<char>, i: int, caption: Option<Seq<char>>, lines: Seq<Seq<char>>)
    requires
        canonical_elem(ElementModel::Preformatted { caption, lines }),
        0 <= i,
        i + render_elem(ElementModel::Preformatted { caption, lines }).len() <= s.len(),
        s.subrange(
            i,
            i + render_elem(ElementModel::Preformatted { caption, lines }).len() as int,
        ) == render_elem(ElementModel::Preformatted { caption, lines }),
    ensures
        recognize(s, i) == Some(
            (
                ElementModel::Preformatted { caption, lines },
                i + render_elem(ElementModel::Preformatted { caption, lines }).len() - 1,
            ),
        ),
{
    let r: Seq<char> = render_elem(ElementModel::Preformatted { caption, lines });
    let rl: Seq<char> = render_lines(lines);
    let cap: int = match caption {
        Some(c) => 1 + c.len() as int,
        None => 0,
    };
    let head: Seq<char> = match caption {
        Some(c) => seq!['`', '`', '`', ' '] + c,
        None => seq!['`', '`', '`'],
    };
    assert(r == head + seq!['\n'] + rl + seq!['`', '`', '`', '\n']);
    assert(head.len() == 3 + cap);
    let e0: int = i + 3 + cap;
    let c0: int = e0 + 1;
    let close: int = c0 + rl.len() as int;
    assert(r.len() == 3 + cap + 1 + rl.len() + 4);
    // the opening fence
    lemma_char_at(s, i, r, 0);
    lemma_char_at(s, i, r, 1);
    lemma_char_at(s, i, r, 2);
    assert(r[0] == head[0] && r[1] == head[1] && r[2] == head[2]);
    assert(head[0] == '`' && head[1] == '`' && head[2] == '`') by {
        if caption is Some {
            assert(head[0] == seq!['`', '`', '`', ' '][0]);
            assert(head[1] == seq!['`', '`', '`', ' '][1]);
            assert(head[2] == seq!['`', '`', '`', ' '][2]);
        }
    }
    assert(fence_at(s, i)) by {
        assert(s[i + 0] == '`' && s[i + 1] == '`' && s[i + 2] == '`');
    }
    // the opening line's end
    assert forall|k: int| i + 3 <= k < e0 implies s[k] != '\n' by {
        lemma_char_at(s, i, r, k - i);
        assert(r[k - i] == head[k - i]);
        if k - i >= 4 {
            assert(head[k - i] == caption->0[k - i - 4]);
        }
    }
    lemma_char_at(s, i, r, 3 + cap);
    assert(r[3 + cap] == (head + seq!['\n'])[3 + cap]);
    assert(s[e0] == '\n');
    lemma_line_end_at(s, i + 3, e0);
    assert(e0 < s.len());
    // the caption
    assert forall|m: int| 0 <= m < cap implies #[trigger] s.subrange(i + 3, e0)[m] == head[3
        + m] by {
        lemma_char_at(s, i, r, 3 + m);
        assert(r[3 + m] == head[3 + m]);
    }
    match caption {
        Some(c) => {
            assert forall|m: int| 0 <= m < cap implies s.subrange(i + 3, e0)[m] == (seq![' ']
                + c)[m] by {
                assert(s.subrange(i + 3, e0)[m] == head[3 + m]);
                assert(head[3 + m] == (seq!['`', '`', '`', ' '] + c)[3 + m]);
            }
            assert(s.subrange(i + 3, e0) =~= seq![' '] + c);
            lemma_space_prefix_trim(c);
            assert(pre_caption(s, i) == Some(c));
        },
        None => {
            assert(s.subrange(i + 3, e0).len() == 0);
            lemma_canonical_trim(Seq::<char>::empty());
            assert(s.subrange(i + 3, e0) =~= Seq::<char>::empty());
            assert(pre_caption(s, i) is None);
        },
    }
    // the content and the closing fence
    assert forall|m: int| 0 <= m < rl.len() implies s[c0 + m] == rl[m] by {
        lemma_char_at(s, i, r, 3 + cap + 1 + m);
        assert(r[3 + cap + 1 + m] == ((head + seq!['\n']) + rl)[3 + cap + 1 + m]);
    }
    assert forall|m: int| 0 <= m < rl.len() implies s.subrange(c0, close)[m] == rl[m] by {
        assert(s[c0 + m] == rl[m]);
    }
    assert(s.subrange(c0, close) =~= rl);
    assert forall|m: int| 0 <= m < 4 implies s[close + m] == seq!['`', '`', '`', '\n'][m] by {
        lemma_char_at(s, i, r, 3 + cap + 1 + rl.len() as int + m);
        assert(r[3 + cap + 1 + rl.len() as int + m] == seq!['`', '`', '`', '\n'][m]);
    }
    assert(fence_at(s, close)) by {
        assert(s[close + 0] == '`' && s[close + 1] == '`' && s[close + 2] == '`');
    }
    lemma_content_scan(s, c0, lines);
    assert(rec_preformatted(s, i) == Some(
        (ElementModel::Preformatted { caption, lines }, close + 3),
    ));
}

/// A canonically rendered element, standing as a region of a larger input,
/// is recognized as exactly that element, and its last rendered character is
/// the newline the cursor stops at or just before.
proof fn lemma_recognize_render(s: Seq<char>, i: int, e: ElementModel)
    requires
        canonical_elem(e),
        0 <= i,
        i + render_elem(e).len() <= s.len(),
        s.subrange(i, i + render_elem(e).len() as int) == render_elem(e),
    ensures
        render_elem(e).len() >= 1,
        recognize(s, i) == Some((e, i + render_elem(e).len() - 1)),
        s[i + render_elem(e).len() - 1] == '\n',
        s[i] != '\n',
{
    let r: Seq<char> = render_elem(e);
    lemma_char_at(s, i, r, 0);
    match e {
        ElementModel::Text(t) => {
            lemma_render_text(s, i, t);
        },
        ElementModel::Link { url, text: None } => {
            lemma_render_link_plain(s, i, url);
        },
        ElementModel::Link { url, text: Some(t) } => {
            lemma_render_link_texted(s, i, url, t);
        },
        ElementModel::Preformatted { caption, lines } => {
            lemma_render_pre(s, i, caption, lines);
        },
        ElementModel::Heading { level, text } => {
            lemma_render_heading(s, i, level, text);
            assert(r[0] == (hash_run(level as int) + seq![' '])[0]);
            assert(r[0] == hash_run(level as int)[0]);
        },
        ElementModel::UnorderedListItem(t) => {
            lemma_render_item(s, i, t);
        },
        ElementModel::Quote(t) => {
            lemma_render_quote(s, i, t);
        },
    }
    lemma_char_at(s, i, r, r.len() - 1);
    assert(r[r.len() - 1] == '\n') by {
        match e {
            ElementModel::Text(t) => {
                assert(r[r.len() - 1] == seq!['\n'][0]);
            },
            ElementModel::Link { url, text: None } => {
                assert(r[r.len() - 1] == seq!['\n'][0]);
            },
            ElementModel::Link { url, text: Some(t) } => {
                assert(r[r.len() - 1] == seq!['\n'][0]);
            },
            ElementModel::Preformatted { caption, lines } => {
                assert(r[r.len() - 1] == seq!['`', '`', '`', '\n'][3]);
            },
            ElementModel::Heading { level, text } => {
                assert(r[r.len() - 1] == seq!['\n'][0]);
            },
            ElementModel::UnorderedListItem(t) => {
                assert(r[r.len() - 1] == seq!['\n'][0]);
            },
            ElementModel::Quote(t) => {
                assert(r[r.len() - 1] == seq!['\n'][0]);
            },
        }
    }
}

/// A document rendered in canonical form, standing as the whole tail of the
/// input, assembles back to exactly that document.
proof fn lemma_render_doc_parses(s: Seq<char>, i: int, d: Seq<ElementModel>)
    requires
        canonical_doc(d),
        0 <= i <= s.len(),
        s.subrange(i, s.len() as int) == render_doc(d),
    ensures
        assemble(s, i) == Ok::<Seq<ElementModel>, int>(d),
    decreases d.len(),
{
    if d.len() == 0 {
        assert(i == s.len());
        assert(skip_blanks(s, i) == i);
        assert(assemble(s, i) == Ok::<Seq<ElementModel>, int>(Seq::empty()));
        assert(Seq::<ElementModel>::empty() =~= d);
    } else {
        let e0: ElementModel = d[0];
        let r0: Seq<char> = render_elem(e0);
        let lr: int = r0.len() as int;
        assert(canonical_elem(e0));
        assert(render_doc(d) == r0 + render_doc(d.drop_first()));
        assert(i + lr <= s.len());
        assert forall|m: int| 0 <= m < lr implies s.subrange(i, i + lr)[m] == r0[m] by {
            assert(s.subrange(i, s.len() as int)[m] == render_doc(d)[m]);
            assert(render_doc(d)[m] == r0[m]);
        }
        assert(s.subrange(i, i + lr) =~= r0);
        lemma_recognize_render(s, i, e0);
        let k: int = i + lr - 1;
        assert(skip_blanks(s, i) == i);
        assert(s[k] == '\n');
        assert(skip_blanks(s, k) == skip_blanks(s, k + 1));
        assert(assemble(s, k) == assemble(s, k + 1));
        assert forall|m: int| 0 <= m < render_doc(d.drop_first()).len() implies s.subrange(
            i + lr,
            s.len() as int,
        )[m] == render_doc(d.drop_first())[m] by {
            assert(s.subrange(i, s.len() as int)[lr + m] == render_doc(d)[lr + m]);
            assert(render_doc(d)[lr + m] == render_doc(d.drop_first())[m]);
        }
        assert(s.subrange(i + lr, s.len() as int) =~= render_doc(d.drop_first()));
        lemma_render_doc_parses(s, i + lr, d.drop_first());
        assert(assemble(s, i) == Ok::<Seq<ElementModel>, int>(seq![e0] + d.drop_first()));
        assert(seq![e0] + d.drop_first() =~= d);
    }
}

/// Every rendered element ends in a newline.
proof fn lemma_render_elem_last(e: ElementModel)
    ensures
        render_elem(e).len() >= 1,
        render_elem(e)[render_elem(e).len() - 1] == '\n',
{
    let r: Seq<char> = render_elem(e);
    match e {
        ElementModel::Text(t) => {
            assert(r[r.len() - 1] == seq!['\n'][0]);
        },
        ElementModel::Link { url, text: None } => {
            assert(r[r.len() - 1] == seq!['\n'][0]);
        },
        ElementModel::Link { url, text: Some(t) } => {
            assert(r[r.len() - 1] == seq!['\n'][0]);
        },
        ElementModel::Preformatted { caption, lines } => {
            assert(r[r.len() - 1] == seq!['`', '`', '`', '\n'][3]);
        },
        ElementModel::Heading { level, text } => {
            assert(r[r.len() - 1] == seq!['\n'][0]);
        },
        ElementModel::UnorderedListItem(t) => {
            assert(r[r.len() - 1] == seq!['\n'][0]);
        },
        ElementModel::Quote(t) => {
            assert(r[r.len() - 1] == seq!['\n'][0]);
        },
    }
}

/// A rendered non-empty document ends in a newline.
proof fn lemma_render_doc_last(d: Seq<ElementModel>)
    requires
        d.len() > 0,
    ensures
        render_doc(d).len() > 0,
        render_doc(d)[render_doc(d).len() - 1] == '\n',
    decreases d.len(),
{
    lemma_render_elem_last(d[0]);
    if d.len() == 1 {
        assert(render_doc(d.drop_first()).len() == 0);
        assert(render_doc(d)[render_doc(d).len() - 1] == render_elem(d[0])[render_elem(
            d[0],
        ).len() - 1]);
    } else {
        lemma_render_doc_last(d.drop_first());
        assert(render_doc(d)[render_doc(d).len() - 1] == render_doc(d.drop_first())[render_doc(
            d.drop_first(),
        ).len() - 1]);
    }
}

/// The round trip: a document in canonical form, rendered element by
/// element in the documented textual form and parsed again, comes back
/// equal, element for element.
pub proof fn lemma_round_trip(d: Seq<ElementModel>)
    requires
        canonical_doc(d),
    ensures
        spec_parse(render_doc(d)) == Ok::<Seq<ElementModel>, int>(d),
{
    let s: Seq<char> = render_doc(d);
    if d.len() == 0 {
        lemma_parse_empty();
        assert(s =~= Seq::<char>::empty());
        assert(d =~= Seq::<ElementModel>::empty());
    } else {
        lemma_render_doc_last(d);
        assert(normalize(s) == s);
        assert(s.subrange(0, s.len() as int) =~= s);
        lemma_render_doc_parses(s, 0, d);
    }
}

} // verus!
