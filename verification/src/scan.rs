//! Verified character scanning over `&str`: line ends, fence search, marker
//! and space runs, trimming, and splitting a region into lines.

use crate::document::lines_view;
use crate::model::fence_at;
use crate::model::find_fence;
use crate::model::is_ascii_white;
use crate::model::is_white;
use crate::model::lemma_line_end_at;
use crate::model::lemma_line_end_props;
use crate::model::lemma_split_lines_step;
use crate::model::lemma_trimmed_at;
use crate::model::line_end;
use crate::model::marker_run;
use crate::model::space_run;
use crate::model::split_lines;
use crate::model::token_end;
use crate::model::trimmed;
use vstd::prelude::*;

verus! {

/// Whether `c` is whitespace, exactly as the model's `is_white` says.
pub(crate) fn white_char(c: char) -> (r: bool)
    ensures
        r == is_white(c),
{
    c == ' ' || c == '\t' || c == '\n' || c == '\u{000B}' || c == '\u{000C}' || c == '\r'
        || c == '\u{0085}' || c == '\u{00A0}' || c == '\u{1680}' || c == '\u{2000}'
        || c == '\u{2001}' || c == '\u{2002}' || c == '\u{2003}' || c == '\u{2004}'
        || c == '\u{2005}' || c == '\u{2006}' || c == '\u{2007}' || c == '\u{2008}'
        || c == '\u{2009}' || c == '\u{200A}' || c == '\u{2028}' || c == '\u{2029}'
        || c == '\u{202F}' || c == '\u{205F}' || c == '\u{3000}'
}

/// Whether `c` is ASCII whitespace, as the model's `is_ascii_white` says.
pub(crate) fn ascii_white_char(c: char) -> (r: bool)
    ensures
        r == is_ascii_white(c),
{
    c == ' ' || c == '\t' || c == '\n' || c == '\u{000C}' || c == '\r'
}

/// The first newline at or after `i`, or the end of the input.
pub(crate) fn line_end_from(s: &str, i: usize) -> (r: usize)
    requires
        i <= s@.len(),
    ensures
        r as int == line_end(s@, i as int),
        i <= r <= s@.len(),
{
    let n: usize = s.unicode_len();
    let mut j: usize = i;
    loop
        invariant
            i <= j <= n,
            n == s@.len(),
            line_end(s@, i as int) == line_end(s@, j as int),
        ensures
            i <= j <= n,
            line_end(s@, i as int) == j as int,
        decreases n - j,
    {
        if j == n {
            break;
        }
        if s.get_char(j) == '\n' {
            break;
        }
        j = j + 1;
    }
    j
}

/// Whether a fence token stands at position `i`.
pub(crate) fn fence_at_pos(s: &str, i: usize) -> (r: bool)
    requires
        i <= s@.len(),
    ensures
        r == fence_at(s@, i as int),
{
    let n: usize = s.unicode_len();
    n - i >= 3 && s.get_char(i) == '`' && s.get_char(i + 1) == '`' && s.get_char(i + 2) == '`'
}

/// The first fence token at or after `i`, if any.
pub(crate) fn find_fence_from(s: &str, i: usize) -> (r: Option<usize>)
    requires
        i <= s@.len(),
    ensures
        r is Some <==> find_fence(s@, i as int) is Some,
        r matches Some(f) ==> find_fence(s@, i as int) == Some(f as int) && i <= f && f + 3
            <= s@.len() && fence_at(s@, f as int),
{
    let n: usize = s.unicode_len();
    let mut j: usize = i;
    loop
        invariant
            i <= j <= n,
            n == s@.len(),
            find_fence(s@, i as int) == find_fence(s@, j as int),
        decreases n - j,
    {
        if n - j < 3 {
            return None;
        }
        if fence_at_pos(s, j) {
            return Some(j);
        }
        j = j + 1;
    }
}

/// The end of the run of spaces and tabs starting at `i`.
pub(crate) fn space_run_from(s: &str, i: usize) -> (r: usize)
    requires
        i <= s@.len(),
    ensures
        r as int == space_run(s@, i as int),
        i <= r <= s@.len(),
{
    let n: usize = s.unicode_len();
    let mut j: usize = i;
    loop
        invariant
            i <= j <= n,
            n == s@.len(),
            space_run(s@, i as int) == space_run(s@, j as int),
        ensures
            i <= j <= n,
            space_run(s@, i as int) == j as int,
        decreases n - j,
    {
        if j == n {
            break;
        }
        let c: char = s.get_char(j);
        if !(c == ' ' || c == '\t') {
            break;
        }
        j = j + 1;
    }
    j
}

/// The end of the url token starting at `i`: the first ASCII whitespace.
pub(crate) fn token_end_from(s: &str, i: usize) -> (r: usize)
    requires
        i <= s@.len(),
    ensures
        r as int == token_end(s@, i as int),
        i <= r <= s@.len(),
{
    let n: usize = s.unicode_len();
    let mut j: usize = i;
    loop
        invariant
            i <= j <= n,
            n == s@.len(),
            token_end(s@, i as int) == token_end(s@, j as int),
        ensures
            i <= j <= n,
            token_end(s@, i as int) == j as int,
        decreases n - j,
    {
        if j == n {
            break;
        }
        if ascii_white_char(s.get_char(j)) {
            break;
        }
        j = j + 1;
    }
    j
}

/// The end of the run of heading markers starting at `i`.
pub(crate) fn marker_run_from(s: &str, i: usize) -> (r: usize)
    requires
        i <= s@.len(),
    ensures
        r as int == marker_run(s@, i as int),
        i <= r <= s@.len(),
{
    let n: usize = s.unicode_len();
    let mut j: usize = i;
    loop
        invariant
            i <= j <= n,
            n == s@.len(),
            marker_run(s@, i as int) == marker_run(s@, j as int),
        ensures
            i <= j <= n,
            marker_run(s@, i as int) == j as int,
        decreases n - j,
    {
        if j == n {
            break;
        }
        if s.get_char(j) != '#' {
            break;
        }
        j = j + 1;
    }
    j
}

/// The region `[from, to)` of `s`, trimmed of surrounding whitespace, as an
/// owned string.
pub(crate) fn trim_region(s: &str, from: usize, to: usize) -> (r: String)
    requires
        from <= to <= s@.len(),
    ensures
        r@ == trimmed(s@.subrange(from as int, to as int)),
{
    let mut a: usize = from;
    loop
        invariant
            from <= a <= to,
            to <= s@.len(),
            forall|k: int| from <= k < a ==> is_white(s@[k]),
        ensures
            from <= a <= to,
            forall|k: int| from <= k < a ==> is_white(s@[k]),
            a == to || !is_white(s@[a as int]),
        decreases to - a,
    {
        if a == to {
            break;
        }
        if !white_char(s.get_char(a)) {
            break;
        }
        a = a + 1;
    }
    let mut b: usize = to;
    loop
        invariant
            a <= b <= to,
            to <= s@.len(),
            forall|k: int| b <= k < to ==> is_white(s@[k]),
        ensures
            a <= b <= to,
            forall|k: int| b <= k < to ==> is_white(s@[k]),
            b == a || !is_white(s@[b - 1]),
        decreases b,
    {
        if b == a {
            break;
        }
        if !white_char(s.get_char(b - 1)) {
            break;
        }
        b = b - 1;
    }
    proof {
        let q: Seq<char> = s@.subrange(from as int, to as int);
        assert forall|k: int| 0 <= k < a - from implies is_white(q[k]) by {
            assert(q[k] == s@[from + k]);
        }
        assert forall|k: int| b - from <= k < q.len() implies is_white(q[k]) by {
            assert(q[k] == s@[from + k]);
        }
        if a < b {
            assert(q[a - from] == s@[a as int]);
            assert(q[b - from - 1] == s@[b - 1]);
        }
        lemma_trimmed_at(q, a - from, b - from);
        assert(q.subrange(a - from, b - from) =~= s@.subrange(a as int, b as int));
    }
    let piece: &str = s.substring_char(a, b);
    piece.to_owned()
}

/// The lines of the region `[c, f)`, split as the model's `split_lines`
/// splits a preformatted block's content.
pub(crate) fn split_region(s: &str, c: usize, f: usize) -> (r: Vec<String>)
    requires
        c <= f <= s@.len(),
    ensures
        lines_view(r@) == split_lines(s@.subrange(c as int, f as int)),
{
    let ghost content: Seq<char> = s@.subrange(c as int, f as int);
    let mut out: Vec<String> = Vec::new();
    let mut p: usize = c;
    proof {
        assert(lines_view(out@) + split_lines(content) =~= split_lines(content));
    }
    loop
        invariant
            c <= p <= f,
            f <= s@.len(),
            content == s@.subrange(c as int, f as int),
            lines_view(out@) + split_lines(s@.subrange(p as int, f as int)) == split_lines(
                content,
            ),
        ensures
            lines_view(out@) == split_lines(content),
        decreases f - p,
    {
        if p == f {
            proof {
                assert(s@.subrange(p as int, f as int).len() == 0);
                assert(lines_view(out@) + split_lines(s@.subrange(p as int, f as int))
                    =~= lines_view(out@));
            }
            break;
        }
        let e: usize = line_end_from(s, p);
        let seg_end: usize = if e > f {
            f
        } else {
            e
        };
        let piece: String = s.substring_char(p, seg_end).to_owned();
        proof {
            lemma_line_end_props(s@, p as int);
            let cur: Seq<char> = s@.subrange(p as int, f as int);
            assert forall|k: int| 0 <= k < seg_end - p implies cur[k] != '\n' by {
                assert(cur[k] == s@[p + k]);
            }
            if (seg_end as int) < f {
                assert(cur[seg_end - p] == s@[seg_end as int]);
            }
            lemma_line_end_at(cur, 0, seg_end - p);
            lemma_split_lines_step(cur);
            assert(piece@ =~= cur.subrange(0, seg_end - p));
            if (seg_end as int) < f {
                assert(cur.subrange(seg_end - p + 1, cur.len() as int) =~= s@.subrange(
                    seg_end + 1,
                    f as int,
                ));
            }
        }
        let ghost old_out: Seq<String> = out@;
        out.push(piece);
        proof {
            assert(lines_view(out@) =~= lines_view(old_out) + seq![piece@]);
        }
        if seg_end == f {
            p = f;
            proof {
                assert(s@.subrange(p as int, f as int).len() == 0);
                assert(split_lines(s@.subrange(p as int, f as int))
                    =~= Seq::<Seq<char>>::empty());
                assert(lines_view(out@) + split_lines(s@.subrange(p as int, f as int))
                    =~= split_lines(content));
            }
        } else {
            p = seg_end + 1;
            proof {
                assert(lines_view(out@) + split_lines(s@.subrange(p as int, f as int))
                    =~= split_lines(content));
            }
        }
    }
    out
}

} // verus!
