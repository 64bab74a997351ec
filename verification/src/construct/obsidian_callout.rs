//! Obsidian: callout detection.
//!
//! Callouts are block quotes whose first line holds a `[!type]` marker:
//!
//! ```bnf
//! obsidian_callout_marker ::= '[' '!' type ']' [+-]? [title]?
//! type ::= 1*ascii_alphabetic
//! ```

use vstd::prelude::*;
use crate::util::text::{chars_of, string_of};

verus! {

broadcast use vstd::string::group_string_axioms;

/// Info extracted from a callout marker.
#[derive(Debug, PartialEq, Eq)]
pub struct ObsidianCalloutInfo {
    /// Callout type identifier (such as `note`, `tip`, `warning`).
    pub callout_type: String,
    /// `Some(true)` for `+`, `Some(false)` for `-`, `None` if not foldable.
    pub foldable: Option<bool>,
    /// Title text, if any is left after trimming.
    pub title: Option<String>,
}

/// The `White_Space` property that `char::is_whitespace` tests.
pub open spec fn is_unicode_whitespace(c: char) -> bool {
    ||| ('\u{9}' <= c && c <= '\u{d}')
    ||| c == ' '
    ||| c == '\u{85}'
    ||| c == '\u{a0}'
    ||| c == '\u{1680}'
    ||| ('\u{2000}' <= c && c <= '\u{200a}')
    ||| c == '\u{2028}'
    ||| c == '\u{2029}'
    ||| c == '\u{202f}'
    ||| c == '\u{205f}'
    ||| c == '\u{3000}'
}

/// `char::is_whitespace`.
pub fn is_whitespace(c: char) -> (r: bool)
    ensures
        r == is_unicode_whitespace(c),
{
    ('\u{9}' <= c && c <= '\u{d}') || c == ' ' || c == '\u{85}' || c == '\u{a0}' || c == '\u{1680}'
        || ('\u{2000}' <= c && c <= '\u{200a}') || c == '\u{2028}' || c == '\u{2029}'
        || c == '\u{202f}' || c == '\u{205f}' || c == '\u{3000}'
}

/// Index of the first character at or after `from` that is not whitespace.
pub open spec fn skip_whitespace(s: Seq<char>, from: int) -> int
    decreases s.len() - from,
{
    if 0 <= from < s.len() && is_unicode_whitespace(s[from]) {
        skip_whitespace(s, from + 1)
    } else {
        from
    }
}

/// Index after the last character before `to` that is not whitespace.
pub open spec fn skip_whitespace_back(s: Seq<char>, to: int) -> int
    decreases to,
{
    if 0 < to <= s.len() && is_unicode_whitespace(s[to - 1]) {
        skip_whitespace_back(s, to - 1)
    } else {
        to
    }
}

/// `str::trim_start`.
pub open spec fn trim_start(s: Seq<char>) -> Seq<char> {
    s.subrange(skip_whitespace(s, 0), s.len() as int)
}

/// `str::trim`.
pub open spec fn trim(s: Seq<char>) -> Seq<char> {
    let t = trim_start(s);
    t.subrange(0, skip_whitespace_back(t, t.len() as int))
}

/// Index of the first `\n` at or after `from`, or the length.
pub open spec fn line_end(s: Seq<char>, from: int) -> int
    decreases s.len() - from,
{
    if 0 <= from < s.len() && s[from] != '\n' {
        line_end(s, from + 1)
    } else {
        from
    }
}

/// ASCII letter.
pub open spec fn is_ascii_letter(c: char) -> bool {
    ('a' <= c && c <= 'z') || ('A' <= c && c <= 'Z')
}

/// Index of the first character at or after `from` that is not an ASCII
/// letter.
pub open spec fn letters_end(s: Seq<char>, from: int) -> int
    decreases s.len() - from,
{
    if 0 <= from < s.len() && is_ascii_letter(s[from]) {
        letters_end(s, from + 1)
    } else {
        from
    }
}

/// The callout marker that `line` (after leading whitespace) starts with:
/// `[!type]`, an optional `+` or `-`, and the rest of the first line,
/// trimmed, as the title.
pub open spec fn spec_detect(line: Seq<char>) -> Option<(Seq<char>, Option<bool>, Option<Seq<char>>)> {
    let t = trim_start(line);
    let e = letters_end(t, 2);
    if t.len() < 3 || t[0] != '[' || t[1] != '!' || e == 2 || e >= t.len() || t[e] != ']' {
        None
    } else {
        let after = e + 1;
        let foldable = if after < t.len() && (t[after] == '+' || t[after] == '-') {
            Some(t[after] == '+')
        } else {
            None
        };
        let start = if foldable is Some { after + 1 } else { after };
        let line_rest = t.subrange(start, line_end(t, start));
        let title = if trim(line_rest).len() == 0 { None } else { Some(trim(line_rest)) };
        Some((t.subrange(2, e), foldable, title))
    }
}

proof fn lemma_skip_whitespace(s: Seq<char>, from: int)
    requires
        0 <= from <= s.len(),
    ensures
        from <= skip_whitespace(s, from) <= s.len(),
    decreases s.len() - from,
{
    if from < s.len() && is_unicode_whitespace(s[from]) {
        lemma_skip_whitespace(s, from + 1);
    }
}

proof fn lemma_skip_whitespace_back(s: Seq<char>, to: int)
    requires
        0 <= to <= s.len(),
    ensures
        0 <= skip_whitespace_back(s, to) <= to,
    decreases to,
{
    if to > 0 && is_unicode_whitespace(s[to - 1]) {
        lemma_skip_whitespace_back(s, to - 1);
    }
}

proof fn lemma_line_end(s: Seq<char>, from: int)
    requires
        0 <= from <= s.len(),
    ensures
        from <= line_end(s, from) <= s.len(),
    decreases s.len() - from,
{
    if from < s.len() && s[from] != '\n' {
        lemma_line_end(s, from + 1);
    }
}

proof fn lemma_letters_end(s: Seq<char>, from: int)
    requires
        0 <= from <= s.len(),
    ensures
        from <= letters_end(s, from) <= s.len(),
    decreases s.len() - from,
{
    if from < s.len() && is_ascii_letter(s[from]) {
        lemma_letters_end(s, from + 1);
    }
}

/// Detect a callout marker in the first line of a block quote.
///
/// `first_line` is the text of the block quote after the `>` prefix.
/// Returns the info iff, after leading whitespace, it starts with
/// `[!type]` (one or more ASCII letters).
pub fn detect(first_line: &str) -> (r: Option<ObsidianCalloutInfo>)
    ensures
        match r {
            None => spec_detect(first_line@) is None,
            Some(info) => spec_detect(first_line@) matches Some((t, f, title)) && info.callout_type@ == t
                && info.foldable == f && match info.title {
                None => title is None,
                Some(s) => title == Some(s@),
            },
        },
{
    let line = chars_of(first_line);
    let ghost l = line@;
    let len = line.len();

    // `trim_start`.
    let mut start: usize = 0;
    while start < len && is_whitespace(line[start])
        invariant
            start <= len == l.len(),
            line@ == l,
            skip_whitespace(l, start as int) == skip_whitespace(l, 0),
        decreases len - start,
    {
        start += 1;
    }
    let ghost t = l.subrange(start as int, len as int);
    assert(t == trim_start(l));

    // Must start with `[!`.
    if len - start < 3 || line[start] != '[' || line[start + 1] != '!' {
        return None;
    }

    // Type: ASCII letters up to `]`.
    let mut i: usize = start + 2;
    while i < len && (('a' <= line[i] && line[i] <= 'z') || ('A' <= line[i] && line[i] <= 'Z'))
        invariant
            start + 2 <= i <= len == l.len(),
            line@ == l,
            t == l.subrange(start as int, len as int),
            letters_end(t, (i - start) as int) == letters_end(t, 2),
        decreases len - i,
    {
        i += 1;
    }
    proof {
        lemma_letters_end(t, 2);
    }
    if i == start + 2 || i >= len || line[i] != ']' {
        return None;
    }
    let callout_type = string_of(&line, start + 2, i);
    i += 1;

    // Optional `+` or `-` for foldable.
    let mut foldable = None;
    if i < len && (line[i] == '+' || line[i] == '-') {
        foldable = Some(line[i] == '+');
        i += 1;
    }

    // Title: the rest of the first line, trimmed.
    let mut end = i;
    while end < len && line[end] != '\n'
        invariant
            start < i <= end <= len == l.len(),
            line@ == l,
            t == l.subrange(start as int, len as int),
            line_end(t, (end - start) as int) == line_end(t, (i - start) as int),
        decreases len - end,
    {
        assert(t[(end - start) as int] == l[end as int]);
        end += 1;
    }
    let ghost rest = l.subrange(i as int, end as int);
    proof {
        lemma_line_end(t, (i - start) as int);
        assert(rest =~= t.subrange((i - start) as int, line_end(t, (i - start) as int)));
    }
    let mut title_start = i;
    while title_start < end && is_whitespace(line[title_start])
        invariant
            i <= title_start <= end <= len == l.len(),
            line@ == l,
            rest == l.subrange(i as int, end as int),
            skip_whitespace(rest, (title_start - i) as int) == skip_whitespace(rest, 0),
        decreases end - title_start,
    {
        title_start += 1;
    }
    let ghost trimmed_start = l.subrange(title_start as int, end as int);
    proof {
        lemma_skip_whitespace(rest, 0);
        assert(trimmed_start =~= trim_start(rest));
    }
    let mut title_end = end;
    while title_end > title_start && is_whitespace(line[title_end - 1])
        invariant
            title_start <= title_end <= end <= len == l.len(),
            line@ == l,
            trimmed_start == l.subrange(title_start as int, end as int),
            skip_whitespace_back(trimmed_start, (title_end - title_start) as int)
                == skip_whitespace_back(trimmed_start, trimmed_start.len() as int),
        decreases title_end,
    {
        title_end -= 1;
    }
    proof {
        lemma_skip_whitespace_back(trimmed_start, trimmed_start.len() as int);
        assert(l.subrange(title_start as int, title_end as int) =~= trim(rest));
    }
    let title = if title_end == title_start {
        None
    } else {
        Some(string_of(&line, title_start, title_end))
    };
    Some(ObsidianCalloutInfo { callout_type, foldable, title })
}

/// A line is a callout marker exactly when, after its leading whitespace,
/// it starts with `[!`, one or more ASCII letters of either case, and `]`;
/// the callout type is those letters, unchanged, and the callout is
/// foldable open after a `+`, foldable closed after a `-`, and not foldable
/// otherwise. Here `k` is the number of leading whitespace characters.
pub proof fn lemma_callout_marker(line: Seq<char>, k: int)
    requires
        0 <= k <= line.len(),
        forall|i: int| 0 <= i < k ==> is_unicode_whitespace(#[trigger] line[i]),
        k < line.len() ==> !is_unicode_whitespace(line[k]),
    ensures
        spec_detect(line) is Some <==> exists|e: int| {
            &&& k + 2 < e < line.len()
            &&& line[k] == '[' && line[k + 1] == '!' && #[trigger] line[e] == ']'
            &&& forall|j: int| k + 2 <= j < e ==> ('a' <= #[trigger] line[j] && line[j] <= 'z')
                || ('A' <= line[j] && line[j] <= 'Z')
        },
        forall|e: int| {
            &&& k + 2 < e < line.len()
            &&& line[k] == '[' && line[k + 1] == '!' && #[trigger] line[e] == ']'
            &&& forall|j: int| k + 2 <= j < e ==> ('a' <= #[trigger] line[j] && line[j] <= 'z')
                || ('A' <= line[j] && line[j] <= 'Z')
        } ==> (spec_detect(line) matches Some((ty, foldable, _)) && ty == line.subrange(k + 2, e)
            && foldable == if e + 1 < line.len() && line[e + 1] == '+' {
                Some(true)
            } else if e + 1 < line.len() && line[e + 1] == '-' {
                Some(false)
            } else {
                None::<bool>
            }),
{
    lemma_skip_leading(line, 0, k);
    let t = trim_start(line);
    assert(t =~= line.subrange(k, line.len() as int));
    if t.len() >= 3 {
        lemma_letters_end(t, 2);
        lemma_letters_run(t, 2);
        let le = letters_end(t, 2);
        assert forall|e: int| {
            &&& k + 2 < e < line.len()
            &&& line[k] == '[' && line[k + 1] == '!' && #[trigger] line[e] == ']'
            &&& forall|j: int| k + 2 <= j < e ==> ('a' <= #[trigger] line[j] && line[j] <= 'z')
                || ('A' <= line[j] && line[j] <= 'Z')
        } implies (spec_detect(line) matches Some((ty, foldable, _)) && ty == line.subrange(k + 2, e)
            && foldable == if e + 1 < line.len() && line[e + 1] == '+' {
                Some(true)
            } else if e + 1 < line.len() && line[e + 1] == '-' {
                Some(false)
            } else {
                None::<bool>
            }) by {
            assert(t[0] == line[k] && t[1] == line[k + 1]);
            assert(le == e - k) by {
                if le < e - k {
                    assert(t[le] == line[k + le]);
                    assert(is_ascii_letter(t[le]));
                } else if le > e - k {
                    assert(is_ascii_letter(t[e - k]));
                    assert(t[e - k] == line[e]);
                }
            }
            assert(t[le] == line[e]);
            assert(t.subrange(2, le) =~= line.subrange(k + 2, e));
            if e + 1 < line.len() {
                assert(t[le + 1] == line[e + 1]);
            }
        }
        if spec_detect(line) is Some {
            let e = k + le;
            assert(t[0] == line[k] && t[1] == line[k + 1]);
            assert(t[le] == line[e]);
            assert forall|j: int| k + 2 <= j < e implies ('a' <= #[trigger] line[j] && line[j] <= 'z')
                || ('A' <= line[j] && line[j] <= 'Z') by {
                assert(t[j - k] == line[j]);
                assert(is_ascii_letter(t[j - k]));
            }
        }
    }
}

/// Skipping whitespace from `from` stops at `k` when everything between is
/// whitespace and `k` is not.
proof fn lemma_skip_leading(s: Seq<char>, from: int, k: int)
    requires
        0 <= from <= k <= s.len(),
        forall|i: int| 0 <= i < k ==> is_unicode_whitespace(#[trigger] s[i]),
        k < s.len() ==> !is_unicode_whitespace(s[k]),
    ensures
        skip_whitespace(s, from) == k,
    decreases k - from,
{
    if from < k {
        assert(is_unicode_whitespace(s[from]));
        lemma_skip_leading(s, from + 1, k);
    }
}

/// The characters from `from` up to `letters_end` are ASCII letters, and
/// the one there, if any, is not.
proof fn lemma_letters_run(s: Seq<char>, from: int)
    requires
        0 <= from <= s.len(),
    ensures
        forall|j: int| from <= j < letters_end(s, from) ==> is_ascii_letter(#[trigger] s[j]),
        letters_end(s, from) < s.len() ==> !is_ascii_letter(s[letters_end(s, from)]),
    decreases s.len() - from,
{
    if from < s.len() && is_ascii_letter(s[from]) {
        lemma_letters_run(s, from + 1);
    }
}

} // verus!
