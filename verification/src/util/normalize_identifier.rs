//! Normalize identifiers, as found in references and definitions.

use vstd::prelude::*;
use crate::util::text::push_char;

verus! {

broadcast use vstd::string::group_string_axioms;

/// The lowercase mapping of a character, as `char::to_lowercase` gives it.
pub uninterp spec fn lowercase_mapping(c: char) -> Seq<char>;

/// The uppercase mapping of a character, as `char::to_uppercase` gives it.
pub uninterp spec fn uppercase_mapping(c: char) -> Seq<char>;

/// `char::to_lowercase`: the characters of the lowercase mapping of `c`,
/// of which std documents that there is at least one.
#[verifier::external_body]
fn to_lowercase(c: char) -> (r: Vec<char>)
    ensures
        r@ == lowercase_mapping(c),
        r@.len() >= 1,
{
    c.to_lowercase().collect()
}

/// `char::to_uppercase`: the characters of the uppercase mapping of `c`,
/// of which std documents that there is at least one.
#[verifier::external_body]
fn to_uppercase(c: char) -> (r: Vec<char>)
    ensures
        r@ == uppercase_mapping(c),
        r@.len() >= 1,
{
    c.to_uppercase().collect()
}

/// ASCII markdown whitespace: tab, line feed, carriage return, space.
pub open spec fn is_markdown_whitespace(c: char) -> bool {
    c == '\t' || c == '\n' || c == '\r' || c == ' '
}

/// The uppercase mappings of the characters of `lower`, concatenated.
pub open spec fn uppercase_all(lower: Seq<char>) -> Seq<char>
    decreases lower.len(),
{
    if lower.len() == 0 {
        Seq::empty()
    } else {
        uppercase_all(lower.drop_last()) + uppercase_mapping(lower.last())
    }
}

/// Case folding of one character: lowercased, then uppercased.
pub open spec fn fold_case(c: char) -> Seq<char> {
    uppercase_all(lowercase_mapping(c))
}

/// Normalized text of `value` and whether a space is pending (whitespace
/// was seen after some output).
pub open spec fn normalize_state(value: Seq<char>) -> (Seq<char>, bool)
    decreases value.len(),
{
    if value.len() == 0 {
        (Seq::empty(), false)
    } else {
        let (result, pending) = normalize_state(value.drop_last());
        let c = value.last();
        if is_markdown_whitespace(c) {
            (result, pending || result.len() > 0)
        } else if pending {
            (result.push(' ') + fold_case(c), false)
        } else {
            (result + fold_case(c), false)
        }
    }
}

/// The normalized identifier: whitespace runs collapsed to one space,
/// leading and trailing whitespace dropped, every other character case
/// folded.
pub open spec fn spec_normalize_identifier(value: Seq<char>) -> Seq<char> {
    normalize_state(value).0
}

/// Normalize an identifier, as found in references and definitions.
///
/// ASCII markdown whitespace is collapsed and trimmed. Each non-whitespace
/// scalar is lowercased and then uppercased.
pub fn normalize_identifier(value: &str) -> (r: String)
    ensures
        r@ == spec_normalize_identifier(value@),
{
    let mut result = String::new();
    normalize_identifier_into(value, &mut result);
    result
}

/// Normalize into reusable storage.
pub fn normalize_identifier_into(value: &str, result: &mut String)
    ensures
        final(result)@ == spec_normalize_identifier(value@),
{
    *result = String::new();
    let mut pending_whitespace = false;

    for character in iter: value.chars()
        invariant
            iter.seq() == value@,
            (result@, pending_whitespace) == normalize_state(value@.take(iter.index() as int)),
    {
        proof {
            assert(value@.take(iter.index() + 1).drop_last() =~= value@.take(iter.index() as int));
        }
        if character == '\t' || character == '\n' || character == '\r' || character == ' ' {
            if result.as_str().is_empty() == false {
                pending_whitespace = true;
            }
        } else {
            if pending_whitespace {
                push_char(result, ' ');
                pending_whitespace = false;
            }
            let lower = to_lowercase(character);
            let mut i: usize = 0;
            let ghost start = result@;
            while i < lower.len()
                invariant
                    i <= lower@.len(),
                    result@ == start + uppercase_all(lower@.take(i as int)),
                decreases lower.len() - i,
            {
                proof {
                    assert(lower@.take(i + 1).drop_last() =~= lower@.take(i as int));
                }
                let upper = to_uppercase(lower[i]);
                let mut j: usize = 0;
                let ghost middle = result@;
                while j < upper.len()
                    invariant
                        j <= upper@.len(),
                        result@ == middle + upper@.take(j as int),
                    decreases upper.len() - j,
                {
                    push_char(result, upper[j]);
                    proof {
                        assert(upper@.take(j + 1) =~= upper@.take(j as int).push(upper@[j as int]));
                    }
                    j += 1;
                }
                proof {
                    assert(upper@.take(j as int) =~= upper@);
                    assert(result@ =~= start + uppercase_all(lower@.take(i + 1)));
                }
                i += 1;
            }
            proof {
                assert(lower@.take(i as int) =~= lower@);
            }
        }
    }
    proof {
        assert(value@.take(value@.len() as int) =~= value@);
    }
}

/// Whether `s` holds no tab or line ending, does not start or end with a
/// space, and holds no two spaces in a row.
pub open spec fn collapsed(s: Seq<char>) -> bool {
    &&& forall|i: int| 0 <= i < s.len() ==> (#[trigger] s[i]) != '\t' && s[i] != '\n' && s[i] != '\r'
    &&& s.len() > 0 ==> s[0] != ' ' && s.last() != ' '
    &&& forall|i: int| 0 <= i < s.len() - 1 ==> !((#[trigger] s[i]) == ' ' && s[i + 1] == ' ')
}

/// Whether `c` case-folds to at least one character and to no whitespace.
pub open spec fn folds_to_text(c: char) -> bool {
    &&& fold_case(c).len() > 0
    &&& forall|j: int| 0 <= j < fold_case(c).len() ==> !is_markdown_whitespace(#[trigger] fold_case(c)[j])
}

proof fn lemma_normalize_state_collapsed(value: Seq<char>)
    requires
        forall|i: int| 0 <= i < value.len() && !is_markdown_whitespace(#[trigger] value[i]) ==> folds_to_text(value[i]),
    ensures
        collapsed(normalize_state(value).0),
        normalize_state(value).1 ==> normalize_state(value).0.len() > 0,
    decreases value.len(),
{
    if value.len() > 0 {
        let prefix = value.drop_last();
        assert forall|i: int| 0 <= i < prefix.len() && !is_markdown_whitespace(#[trigger] prefix[i]) implies folds_to_text(prefix[i]) by {
            assert(prefix[i] == value[i]);
        }
        lemma_normalize_state_collapsed(prefix);
        let (result, pending) = normalize_state(prefix);
        let c = value.last();
        assert(c == value[value.len() - 1]);
        if !is_markdown_whitespace(c) {
            let f = fold_case(c);
            assert(folds_to_text(c));
            let head = if pending { result.push(' ') } else { result };
            let out = head + f;
            assert(out == normalize_state(value).0);
            assert forall|i: int| 0 <= i < out.len() implies (#[trigger] out[i]) != '\t' && out[i] != '\n' && out[i] != '\r' by {
                if i < result.len() {
                    assert(out[i] == result[i]);
                } else if i >= head.len() {
                    assert(out[i] == f[i - head.len()]);
                    assert(!is_markdown_whitespace(f[i - head.len()]));
                }
            }
            assert(out.last() == f[f.len() - 1]);
            assert(!is_markdown_whitespace(f[f.len() - 1]));
            if result.len() > 0 {
                assert(out[0] == result[0]);
            } else {
                assert(out[0] == f[0]);
                assert(!is_markdown_whitespace(f[0]));
            }
            assert forall|i: int| 0 <= i < out.len() - 1 implies !((#[trigger] out[i]) == ' ' && out[i + 1] == ' ') by {
                if i + 1 < result.len() {
                    assert(out[i] == result[i] && out[i + 1] == result[i + 1]);
                } else if i + 1 == result.len() {
                    assert(out[i] == result.last());
                } else if i >= head.len() {
                    assert(out[i] == f[i - head.len()]);
                    assert(!is_markdown_whitespace(f[i - head.len()]));
                } else {
                    assert(out[i + 1] == f[i + 1 - head.len()]);
                    assert(!is_markdown_whitespace(f[i + 1 - head.len()]));
                }
            }
        }
    }
}

/// A normalized identifier holds no tab or line ending, does not start or
/// end with a space, and holds no two spaces in a row, when every
/// non-whitespace character of `value` case-folds to at least one character
/// and to no whitespace.
pub proof fn lemma_normalized_collapsed(value: Seq<char>)
    requires
        forall|i: int| 0 <= i < value.len() && !is_markdown_whitespace(#[trigger] value[i]) ==> folds_to_text(value[i]),
    ensures
        collapsed(spec_normalize_identifier(value)),
{
    lemma_normalize_state_collapsed(value);
}

/// `s` with its tabs, line endings and spaces removed.
pub open spec fn without_whitespace(s: Seq<char>) -> Seq<char>
    decreases s.len(),
{
    if s.len() == 0 {
        s
    } else {
        let kept = without_whitespace(s.drop_last());
        let c = s.last();
        if c == '\t' || c == '\n' || c == '\r' || c == ' ' { kept } else { kept.push(c) }
    }
}

/// The case foldings of the characters of `value` that are not whitespace,
/// one after the other: each lowercased, and each character of that
/// uppercased.
pub open spec fn foldings(value: Seq<char>) -> Seq<char>
    decreases value.len(),
{
    if value.len() == 0 {
        Seq::empty()
    } else {
        let before = foldings(value.drop_last());
        let c = value.last();
        if c == '\t' || c == '\n' || c == '\r' || c == ' ' {
            before
        } else {
            before + uppercase_all(lowercase_mapping(c))
        }
    }
}

/// Removing whitespace distributes over concatenation.
proof fn lemma_without_whitespace_concat(a: Seq<char>, b: Seq<char>)
    ensures
        without_whitespace(a + b) == without_whitespace(a) + without_whitespace(b),
    decreases b.len(),
{
    if b.len() == 0 {
        assert(a + b =~= a);
        assert(without_whitespace(a) + without_whitespace(b) =~= without_whitespace(a));
    } else {
        assert((a + b).drop_last() =~= a + b.drop_last());
        assert((a + b).last() == b.last());
        lemma_without_whitespace_concat(a, b.drop_last());
        if !is_markdown_whitespace(b.last()) {
            assert(without_whitespace(a) + without_whitespace(b.drop_last()).push(b.last())
                =~= (without_whitespace(a) + without_whitespace(b.drop_last())).push(b.last()));
        }
    }
}

/// Normalizing keeps every character that is not whitespace: with the
/// whitespace taken out of both, the normalized identifier is the case
/// folding of each non-whitespace character of `value`, in order. Only
/// whitespace runs are dropped or collapsed; nothing else is lost or added.
pub proof fn lemma_normalized_keeps_foldings(value: Seq<char>)
    ensures
        without_whitespace(spec_normalize_identifier(value)) == without_whitespace(foldings(value)),
    decreases value.len(),
{
    lemma_normalize_state_foldings(value);
}

proof fn lemma_normalize_state_foldings(value: Seq<char>)
    ensures
        without_whitespace(normalize_state(value).0) == without_whitespace(foldings(value)),
    decreases value.len(),
{
    if value.len() > 0 {
        let prefix = value.drop_last();
        lemma_normalize_state_foldings(prefix);
        let (result, pending) = normalize_state(prefix);
        let c = value.last();
        if !is_markdown_whitespace(c) {
            let f = fold_case(c);
            lemma_without_whitespace_concat(foldings(prefix), f);
            if pending {
                lemma_without_whitespace_concat(result.push(' '), f);
                lemma_without_whitespace_concat(result, seq![' ']);
                assert(result + seq![' '] =~= result.push(' '));
                assert(seq![' '].drop_last() =~= Seq::<char>::empty());
                assert(seq![' '].last() == ' ');
                assert(is_markdown_whitespace(' '));
                assert(without_whitespace(Seq::<char>::empty()) =~= Seq::<char>::empty());
                assert(without_whitespace(seq![' ']) =~= Seq::<char>::empty());
                assert(without_whitespace(result) + Seq::<char>::empty() =~= without_whitespace(result));
            } else {
                lemma_without_whitespace_concat(result, f);
            }
        }
    }
}

} // verus!
