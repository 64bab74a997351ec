//! Assembling the document HTML from block HTML.

use vstd::prelude::*;
use crate::incremental::ByteRange;
use crate::incremental::blocks::Block;
use crate::util::text::{chars_of, lemma_encode_utf8_concat, push_char, substring, substring_owned};
use vstd::string::StringSliceAdditionalSpecFns;
use vstd::utf8::*;

verus! {

/// Whether `s` ends in a line feed.
pub open spec fn ends_with_newline(s: Seq<char>) -> bool {
    s.len() > 0 && s.last() == '\n'
}

/// The HTML of the blocks that render something, in order.
pub open spec fn visible_html(blocks: Seq<Block>) -> Seq<Seq<char>>
    decreases blocks.len(),
{
    if blocks.len() == 0 {
        Seq::empty()
    } else {
        let before = visible_html(blocks.drop_last());
        if blocks.last().html@.len() > 0 {
            before.push(blocks.last().html@)
        } else {
            before
        }
    }
}

/// `parts` concatenated, with a line feed added between two parts where the
/// first does not end in one.
pub open spec fn joined(parts: Seq<Seq<char>>) -> Seq<char>
    decreases parts.len(),
{
    if parts.len() == 0 {
        Seq::empty()
    } else {
        let before = joined(parts.drop_last());
        let separated = if before.len() > 0 && !ends_with_newline(before) { before.push('\n') } else { before };
        separated + parts.last()
    }
}

/// Whether a block with definitions follows the last block that renders
/// something.
pub open spec fn trailing_definition(blocks: Seq<Block>) -> bool {
    exists|j: int|
        0 <= j < blocks.len() && (#[trigger] blocks[j]).definitions@.len() > 0
            && (exists|i: int| 0 <= i < j && (#[trigger] blocks[i]).html@.len() > 0)
            && (forall|k: int| j <= k < blocks.len() ==> (#[trigger] blocks[k]).html@.len() == 0)
}

/// Whether the document ends in a line ending that some block HTML keeps.
pub open spec fn trailing_line_ending(blocks: Seq<Block>, source: Seq<char>) -> bool {
    ends_with_newline(source) && exists|i: int| 0 <= i < blocks.len() && ends_with_newline((#[trigger] blocks[i]).html@)
}

/// The document HTML assembled from its blocks.
pub open spec fn spec_join_html(blocks: Seq<Block>, source: Seq<char>, canonical_trailing_newline: bool) -> Seq<char> {
    let body = joined(visible_html(blocks));
    if (trailing_definition(blocks) || trailing_line_ending(blocks, source) || canonical_trailing_newline)
        && !ends_with_newline(body) {
        body.push('\n')
    } else {
        body
    }
}

/// Whether `s` ends in a line feed.
pub fn ends_with_line_feed(s: &str) -> (r: bool)
    ensures
        r == ends_with_newline(s@),
{
    let chars = chars_of(s);
    chars.len() > 0 && chars[chars.len() - 1] == '\n'
}

/// A joined sequence is empty exactly when there is nothing to join, given
/// nonempty parts.
proof fn lemma_joined_empty(parts: Seq<Seq<char>>)
    requires
        forall|i: int| 0 <= i < parts.len() ==> (#[trigger] parts[i]).len() > 0,
    ensures
        (joined(parts).len() == 0) == (parts.len() == 0),
        parts.len() > 0 ==> ends_with_newline(joined(parts)) == ends_with_newline(parts.last()),
    decreases parts.len(),
{
    if parts.len() > 0 {
        assert(parts[parts.len() - 1].len() > 0);
        let before = joined(parts.drop_last());
        let separated = if before.len() > 0 && !ends_with_newline(before) { before.push('\n') } else { before };
        assert((separated + parts.last()).last() == parts.last().last());
    }
}

/// Every visible part is nonempty.
proof fn lemma_visible_nonempty(blocks: Seq<Block>)
    ensures
        forall|i: int| 0 <= i < visible_html(blocks).len() ==> (#[trigger] visible_html(blocks)[i]).len() > 0,
    decreases blocks.len(),
{
    if blocks.len() > 0 {
        lemma_visible_nonempty(blocks.drop_last());
        let before = visible_html(blocks.drop_last());
        let all = visible_html(blocks);
        assert forall|i: int| 0 <= i < all.len() implies (#[trigger] all[i]).len() > 0 by {
            if i < before.len() {
                assert(all[i] == before[i]);
            }
        }
    }
}

/// Some block renders something exactly when there is visible HTML.
proof fn lemma_visible_exists(blocks: Seq<Block>)
    ensures
        (visible_html(blocks).len() > 0) == exists|i: int| 0 <= i < blocks.len() && (#[trigger] blocks[i]).html@.len() > 0,
    decreases blocks.len(),
{
    if blocks.len() > 0 {
        lemma_visible_exists(blocks.drop_last());
        if exists|i: int| 0 <= i < blocks.len() && (#[trigger] blocks[i]).html@.len() > 0 {
            let i = choose|i: int| 0 <= i < blocks.len() && (#[trigger] blocks[i]).html@.len() > 0;
            if i < blocks.len() - 1 {
                assert(blocks.drop_last()[i] == blocks[i]);
            }
        }
        if exists|i: int| 0 <= i < blocks.len() - 1 && (#[trigger] blocks.drop_last()[i]).html@.len() > 0 {
            let i = choose|i: int| 0 <= i < blocks.len() - 1 && (#[trigger] blocks.drop_last()[i]).html@.len() > 0;
            assert(blocks[i] == blocks.drop_last()[i]);
        }
    }
}

/// Join the HTML of `blocks` into the document HTML.
pub fn join_html(blocks: &[Block], source: &str, canonical_trailing_newline: bool) -> (r: String)
    ensures
        r@ == spec_join_html(blocks@, source@, canonical_trailing_newline),
{
    let n = blocks.len();
    let mut result = String::new();
    let mut seen_visible = false;
    let mut ends_newline = false;
    let mut any_html_newline = false;
    let mut index: usize = 0;
    while index < n
        invariant
            n == blocks@.len(),
            index <= n,
            result@ == joined(visible_html(blocks@.take(index as int))),
            seen_visible == (visible_html(blocks@.take(index as int)).len() > 0),
            ends_newline == ends_with_newline(result@),
            any_html_newline == exists|i: int| 0 <= i < index && ends_with_newline((#[trigger] blocks@[i]).html@),
        decreases n - index,
    {
        let block = &blocks[index];
        let ghost prefix = blocks@.take(index as int);
        proof {
            assert(blocks@.take(index + 1).drop_last() =~= prefix);
            assert(blocks@.take(index + 1).last() == *block);
            lemma_visible_nonempty(prefix);
            lemma_joined_empty(visible_html(prefix));
        }
        let html_newline = ends_with_line_feed(block.html.as_str());
        if !block.html.as_str().is_empty() {
            proof {
                assert(block.html@.len() > 0);
            }
            if seen_visible && !ends_newline {
                push_char(&mut result, '\n');
            }
            let ghost separated = result@;
            result.append(block.html.as_str());
            proof {
                assert(result@ == separated + block.html@);
                assert(result@.last() == block.html@.last());
                let parts = visible_html(blocks@.take(index + 1));
                assert(parts == visible_html(prefix).push(block.html@));
                assert(parts.drop_last() =~= visible_html(prefix));
                assert(result@ == joined(parts));
            }
            seen_visible = true;
            ends_newline = html_newline;
        }
        if html_newline {
            any_html_newline = true;
        }
        proof {
            if any_html_newline {
                if html_newline {
                    assert(ends_with_newline(blocks@[index as int].html@));
                }
            }
            assert(any_html_newline == exists|i: int| 0 <= i < index + 1 && ends_with_newline((#[trigger] blocks@[i]).html@)) by {
                if exists|i: int| 0 <= i < index + 1 && ends_with_newline((#[trigger] blocks@[i]).html@) {
                    let i = choose|i: int| 0 <= i < index + 1 && ends_with_newline((#[trigger] blocks@[i]).html@);
                    if i < index {
                    } else {
                        assert(blocks@[i] == *block);
                    }
                }
            }
        }
        index += 1;
    }
    proof {
        assert(blocks@.take(n as int) =~= blocks@);
    }
    let mut trailing_definition_found = false;
    let mut k: usize = n;
    while k > 0 && blocks[k - 1].html.as_str().is_empty()
        invariant
            n == blocks@.len(),
            k <= n,
            forall|m: int| k <= m < n ==> (#[trigger] blocks@[m]).html@.len() == 0,
            trailing_definition_found == exists|m: int| k <= m < n && (#[trigger] blocks@[m]).definitions@.len() > 0,
        decreases k,
    {
        if blocks[k - 1].definitions.len() > 0 {
            trailing_definition_found = true;
        }
        k -= 1;
    }
    let trailing = seen_visible && trailing_definition_found;
    let trailing_ending = ends_with_line_feed(source) && any_html_newline;
    proof {
        lemma_visible_nonempty(blocks@);
        lemma_joined_empty(visible_html(blocks@));
        assert(trailing == trailing_definition(blocks@)) by {
            lemma_visible_exists(blocks@);
            if trailing {
                let m = choose|m: int| k <= m < n && (#[trigger] blocks@[m]).definitions@.len() > 0;
                assert(k > 0 && blocks@[k - 1].html@.len() > 0) by {
                    if k == 0 {
                        assert(forall|i: int| 0 <= i < n ==> (#[trigger] blocks@[i]).html@.len() == 0);
                    }
                }
                assert(blocks@[m].definitions@.len() > 0);
                assert(exists|i: int| 0 <= i < m && (#[trigger] blocks@[i]).html@.len() > 0) by {
                    assert(blocks@[k - 1].html@.len() > 0);
                }
            }
            if trailing_definition(blocks@) {
                let j = choose|j: int|
                    0 <= j < blocks@.len() && (#[trigger] blocks@[j]).definitions@.len() > 0
                        && (exists|i: int| 0 <= i < j && (#[trigger] blocks@[i]).html@.len() > 0)
                        && (forall|k2: int| j <= k2 < blocks@.len() ==> (#[trigger] blocks@[k2]).html@.len() == 0);
                let i = choose|i: int| 0 <= i < j && (#[trigger] blocks@[i]).html@.len() > 0;
                if k > 0 {
                    assert(blocks@[k - 1].html@.len() > 0);
                    assert(j >= k);
                }
                assert(blocks@[i].html@.len() > 0);
            }
        }
    }
    if (trailing || trailing_ending || canonical_trailing_newline) && !ends_newline {
        push_char(&mut result, '\n');
    }
    result
}

/// Two line feeds encode as two bytes 10.
pub(crate) proof fn lemma_encode_blank_line()
    ensures
        encode_utf8(seq!['\n', '\n']) == seq![10u8, 10u8],
{
    assert((10u32 & 0x7Fu32) as u8 == 10u8) by (bit_vector);
    assert(encode_scalar('\n' as u32) =~= seq![10u8]);
    assert(seq!['\n', '\n'].drop_first() =~= seq!['\n']);
    assert(seq!['\n'].drop_first() =~= Seq::<char>::empty());
    assert(seq!['\n'][0] == '\n');
    assert(encode_utf8(Seq::<char>::empty()) =~= Seq::<u8>::empty());
    assert(encode_utf8(seq!['\n']) == encode_scalar(seq!['\n'][0] as u32) + encode_utf8(seq!['\n'].drop_first()));
    assert(encode_utf8(seq!['\n']) =~= seq![10u8]);
    assert(seq!['\n', '\n'][0] == '\n');
    assert(encode_utf8(seq!['\n', '\n']) == encode_scalar(seq!['\n', '\n'][0] as u32) + encode_utf8(seq!['\n', '\n'].drop_first()));
    assert(encode_utf8(seq!['\n', '\n']) =~= seq![10u8, 10u8]);
}

/// Nonempty text has a nonempty encoding.
proof fn lemma_encode_utf8_nonempty(s: Seq<char>)
    ensures
        (encode_utf8(s).len() == 0) == (s.len() == 0),
{
    if s.len() > 0 {
        assert(encode_utf8(s) == encode_scalar(s[0] as u32) + encode_utf8(s.drop_first()));
    }
}

/// Whether every block that provides definitions lies on character
/// boundaries of `bytes`.
pub open spec fn definition_ranges_valid(bytes: Seq<u8>, blocks: Seq<Block>) -> bool {
    forall|i: int| 0 <= i < blocks.len() && (#[trigger] blocks[i]).definitions@.len() > 0 ==> {
        &&& blocks[i].start <= blocks[i].end <= bytes.len()
        &&& is_char_boundary(bytes, blocks[i].start as int)
        &&& is_char_boundary(bytes, blocks[i].end as int)
    }
}

/// The sources of the blocks that provide definitions, separated by blank
/// lines.
pub open spec fn spec_definition_sources(bytes: Seq<u8>, blocks: Seq<Block>) -> Seq<u8>
    decreases blocks.len(),
{
    if blocks.len() == 0 {
        Seq::empty()
    } else {
        let before = spec_definition_sources(bytes, blocks.drop_last());
        let b = blocks.last();
        if b.definitions@.len() > 0 {
            let separated = if before.len() > 0 { before + seq![10u8, 10u8] } else { before };
            separated + bytes.subrange(b.start as int, b.end as int)
        } else {
            before
        }
    }
}

/// The sources of the blocks of `blocks` that provide definitions, separated
/// by blank lines.
pub fn definition_sources(source: &str, blocks: &[Block]) -> (r: String)
    requires
        definition_ranges_valid(source.spec_bytes(), blocks@),
    ensures
        encode_utf8(r@) == spec_definition_sources(source.spec_bytes(), blocks@),
{
    let ghost bytes = source.spec_bytes();
    let mut result = String::new();
    let mut index: usize = 0;
    while index < blocks.len()
        invariant
            bytes == source.spec_bytes(),
            definition_ranges_valid(bytes, blocks@),
            index <= blocks@.len(),
            encode_utf8(result@) == spec_definition_sources(bytes, blocks@.take(index as int)),
        decreases blocks.len() - index,
    {
        let block = &blocks[index];
        proof {
            assert(blocks@.take(index + 1).drop_last() =~= blocks@.take(index as int));
            assert(blocks@.take(index + 1).last() == *block);
        }
        if block.definitions.len() > 0 {
            proof {
                assert(blocks@[index as int] == *block);
            }
            let ghost before = result@;
            if !result.as_str().is_empty() {
                push_char(&mut result, '\n');
                push_char(&mut result, '\n');
                proof {
                    lemma_encode_utf8_concat(before, seq!['\n', '\n']);
                    assert(result@ =~= before + seq!['\n', '\n']);
                    lemma_encode_blank_line();
                }
            }
            proof {
                lemma_encode_utf8_nonempty(before);
            }
            let ghost separated = result@;
            let text = substring(source, block.start, block.end);
            result.append(text);
            proof {
                lemma_encode_utf8_concat(separated, text@);
            }
        }
        index += 1;
    }
    proof {
        assert(blocks@.take(blocks@.len() as int) =~= blocks@);
    }
    result
}

/// Document HTML with the output range of each block in it.
pub struct SegmentedHtml {
    /// The document HTML.
    pub html: String,
    /// Byte range of each block's HTML.
    pub output_ranges: Vec<ByteRange>,
}

/// The start after skipping line ending bytes from `start` up to `end`.
pub open spec fn skip_line_endings(out: Seq<u8>, start: int, end: int) -> int
    decreases end - start,
{
    if start < end && (out[start] == 10 || out[start] == 13) {
        skip_line_endings(out, start + 1, end)
    } else {
        start
    }
}

/// The end after dropping line feeds that follow another line feed.
pub open spec fn trim_blank_lf(out: Seq<u8>, start: int, end: int) -> int
    decreases end,
{
    if end >= start + 2 && end >= 2 && out[end - 1] == 10 && out[end - 2] == 10 {
        trim_blank_lf(out, start, end - 1)
    } else {
        end
    }
}

/// The end after dropping `\r\n` pairs that follow another `\r\n`.
pub open spec fn trim_blank_crlf(out: Seq<u8>, start: int, end: int) -> int
    decreases end,
{
    if end >= start + 4 && end >= 4 && out.subrange(end - 4, end) == seq![13u8, 10u8, 13u8, 10u8] {
        trim_blank_crlf(out, start, end - 2)
    } else {
        end
    }
}

/// The normalized output range of block `index`: later blocks lose their
/// leading line endings, and every block loses blank lines at its end.
pub open spec fn normalized_range(out: Seq<u8>, range: ByteRange, index: int) -> ByteRange {
    let start = if index > 0 { skip_line_endings(out, range.start as int, range.end as int) } else { range.start as int };
    let end = trim_blank_crlf(out, start, trim_blank_lf(out, start, range.end as int));
    ByteRange { start: start as usize, end: end as usize }
}

/// Trim the line endings around each block's output range.
pub fn normalize_output_ranges(segmented: &mut SegmentedHtml)
    requires
        forall|i: int| 0 <= i < old(segmented).output_ranges@.len() ==>
            (#[trigger] old(segmented).output_ranges@[i]).start <= old(segmented).output_ranges@[i].end
                <= encode_utf8(old(segmented).html@).len(),
    ensures
        final(segmented).html == old(segmented).html,
        final(segmented).output_ranges@.len() == old(segmented).output_ranges@.len(),
        forall|i: int| 0 <= i < final(segmented).output_ranges@.len() ==> #[trigger] final(segmented).output_ranges@[i]
            == normalized_range(encode_utf8(old(segmented).html@), old(segmented).output_ranges@[i], i),
{
    let ghost ranges = segmented.output_ranges@;
    let output = segmented.html.as_str().as_bytes();
    let ghost out = output@;
    let mut normalized: Vec<ByteRange> = Vec::new();
    let mut index: usize = 0;
    while index < segmented.output_ranges.len()
        invariant
            ranges == segmented.output_ranges@,
            out == output@,
            out == encode_utf8(segmented.html@),
            forall|i: int| 0 <= i < ranges.len() ==> (#[trigger] ranges[i]).start <= ranges[i].end <= out.len(),
            index <= ranges.len(),
            normalized@.len() == index,
            forall|i: int| 0 <= i < index ==> #[trigger] normalized@[i] == normalized_range(out, ranges[i], i),
        decreases ranges.len() - index,
    {
        let range = segmented.output_ranges[index];
        let mut start = range.start;
        let mut end = range.end;
        if index > 0 {
            while start < end && (output[start] == 10 || output[start] == 13)
                invariant
                    range.start <= start <= end == range.end <= out.len(),
                    out == output@,
                    skip_line_endings(out, start as int, end as int) == skip_line_endings(out, range.start as int, end as int),
                decreases end - start,
            {
                start += 1;
            }
        }
        let ghost lf_from = end;
        while end - start >= 2 && output[end - 1] == 10 && output[end - 2] == 10
            invariant
                start <= end <= out.len(),
                out == output@,
                trim_blank_lf(out, start as int, end as int) == trim_blank_lf(out, start as int, lf_from as int),
            decreases end,
        {
            end -= 1;
        }
        let ghost crlf_from = end;
        while end - start >= 4 && output[end - 4] == 13 && output[end - 3] == 10 && output[end - 2] == 13
            && output[end - 1] == 10
            invariant
                start <= end <= out.len(),
                out == output@,
                trim_blank_crlf(out, start as int, end as int) == trim_blank_crlf(out, start as int, crlf_from as int),
            decreases end,
        {
            proof {
                assert(out.subrange(end - 4, end as int) =~= seq![13u8, 10u8, 13u8, 10u8]);
            }
            end -= 2;
        }
        proof {
            if end >= start + 4 {
                if out.subrange(end - 4, end as int) == seq![13u8, 10u8, 13u8, 10u8] {
                    assert(out.subrange(end - 4, end as int)[0] == out[end - 4]);
                    assert(out.subrange(end - 4, end as int)[1] == out[end - 3]);
                    assert(out.subrange(end - 4, end as int)[2] == out[end - 2]);
                    assert(out.subrange(end - 4, end as int)[3] == out[end - 1]);
                }
            }
        }
        normalized.push(ByteRange { start, end });
        index += 1;
    }
    segmented.output_ranges = normalized;
}

/// Give each block its segment of the document HTML: block `i` takes the
/// bytes of output range `i`, for as many blocks as there are ranges.
pub fn attach_segments(blocks: Vec<Block>, segmented: &SegmentedHtml) -> (r: Vec<Block>)
    requires
        forall|i: int| 0 <= i < segmented.output_ranges@.len() && i < blocks@.len() ==> {
            let range = #[trigger] segmented.output_ranges@[i];
            &&& range.start <= range.end <= encode_utf8(segmented.html@).len()
            &&& is_char_boundary(encode_utf8(segmented.html@), range.start as int)
            &&& is_char_boundary(encode_utf8(segmented.html@), range.end as int)
        },
    ensures
        r@.len() == blocks@.len(),
        forall|i: int| 0 <= i < r@.len() ==> {
            let b = #[trigger] r@[i];
            &&& crate::incremental::align::same_but_id_html(blocks@[i], b)
            &&& b.id == blocks@[i].id
            &&& i < segmented.output_ranges@.len() ==> encode_utf8(b.html@) == encode_utf8(segmented.html@).subrange(
                segmented.output_ranges@[i].start as int, segmented.output_ranges@[i].end as int)
            &&& i >= segmented.output_ranges@.len() ==> b.html == blocks@[i].html
        },
{
    let mut blocks = blocks;
    let ghost initial = blocks@;
    let mut index: usize = 0;
    while index < blocks.len() && index < segmented.output_ranges.len()
        invariant
            blocks@.len() == initial.len(),
            index <= blocks@.len(),
            index <= segmented.output_ranges@.len(),
            forall|i: int| 0 <= i < segmented.output_ranges@.len() && i < initial.len() ==> {
                let range = #[trigger] segmented.output_ranges@[i];
                &&& range.start <= range.end <= encode_utf8(segmented.html@).len()
                &&& is_char_boundary(encode_utf8(segmented.html@), range.start as int)
                &&& is_char_boundary(encode_utf8(segmented.html@), range.end as int)
            },
            forall|i: int| 0 <= i < index ==> {
                let b = #[trigger] blocks@[i];
                &&& crate::incremental::align::same_but_id_html(initial[i], b)
                &&& b.id == initial[i].id
                &&& encode_utf8(b.html@) == encode_utf8(segmented.html@).subrange(
                    segmented.output_ranges@[i].start as int, segmented.output_ranges@[i].end as int)
            },
            forall|i: int| index <= i < blocks@.len() ==> #[trigger] blocks@[i] == initial[i],
        decreases blocks.len() - index,
    {
        let range = segmented.output_ranges[index];
        let ghost before = blocks@;
        let html = substring_owned(segmented.html.as_str(), range.start, range.end);
        blocks[index].html = html;
        proof {
            assert forall|i: int| 0 <= i < index + 1 implies {
                let b = #[trigger] blocks@[i];
                &&& crate::incremental::align::same_but_id_html(initial[i], b)
                &&& b.id == initial[i].id
                &&& encode_utf8(b.html@) == encode_utf8(segmented.html@).subrange(
                    segmented.output_ranges@[i].start as int, segmented.output_ranges@[i].end as int)
            } by {
                if i < index {
                    assert(blocks@[i] == before[i]);
                }
            }
            assert forall|i: int| index + 1 <= i < blocks@.len() implies #[trigger] blocks@[i] == initial[i] by {
                assert(blocks@[i] == before[i]);
            }
        }
        index += 1;
    }
    proof {
        assert forall|i: int| 0 <= i < blocks@.len() implies {
            let b = #[trigger] blocks@[i];
            &&& crate::incremental::align::same_but_id_html(initial[i], b)
            &&& b.id == initial[i].id
            &&& i < segmented.output_ranges@.len() ==> encode_utf8(b.html@) == encode_utf8(segmented.html@).subrange(
                segmented.output_ranges@[i].start as int, segmented.output_ranges@[i].end as int)
            &&& i >= segmented.output_ranges@.len() ==> b.html == initial[i].html
        } by {
            if i >= index {
                assert(blocks@[i] == initial[i]);
            }
        }
    }
    blocks
}

} // verus!
