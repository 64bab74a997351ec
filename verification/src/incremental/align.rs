//! Carrying block identities from an old rendering to a new one along a
//! longest common subsequence of block contents.

use vstd::prelude::*;
use crate::incremental::blocks::{Block, same_strings};
use crate::incremental::definitions::strings_view;
use crate::incremental::blocks::defs_view;

verus! {

/// Whether two blocks have the same content and class.
pub open spec fn same_content(a: Block, b: Block) -> bool {
    a.fingerprint == b.fingerprint && a.kind == b.kind
}

/// Length of a longest common subsequence, by content, of `old[o..]` and
/// `new[n..]`, by the usual recurrence.
pub open spec fn lcs(old: Seq<Block>, new: Seq<Block>, o: int, n: int) -> nat
    decreases old.len() - o + new.len() - n,
{
    if o < 0 || n < 0 || o >= old.len() || n >= new.len() {
        0
    } else if same_content(old[o], new[n]) {
        1 + lcs(old, new, o + 1, n + 1)
    } else {
        let down = lcs(old, new, o + 1, n);
        let right = lcs(old, new, o, n + 1);
        if down >= right { down } else { right }
    }
}

/// The pairs `(old index, new index)` that the alignment walk matches from
/// `(o, n)`: equal contents pair up, otherwise the walk skips the old block
/// when that loses nothing, else the new block.
pub open spec fn matching(old: Seq<Block>, new: Seq<Block>, o: int, n: int) -> Seq<(int, int)>
    decreases old.len() - o + new.len() - n,
{
    if o < 0 || n < 0 || o >= old.len() || n >= new.len() {
        Seq::empty()
    } else if same_content(old[o], new[n]) {
        seq![(o, n)] + matching(old, new, o + 1, n + 1)
    } else if lcs(old, new, o + 1, n) >= lcs(old, new, o, n + 1) {
        matching(old, new, o + 1, n)
    } else {
        matching(old, new, o, n + 1)
    }
}

/// Identities after the walk from `(o, n)`: each matched new block takes
/// the identity of its old block.
pub open spec fn walk_ids(old: Seq<Block>, new: Seq<Block>, o: int, n: int, ids: Seq<u64>) -> Seq<u64>
    decreases old.len() - o + new.len() - n,
{
    if o < 0 || n < 0 || o >= old.len() || n >= new.len() {
        ids
    } else if same_content(old[o], new[n]) {
        walk_ids(old, new, o + 1, n + 1, ids.update(n, old[o].id))
    } else if lcs(old, new, o + 1, n) >= lcs(old, new, o, n + 1) {
        walk_ids(old, new, o + 1, n, ids)
    } else {
        walk_ids(old, new, o, n + 1, ids)
    }
}

/// Whether a matched old block also hands over its HTML: when asked to,
/// and when its references and definitions are the new block's.
pub open spec fn hands_over_html(a: Block, b: Block, preserve_html: bool) -> bool {
    preserve_html && strings_view(a.references@) == strings_view(b.references@)
        && defs_view(a.definitions@) == defs_view(b.definitions@)
}

/// HTML after the walk from `(o, n)`.
pub open spec fn walk_html(old: Seq<Block>, new: Seq<Block>, o: int, n: int, html: Seq<Seq<char>>, preserve_html: bool) -> Seq<Seq<char>>
    decreases old.len() - o + new.len() - n,
{
    if o < 0 || n < 0 || o >= old.len() || n >= new.len() {
        html
    } else if same_content(old[o], new[n]) {
        let h = if hands_over_html(old[o], new[n], preserve_html) { html.update(n, old[o].html@) } else { html };
        walk_html(old, new, o + 1, n + 1, h, preserve_html)
    } else if lcs(old, new, o + 1, n) >= lcs(old, new, o, n + 1) {
        walk_html(old, new, o + 1, n, html, preserve_html)
    } else {
        walk_html(old, new, o, n + 1, html, preserve_html)
    }
}

/// Identities after giving, at each position from `index` below `limit`,
/// the old identity to a new block of the same class when no new block has
/// that identity yet.
pub open spec fn fix_ids(old: Seq<Block>, new: Seq<Block>, ids: Seq<u64>, index: int, limit: int) -> Seq<u64>
    decreases limit - index,
{
    if index < 0 || index >= limit {
        ids
    } else {
        let next = if old[index].kind == new[index].kind && !ids.contains(old[index].id) {
            ids.update(index, old[index].id)
        } else {
            ids
        };
        fix_ids(old, new, next, index + 1, limit)
    }
}

/// The identities of `blocks`.
pub open spec fn ids_of(blocks: Seq<Block>) -> Seq<u64> {
    Seq::new(blocks.len(), |i: int| blocks[i].id)
}

/// The HTML of `blocks`.
pub open spec fn html_list(blocks: Seq<Block>) -> Seq<Seq<char>> {
    Seq::new(blocks.len(), |i: int| blocks[i].html@)
}

/// Whether `b` is `a` with possibly another identity and HTML.
pub open spec fn same_but_id_html(a: Block, b: Block) -> bool {
    &&& a.start == b.start
    &&& a.end == b.end
    &&& a.fingerprint == b.fingerprint
    &&& a.kind == b.kind
    &&& a.definitions == b.definitions
    &&& a.references == b.references
    &&& a.footnote == b.footnote
}

/// A common subsequence is never longer than the shorter rest.
proof fn lemma_lcs_bound(old: Seq<Block>, new: Seq<Block>, o: int, n: int)
    requires
        0 <= o <= old.len(),
        0 <= n <= new.len(),
    ensures
        lcs(old, new, o, n) <= old.len() - o,
    decreases old.len() - o + new.len() - n,
{
    if o < old.len() && n < new.len() {
        lemma_lcs_bound(old, new, o + 1, n + 1);
        lemma_lcs_bound(old, new, o + 1, n);
        lemma_lcs_bound(old, new, o, n + 1);
    }
}

/// Whether row `q` of `rows` holds `lcs(previous.len() - q, ..)`.
pub open spec fn lcs_table_of(rows: Seq<Vec<usize>>, previous: Seq<Block>, current: Seq<Block>) -> bool {
    &&& rows.len() == previous.len() + 1
    &&& forall|q: int, m: int| 0 <= q <= previous.len() && 0 <= m <= current.len()
        ==> (#[trigger] rows[q]@[m]) == lcs(previous, current, previous.len() - q, m) && rows[q]@.len() == current.len() + 1
}

/// The table of longest common subsequence lengths, row `r` holding
/// `lcs(previous.len() - r, ..)`.
fn lcs_table(previous: &Vec<Block>, current: &Vec<Block>) -> (rows: Vec<Vec<usize>>)
    requires
        previous@.len() < usize::MAX,
        current@.len() < usize::MAX,
    ensures
        lcs_table_of(rows@, previous@, current@),
{
    let columns = current.len() + 1;
    let mut table: Vec<Vec<usize>> = Vec::new();
    let mut last: Vec<usize> = Vec::new();
    let mut n: usize = 0;
    while n < columns
        invariant
            columns == current@.len() + 1,
            n <= columns,
            last@.len() == n,
            forall|m: int| 0 <= m < n ==> last@[m] == 0,
        decreases columns - n,
    {
        last.push(0);
        n += 1;
    }
    proof {
        assert forall|m: int| 0 <= m <= current@.len() implies last@[m] == lcs(previous@, current@, previous@.len() as int, m) by {}
    }
    table.push(last);
    let mut r: usize = 1;
    while r <= previous.len()
        invariant
            columns == current@.len() + 1,
            previous@.len() < usize::MAX,
            1 <= r <= previous@.len() + 1,
            table@.len() == r,
            forall|q: int, m: int| 0 <= q < r && 0 <= m <= current@.len()
                ==> (#[trigger] table@[q]@[m]) == lcs(previous@, current@, previous@.len() - q, m) && table@[q]@.len() == columns,
        decreases previous@.len() + 1 - r,
    {
        let o = previous.len() - r;
        let mut row: Vec<usize> = Vec::new();
        let mut c: usize = 0;
        while c < columns
            invariant
                columns == current@.len() + 1,
                c <= columns,
                row@.len() == c,
                forall|m: int| 0 <= m < c ==> row@[m] == 0,
            decreases columns - c,
        {
            row.push(0);
            c += 1;
        }
        let mut k: usize = current.len();
        proof {
            assert(row@[current@.len() as int] == 0);
        }
        while k > 0
            invariant
                columns == current@.len() + 1,
                o == previous@.len() - r,
                1 <= r <= previous@.len(),
                table@.len() == r,
                forall|q: int, m: int| 0 <= q < r && 0 <= m <= current@.len()
                    ==> (#[trigger] table@[q]@[m]) == lcs(previous@, current@, previous@.len() - q, m) && table@[q]@.len() == columns,
                k <= current@.len(),
                row@.len() == columns,
                forall|m: int| k <= m <= current@.len() ==> #[trigger] row@[m] == lcs(previous@, current@, o as int, m),
            decreases k,
        {
            let m = k - 1;
            let below = &table[r - 1];
            proof {
                assert(below@[m as int] == lcs(previous@, current@, o + 1, m as int));
                assert(below@[m + 1] == lcs(previous@, current@, o + 1, m + 1));
                assert(row@[m + 1] == lcs(previous@, current@, o as int, m + 1));
                lemma_lcs_bound(previous@, current@, o + 1, m + 1);
            }
            let value = if previous[o].fingerprint == current[m].fingerprint && previous[o].kind == current[m].kind {
                1 + below[m + 1]
            } else if below[m] >= row[m + 1] {
                below[m]
            } else {
                row[m + 1]
            };
            row.set(m, value);
            k = m;
        }
        proof {
            assert(row@[current@.len() as int] == lcs(previous@, current@, o as int, current@.len() as int));
        }
        let ghost before = table@;
        table.push(row);
        proof {
            assert forall|q: int, m: int| 0 <= q < r + 1 && 0 <= m <= current@.len()
                implies (#[trigger] table@[q]@[m]) == lcs(previous@, current@, previous@.len() - q, m) && table@[q]@.len() == columns by {
                if q < r {
                    assert(table@[q] == before[q]);
                }
            }
        }
        r += 1;
    }
    assert forall|q: int, m: int| 0 <= q <= previous@.len() && 0 <= m <= current@.len()
        implies (#[trigger] table@[q]@[m]) == lcs(previous@, current@, previous@.len() - q, m)
            && table@[q]@.len() == current@.len() + 1 by {
        assert(q < r);
    }
    assert(lcs_table_of(table@, previous@, current@));
    table
}

/// Give new blocks the identities of matching old blocks, keeping the old
/// HTML of a matched block when `preserve_html` and its references and
/// definitions are unchanged.
pub fn align_ids_preserving_html(previous: &Vec<Block>, current: &mut Vec<Block>, preserve_html: bool)
    requires
        previous@.len() < usize::MAX,
        old(current)@.len() < usize::MAX,
    ensures
        final(current)@.len() == old(current)@.len(),
        forall|i: int| 0 <= i < final(current)@.len() ==> same_but_id_html(old(current)@[i], #[trigger] final(current)@[i]),
        ids_of(final(current)@) == fix_ids(previous@, old(current)@, walk_ids(previous@, old(current)@, 0, 0, ids_of(old(current)@)), 0,
            if previous@.len() < old(current)@.len() { previous@.len() as int } else { old(current)@.len() as int }),
        html_list(final(current)@) == walk_html(previous@, old(current)@, 0, 0, html_list(old(current)@), preserve_html),
{
    let ghost initial = current@;
    let table = lcs_table(previous, current);
    assert(current@ == initial);
    let mut o: usize = 0;
    let mut n: usize = 0;
    while o < previous.len() && n < current.len()
        invariant
            lcs_table_of(table@, previous@, initial),
            current@.len() == initial.len(),
            o <= previous@.len(),
            n <= current@.len(),
            forall|i: int| 0 <= i < current@.len() ==> same_but_id_html(initial[i], #[trigger] current@[i]),
            walk_ids(previous@, initial, o as int, n as int, ids_of(current@))
                == walk_ids(previous@, initial, 0, 0, ids_of(initial)),
            walk_html(previous@, initial, o as int, n as int, html_list(current@), preserve_html)
                == walk_html(previous@, initial, 0, 0, html_list(initial), preserve_html),
        decreases previous@.len() - o + current@.len() - n,
    {
        proof {
            assert(same_but_id_html(initial[n as int], current@[n as int]));
        }
        if previous[o].fingerprint == current[n].fingerprint && previous[o].kind == current[n].kind {
            let id = previous[o].id;
            let ghost before = current@;
            let hand_over = preserve_html && same_strings(&previous[o].references, &current[n].references)
                && same_definitions(&previous[o].definitions, &current[n].definitions);
            if hand_over {
                let html = previous[o].html.clone();
                current[n].html = html;
            }
            current[n].id = id;
            proof {
                assert(ids_of(current@) =~= ids_of(before).update(n as int, id));
                if hand_over {
                    assert(html_list(current@) =~= html_list(before).update(n as int, previous@[o as int].html@));
                } else {
                    assert(html_list(current@) =~= html_list(before));
                }
                assert forall|i: int| 0 <= i < current@.len() implies same_but_id_html(initial[i], #[trigger] current@[i]) by {
                    if i != n {
                        assert(current@[i] == before[i]);
                    }
                }
            }
            o += 1;
            n += 1;
        } else {
            proof {
                assert(table@[previous@.len() - (o + 1)]@[n as int] == lcs(previous@, initial, o + 1, n as int));
                assert(table@[previous@.len() - o]@[n + 1] == lcs(previous@, initial, o as int, n + 1));
            }
            if table[previous.len() - (o + 1)][n] >= table[previous.len() - o][n + 1] {
                o += 1;
            } else {
                n += 1;
            }
        }
    }
    let limit = if previous.len() < current.len() { previous.len() } else { current.len() };
    let ghost walked = ids_of(current@);
    let mut index: usize = 0;
    while index < limit
        invariant
            limit == if previous@.len() < initial.len() { previous@.len() } else { initial.len() },
            current@.len() == initial.len(),
            index <= limit,
            forall|i: int| 0 <= i < current@.len() ==> same_but_id_html(initial[i], #[trigger] current@[i]),
            html_list(current@) == walk_html(previous@, initial, 0, 0, html_list(initial), preserve_html),
            fix_ids(previous@, initial, ids_of(current@), index as int, limit as int)
                == fix_ids(previous@, initial, walked, 0, limit as int),
        decreases limit - index,
    {
        let id = previous[index].id;
        proof {
            assert(same_but_id_html(initial[index as int], current@[index as int]));
        }
        if previous[index].kind == current[index].kind && !has_block_id(current, id) {
            let ghost before = current@;
            current[index].id = id;
            proof {
                assert(ids_of(current@) =~= ids_of(before).update(index as int, id));
                assert(html_list(current@) =~= html_list(before));
                assert forall|i: int| 0 <= i < current@.len() implies same_but_id_html(initial[i], #[trigger] current@[i]) by {
                    if i != index {
                        assert(current@[i] == before[i]);
                    }
                }
            }
        }
        index += 1;
    }
}

/// Give new blocks the identities of matching old blocks, keeping old HTML
/// where references and definitions are unchanged.
pub fn align_ids(previous: &Vec<Block>, current: &mut Vec<Block>)
    requires
        previous@.len() < usize::MAX,
        old(current)@.len() < usize::MAX,
    ensures
        final(current)@.len() == old(current)@.len(),
        forall|i: int| 0 <= i < final(current)@.len() ==> same_but_id_html(old(current)@[i], #[trigger] final(current)@[i]),
        ids_of(final(current)@) == fix_ids(previous@, old(current)@, walk_ids(previous@, old(current)@, 0, 0, ids_of(old(current)@)), 0,
            if previous@.len() < old(current)@.len() { previous@.len() as int } else { old(current)@.len() as int }),
        html_list(final(current)@) == walk_html(previous@, old(current)@, 0, 0, html_list(old(current)@), true),
{
    align_ids_preserving_html(previous, current, true);
}

/// Whether some block has identity `id`.
fn has_block_id(blocks: &Vec<Block>, id: u64) -> (r: bool)
    ensures
        r == ids_of(blocks@).contains(id),
{
    let mut index: usize = 0;
    while index < blocks.len()
        invariant
            index <= blocks@.len(),
            forall|i: int| 0 <= i < index ==> ids_of(blocks@)[i] != id,
        decreases blocks.len() - index,
    {
        if blocks[index].id == id {
            proof {
                assert(ids_of(blocks@)[index as int] == id);
            }
            return true;
        }
        index += 1;
    }
    false
}

/// Whether two definition lists are the same.
fn same_definitions(a: &Vec<(String, u64)>, b: &Vec<(String, u64)>) -> (r: bool)
    ensures
        r == (defs_view(a@) == defs_view(b@)),
{
    if a.len() != b.len() {
        proof {
            assert(defs_view(a@).len() != defs_view(b@).len());
        }
        return false;
    }
    let mut index: usize = 0;
    while index < a.len()
        invariant
            a@.len() == b@.len(),
            index <= a@.len(),
            forall|i: int| 0 <= i < index ==> defs_view(a@)[i] == defs_view(b@)[i],
        decreases a.len() - index,
    {
        if a[index].0 != b[index].0 || a[index].1 != b[index].1 {
            proof {
                assert(defs_view(a@)[index as int] != defs_view(b@)[index as int]);
            }
            return false;
        }
        index += 1;
    }
    proof {
        assert(defs_view(a@) =~= defs_view(b@));
    }
    true
}

/// The alignment walk pairs blocks of equal content along a common
/// subsequence, increasing in both lists, whose length is `lcs`.
pub proof fn lemma_matching_is_common_subsequence(old: Seq<Block>, new: Seq<Block>, o: int, n: int)
    requires
        0 <= o <= old.len(),
        0 <= n <= new.len(),
    ensures
        matching(old, new, o, n).len() == lcs(old, new, o, n),
        forall|k: int| 0 <= k < matching(old, new, o, n).len() ==> {
            let (a, b) = #[trigger] matching(old, new, o, n)[k];
            &&& o <= a < old.len()
            &&& n <= b < new.len()
            &&& same_content(old[a], new[b])
        },
        forall|k: int, l: int| 0 <= k < l < matching(old, new, o, n).len() ==>
            (#[trigger] matching(old, new, o, n)[k]).0 < (#[trigger] matching(old, new, o, n)[l]).0
                && matching(old, new, o, n)[k].1 < matching(old, new, o, n)[l].1,
    decreases old.len() - o + new.len() - n,
{
    if o < old.len() && n < new.len() {
        if same_content(old[o], new[n]) {
            lemma_matching_is_common_subsequence(old, new, o + 1, n + 1);
            let rest = matching(old, new, o + 1, n + 1);
            let all = matching(old, new, o, n);
            assert(all == seq![(o, n)] + rest);
            assert forall|k: int| 0 <= k < all.len() implies {
                let (a, b) = #[trigger] all[k];
                &&& o <= a < old.len()
                &&& n <= b < new.len()
                &&& same_content(old[a], new[b])
            } by {
                if k > 0 {
                    assert(all[k] == rest[k - 1]);
                }
            }
            assert forall|k: int, l: int| 0 <= k < l < all.len() implies
                (#[trigger] all[k]).0 < (#[trigger] all[l]).0 && all[k].1 < all[l].1 by {
                assert(all[l] == rest[l - 1]);
                if k > 0 {
                    assert(all[k] == rest[k - 1]);
                }
            }
        } else if lcs(old, new, o + 1, n) >= lcs(old, new, o, n + 1) {
            lemma_matching_is_common_subsequence(old, new, o + 1, n);
        } else {
            lemma_matching_is_common_subsequence(old, new, o, n + 1);
        }
    }
}

/// Walking blocks of equal contents pairs each with its counterpart.
proof fn lemma_walk_identical(old: Seq<Block>, new: Seq<Block>, o: int, ids: Seq<u64>)
    requires
        old.len() == new.len(),
        ids.len() == new.len(),
        0 <= o <= old.len(),
        forall|i: int| 0 <= i < old.len() ==> same_content(#[trigger] old[i], new[i]),
    ensures
        walk_ids(old, new, o, o, ids) == ids.take(o) + ids_of(old).skip(o),
    decreases old.len() - o,
{
    if o < old.len() {
        assert(same_content(old[o], new[o]));
        let next = ids.update(o, old[o].id);
        lemma_walk_identical(old, new, o + 1, next);
        assert(next.take(o + 1) + ids_of(old).skip(o + 1) =~= ids.take(o) + ids_of(old).skip(o));
    } else {
        assert(ids_of(old).skip(o) =~= Seq::<u64>::empty());
        assert(ids.take(o) =~= ids);
    }
}

/// Giving identities changes nothing when every old identity is already
/// taken.
proof fn lemma_fix_taken(old: Seq<Block>, new: Seq<Block>, ids: Seq<u64>, index: int, limit: int)
    requires
        0 <= index,
        limit <= old.len(),
        forall|j: int| index <= j < limit ==> ids.contains(#[trigger] old[j].id),
    ensures
        fix_ids(old, new, ids, index, limit) == ids,
    decreases limit - index,
{
    if index < limit {
        assert(ids.contains(old[index].id));
        lemma_fix_taken(old, new, ids, index + 1, limit);
    }
}

/// Aligning blocks with the same contents, in the same order, gives every
/// new block the identity of its old counterpart.
pub proof fn lemma_align_identical(old: Seq<Block>, new: Seq<Block>)
    requires
        old.len() == new.len(),
        forall|i: int| 0 <= i < old.len() ==> same_content(#[trigger] old[i], new[i]),
    ensures
        fix_ids(old, new, walk_ids(old, new, 0, 0, ids_of(new)), 0, old.len() as int) == ids_of(old),
{
    lemma_walk_identical(old, new, 0, ids_of(new));
    let walked = walk_ids(old, new, 0, 0, ids_of(new));
    assert(walked =~= ids_of(old)) by {
        assert(ids_of(new).take(0) =~= Seq::<u64>::empty());
        assert(ids_of(old).skip(0) =~= ids_of(old));
    }
    assert forall|j: int| 0 <= j < old.len() implies walked.contains(#[trigger] old[j].id) by {
        assert(walked[j] == old[j].id);
    }
    lemma_fix_taken(old, new, walked, 0, old.len() as int);
}

/// How many positions the identity fixing looks at: the shorter length.
pub open spec fn align_limit(old: Seq<Block>, new: Seq<Block>) -> int {
    if old.len() < new.len() { old.len() as int } else { new.len() as int }
}

/// Whether `id` is the identity of one of `blocks`.
pub open spec fn id_among(blocks: Seq<Block>, id: u64) -> bool {
    exists|i: int| 0 <= i < blocks.len() && (#[trigger] blocks[i]).id == id
}

/// What the walk keeps from `(o, n)` on: distinct identities, each a new
/// one or that of an old block before `o`.
pub open spec fn walk_ready(old: Seq<Block>, new: Seq<Block>, o: int, ids: Seq<u64>) -> bool {
    &&& ids.no_duplicates()
    &&& ids.len() == new.len()
    &&& forall|k: int| 0 <= k < ids.len() ==> id_among(new, #[trigger] ids[k])
        || exists|q: int| 0 <= q < o && q < old.len() && old[q].id == ids[k]
}

/// The walk keeps identities distinct and drawn from the new blocks or the
/// old ones.
proof fn lemma_walk_ids_distinct(old: Seq<Block>, new: Seq<Block>, o: int, n: int, ids: Seq<u64>)
    requires
        0 <= o,
        0 <= n,
        ids_of(old).no_duplicates(),
        forall|i: int, j: int| 0 <= i < old.len() && 0 <= j < new.len() ==> (#[trigger] old[i]).id != (#[trigger] new[j]).id,
        walk_ready(old, new, o, ids),
    ensures
        walk_ids(old, new, o, n, ids).no_duplicates(),
        walk_ids(old, new, o, n, ids).len() == ids.len(),
        forall|k: int| 0 <= k < ids.len() ==> id_among(new, #[trigger] walk_ids(old, new, o, n, ids)[k])
            || id_among(old, walk_ids(old, new, o, n, ids)[k]),
    decreases old.len() - o + new.len() - n,
{
    if o >= old.len() || n >= new.len() {
        assert forall|k: int| 0 <= k < ids.len() implies id_among(new, #[trigger] ids[k]) || id_among(old, ids[k]) by {
            if !id_among(new, ids[k]) {
                let q = choose|q: int| 0 <= q < o && q < old.len() && old[q].id == ids[k];
                assert(old[q].id == ids[k]);
            }
        }
    } else if same_content(old[o], new[n]) {
        let x = old[o].id;
        assert(!ids.contains(x)) by {
            if ids.contains(x) {
                let k = choose|k: int| 0 <= k < ids.len() && ids[k] == x;
                if id_among(new, ids[k]) {
                    let j = choose|j: int| 0 <= j < new.len() && (#[trigger] new[j]).id == ids[k];
                    assert(old[o].id != new[j].id);
                } else {
                    let q = choose|q: int| 0 <= q < o && q < old.len() && old[q].id == ids[k];
                    assert(ids_of(old)[q] == ids_of(old)[o]);
                }
            }
        }
        let next = ids.update(n, x);
        assert forall|a: int, b: int| 0 <= a < next.len() && 0 <= b < next.len() && a != b implies next[a] != next[b] by {
            if a != n && b != n {
                assert(ids[a] != ids[b]);
            } else if a == n {
                assert(ids.contains(ids[b]));
            } else {
                assert(ids.contains(ids[a]));
            }
        }
        assert forall|k: int| 0 <= k < next.len() implies id_among(new, #[trigger] next[k])
            || exists|q: int| 0 <= q < o + 1 && q < old.len() && old[q].id == next[k] by {
            if k == n {
            } else if !id_among(new, ids[k]) {
                let q = choose|q: int| 0 <= q < o && q < old.len() && old[q].id == ids[k];
                assert(old[q].id == next[k]);
            }
        }
        lemma_walk_ids_distinct(old, new, o + 1, n + 1, next);
    } else if lcs(old, new, o + 1, n) >= lcs(old, new, o, n + 1) {
        assert forall|k: int| 0 <= k < ids.len() implies id_among(new, #[trigger] ids[k])
            || exists|q: int| 0 <= q < o + 1 && q < old.len() && old[q].id == ids[k] by {
            if !id_among(new, ids[k]) {
                let q = choose|q: int| 0 <= q < o && q < old.len() && old[q].id == ids[k];
                assert(old[q].id == ids[k]);
            }
        }
        lemma_walk_ids_distinct(old, new, o + 1, n, ids);
    } else {
        lemma_walk_ids_distinct(old, new, o, n + 1, ids);
    }
}

/// Fixing identities keeps them distinct and drawn from the new blocks or
/// the old ones.
proof fn lemma_fix_ids_distinct(old: Seq<Block>, new: Seq<Block>, ids: Seq<u64>, index: int, limit: int)
    requires
        0 <= index,
        limit <= old.len(),
        limit <= ids.len(),
        ids.no_duplicates(),
        forall|k: int| 0 <= k < ids.len() ==> id_among(new, #[trigger] ids[k]) || id_among(old, ids[k]),
    ensures
        fix_ids(old, new, ids, index, limit).no_duplicates(),
        fix_ids(old, new, ids, index, limit).len() == ids.len(),
        forall|k: int| 0 <= k < ids.len() ==> id_among(new, #[trigger] fix_ids(old, new, ids, index, limit)[k])
            || id_among(old, fix_ids(old, new, ids, index, limit)[k]),
    decreases limit - index,
{
    if index < limit {
        if old[index].kind == new[index].kind && !ids.contains(old[index].id) {
            let next = ids.update(index, old[index].id);
            assert forall|a: int, b: int| 0 <= a < next.len() && 0 <= b < next.len() && a != b implies next[a] != next[b] by {
                if a != index && b != index {
                    assert(ids[a] != ids[b]);
                } else if a == index {
                    assert(ids.contains(ids[b]));
                } else {
                    assert(ids.contains(ids[a]));
                }
            }
            assert forall|k: int| 0 <= k < next.len() implies id_among(new, #[trigger] next[k]) || id_among(old, next[k]) by {
                if k == index {
                    assert(old[index].id == next[k]);
                } else {
                    assert(next[k] == ids[k]);
                }
            }
            lemma_fix_ids_distinct(old, new, next, index + 1, limit);
        } else {
            lemma_fix_ids_distinct(old, new, ids, index + 1, limit);
        }
    }
}

/// After alignment, identities are pairwise distinct and each is that of a
/// new block or of an old block, when the old identities are distinct, the
/// new ones are distinct, and no new block has an old identity.
pub proof fn lemma_aligned_ids_distinct(old: Seq<Block>, new: Seq<Block>)
    requires
        ids_of(old).no_duplicates(),
        ids_of(new).no_duplicates(),
        forall|i: int, j: int| 0 <= i < old.len() && 0 <= j < new.len() ==> (#[trigger] old[i]).id != (#[trigger] new[j]).id,
    ensures
        ({
            let aligned = fix_ids(old, new, walk_ids(old, new, 0, 0, ids_of(new)), 0, align_limit(old, new));
            &&& aligned.len() == new.len()
            &&& aligned.no_duplicates()
            &&& forall|k: int| 0 <= k < aligned.len() ==> id_among(new, #[trigger] aligned[k]) || id_among(old, aligned[k])
        }),
{
    let start = ids_of(new);
    assert forall|k: int| 0 <= k < start.len() implies id_among(new, #[trigger] start[k])
        || exists|q: int| 0 <= q < 0 && q < old.len() && old[q].id == start[k] by {
        assert(new[k].id == start[k]);
    }
    lemma_walk_ids_distinct(old, new, 0, 0, start);
    lemma_fix_ids_distinct(old, new, walk_ids(old, new, 0, 0, start), 0, align_limit(old, new));
}

/// After alignment, each block's HTML is its own, or that of an old block
/// with the same content whose references and definitions it shares, when
/// HTML is preserved.
pub proof fn lemma_aligned_html_sources(old: Seq<Block>, new: Seq<Block>, o: int, n: int, html: Seq<Seq<char>>, preserve_html: bool)
    requires
        0 <= o,
        0 <= n,
        html.len() == new.len(),
        forall|k: int| 0 <= k < html.len() ==> #[trigger] html[k] == new[k].html@
            || exists|q: int| 0 <= q < old.len() && same_content(old[q], new[k])
                && hands_over_html(old[q], new[k], preserve_html) && old[q].html@ == html[k],
    ensures
        walk_html(old, new, o, n, html, preserve_html).len() == new.len(),
        forall|k: int| 0 <= k < new.len() ==> #[trigger] walk_html(old, new, o, n, html, preserve_html)[k] == new[k].html@
            || exists|q: int| 0 <= q < old.len() && same_content(old[q], new[k])
                && hands_over_html(old[q], new[k], preserve_html)
                && old[q].html@ == walk_html(old, new, o, n, html, preserve_html)[k],
    decreases old.len() - o + new.len() - n,
{
    if o >= old.len() || n >= new.len() {
    } else if same_content(old[o], new[n]) {
        let h = if hands_over_html(old[o], new[n], preserve_html) { html.update(n, old[o].html@) } else { html };
        assert forall|k: int| 0 <= k < h.len() implies #[trigger] h[k] == new[k].html@
            || exists|q: int| 0 <= q < old.len() && same_content(old[q], new[k])
                && hands_over_html(old[q], new[k], preserve_html) && old[q].html@ == h[k] by {
            if k == n && hands_over_html(old[o], new[n], preserve_html) {
                assert(old[o].html@ == h[k]);
            } else {
                assert(h[k] == html[k]);
            }
        }
        lemma_aligned_html_sources(old, new, o + 1, n + 1, h, preserve_html);
    } else if lcs(old, new, o + 1, n) >= lcs(old, new, o, n + 1) {
        lemma_aligned_html_sources(old, new, o + 1, n, html, preserve_html);
    } else {
        lemma_aligned_html_sources(old, new, o, n + 1, html, preserve_html);
    }
}

} // verus!
