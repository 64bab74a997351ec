//! Where blocks lie: in bounds, in document order, without overlapping, and
//! with distinct identities; and why splicing reparsed blocks keeps that.

use vstd::prelude::*;
use vstd::utf8::encode_utf8;
use crate::incremental::blocks::{Block, containing_block};
use crate::incremental::align::{fix_ids, id_among, ids_of, lemma_aligned_ids_distinct, walk_ids};
use crate::incremental::edit::{added_before, removed_before, spliced, valid_edits};
use crate::incremental::reparse::{ReparsePlan, first_ending_after, lemma_first_ending_after, window_end};
use crate::incremental::renderer::{moved_by, planned, suffix_shift, suffix_shiftable};

verus! {

/// Whether `blocks` lie within a document of `len` bytes, in document order
/// without overlapping, with distinct identities below `next_id`.
pub open spec fn blocks_placed(blocks: Seq<Block>, len: int, next_id: u64) -> bool {
    &&& forall|i: int| 0 <= i < blocks.len() ==> (#[trigger] blocks[i]).start <= blocks[i].end <= len
        && blocks[i].id < next_id
    &&& forall|i: int, j: int| 0 <= i < j < blocks.len()
        ==> (#[trigger] blocks[i]).end <= (#[trigger] blocks[j]).start && blocks[i].id != blocks[j].id
}

/// Whether the identities of `blocks` are distinct and below `next_id`.
pub open spec fn ids_placed(blocks: Seq<Block>, next_id: u64) -> bool {
    &&& forall|i: int| 0 <= i < blocks.len() ==> (#[trigger] blocks[i]).id < next_id
    &&& forall|i: int, j: int| 0 <= i < j < blocks.len() ==> (#[trigger] blocks[i]).id != (#[trigger] blocks[j]).id
}

/// Placed blocks have placed identities.
pub proof fn lemma_placed_ids(blocks: Seq<Block>, len: int, next_id: u64)
    requires
        blocks_placed(blocks, len, next_id),
    ensures
        ids_placed(blocks, next_id),
{
}

/// Three placed runs of blocks, one after the other and with no identity in
/// common, make a placed run.
proof fn lemma_concat_placed(a: Seq<Block>, b: Seq<Block>, c: Seq<Block>, len: int, next_id: u64, b1: int, b2: int)
    requires
        blocks_placed(a, len, next_id),
        blocks_placed(b, len, next_id),
        blocks_placed(c, len, next_id),
        b1 <= b2,
        forall|i: int| 0 <= i < a.len() ==> (#[trigger] a[i]).end <= b1,
        forall|i: int| 0 <= i < b.len() ==> b1 <= (#[trigger] b[i]).start && b[i].end <= b2,
        forall|i: int| 0 <= i < c.len() ==> b2 <= (#[trigger] c[i]).start,
        forall|i: int, j: int| 0 <= i < a.len() && 0 <= j < b.len() ==> (#[trigger] a[i]).id != (#[trigger] b[j]).id,
        forall|i: int, j: int| 0 <= i < a.len() && 0 <= j < c.len() ==> (#[trigger] a[i]).id != (#[trigger] c[j]).id,
        forall|i: int, j: int| 0 <= i < b.len() && 0 <= j < c.len() ==> (#[trigger] b[i]).id != (#[trigger] c[j]).id,
    ensures
        blocks_placed(a + b + c, len, next_id),
{
    let all = a + b + c;
    let la = a.len() as int;
    let lb = b.len() as int;
    assert forall|i: int| 0 <= i < all.len() implies (#[trigger] all[i]).start <= all[i].end <= len
        && all[i].id < next_id by {
        if i < la {
            assert(all[i] == a[i]);
        } else if i < la + lb {
            assert(all[i] == b[i - la]);
        } else {
            assert(all[i] == c[i - la - lb]);
        }
    }
    assert forall|i: int, j: int| 0 <= i < j < all.len()
        implies (#[trigger] all[i]).end <= (#[trigger] all[j]).start && all[i].id != all[j].id by {
        if j < la {
            assert(all[i] == a[i] && all[j] == a[j]);
        } else if j < la + lb {
            assert(all[j] == b[j - la]);
            if i < la {
                assert(all[i] == a[i]);
            } else {
                assert(all[i] == b[i - la]);
            }
        } else {
            assert(all[j] == c[j - la - lb]);
            if i < la {
                assert(all[i] == a[i]);
            } else if i < la + lb {
                assert(all[i] == b[i - la]);
            } else {
                assert(all[i] == c[i - la - lb]);
            }
        }
    }
}

/// Every block before the one found by `containing_block` ends before
/// `offset`.
pub proof fn lemma_containing_block_before(blocks: Seq<Block>, offset: usize, i: int)
    requires
        0 <= i <= blocks.len(),
    ensures
        forall|k: int| i <= k < containing_block(blocks, offset, i) ==> (#[trigger] blocks[k]).end < offset,
    decreases blocks.len() - i,
{
    if i < blocks.len() && blocks[i].end < offset {
        lemma_containing_block_before(blocks, offset, i + 1);
    }
}

/// What a plan tells of the old blocks around a converged window: the
/// blocks before the reparse end where it starts; the old blocks after the
/// window start after every edit and after the bytes the edits remove.
proof fn lemma_plan_facts(
    source: Seq<char>,
    before: Seq<Block>,
    has_definitions: bool,
    global_allowed: bool,
    plan: ReparsePlan,
    co: int,
    old_next: u64,
)
    requires
        blocks_placed(before, encode_utf8(source).len() as int, old_next),
        planned(source, before, has_definitions, global_allowed, plan.edits@, plan),
        valid_edits(encode_utf8(source), plan.edits@),
        plan.start_index <= co <= before.len(),
        plan.first_candidate <= co,
    ensures
        encode_utf8(plan.new_source@).len() == encode_utf8(source).len()
            + added_before(plan.edits@, plan.edits@.len() as int) - removed_before(plan.edits@, plan.edits@.len() as int),
        forall|i: int| 0 <= i < plan.start_index ==> (#[trigger] before[i]).end <= plan.start,
        co < before.len() ==> {
            &&& 1 <= co
            &&& removed_before(plan.edits@, plan.edits@.len() as int) <= before[co - 1].end
            &&& forall|e: int| 0 <= e < plan.edits@.len() ==> (#[trigger] plan.edits@[e]).old_end_byte <= before[co].start
        },
{
    let bytes = encode_utf8(source);
    let edits = plan.edits@;
    let ne = edits.len() as int;
    let old_len = bytes.len() as int;
    let si = plan.start_index as int;
    let n = before.len() as int;
    crate::incremental::edit::lemma_spliced_len(bytes, edits);
    if ne > 0 {
        crate::incremental::edit::lemma_removed_within(bytes, edits, ne);
    }
    assert(removed_before(edits, ne) <= plan.latest_old);
    assert forall|i: int| 0 <= i < si implies (#[trigger] before[i]).end <= plan.start by {
        assert(!plan.global_references) by {
            if plan.global_references {
                assert(si == 0);
            }
        }
        let earliest: usize = if ne == 0 { 0 } else { edits[0].start_byte };
        let containing = containing_block(before, earliest, 0);
        crate::incremental::blocks::lemma_containing_block_bound(before, earliest, 0);
        assert(si == containing - 1);
        lemma_containing_block_before(before, earliest, 0);
        assert(before[si].end < earliest);
        assert(before[si].start <= before[si].end);
        assert(before[i].end <= before[si].start);
    }
    if co < n {
        let minimum: int = if plan.latest_old < plan.start { plan.start as int } else { plan.latest_old as int };
        lemma_first_ending_after(before, minimum, si);
        let f = first_ending_after(before, minimum, si);
        assert(f + 2 <= co);
        assert(before[f].end > minimum);
        assert(before[f].end <= before[co - 1].end) by {
            if f < co - 1 {
                assert(before[f].start <= before[f].end);
                assert(before[f].end <= before[co - 1].start);
            }
        }
        assert(before[co - 1].end <= before[co].start);
        assert forall|e: int| 0 <= e < ne implies (#[trigger] edits[e]).old_end_byte <= before[co].start by {
            crate::incremental::edit::lemma_ends_before_last(bytes, edits, e);
            if plan.global_references {
                assert(before[f].end <= old_len);
            }
        }
    }
}

/// The old blocks after a converged window can be moved by the edits.
pub proof fn lemma_suffix_shiftable(
    source: Seq<char>,
    before: Seq<Block>,
    has_definitions: bool,
    global_allowed: bool,
    plan: ReparsePlan,
    co: int,
    old_next: u64,
)
    requires
        blocks_placed(before, encode_utf8(source).len() as int, old_next),
        planned(source, before, has_definitions, global_allowed, plan.edits@, plan),
        valid_edits(encode_utf8(source), plan.edits@),
        plan.start_index <= co <= before.len(),
        plan.first_candidate <= co,
        encode_utf8(plan.new_source@).len() <= usize::MAX,
    ensures
        suffix_shiftable(before, plan.edits@, co),
{
    lemma_plan_facts(source, before, has_definitions, global_allowed, plan, co, old_next);
    let edits = plan.edits@;
    let ne = edits.len() as int;
    let n = before.len() as int;
    if co < n {
        crate::incremental::edit::lemma_delta_all(edits, ne, before[co].start as int);
        let d = suffix_shift(before, edits, co);
        assert forall|j: int| co <= j < n implies {
            &&& d.1 <= (#[trigger] before[j]).start
            &&& d.1 <= before[j].end
            &&& before[j].start - d.1 + d.0 <= usize::MAX
            &&& before[j].end - d.1 + d.0 <= usize::MAX
        } by {
            assert(before[co - 1].end <= before[co].start);
            assert(before[j].start <= before[j].end);
            if j > co {
                assert(before[co].start <= before[co].end);
                assert(before[co].end <= before[j].start);
            }
        }
    }
}

/// The reparsed blocks, which take the places of the parsed ones and the
/// identities that alignment gives them, are placed within the window.
pub proof fn lemma_middle_placed(
    before: Seq<Block>,
    parsed: Seq<Block>,
    si: int,
    co: int,
    b: Seq<Block>,
    new_len: int,
    old_next: u64,
    next_id: u64,
    start: int,
    end: int,
)
    requires
        ids_placed(before, old_next),
        0 <= si <= co <= before.len(),
        blocks_placed(parsed, end, next_id),
        forall|i: int| 0 <= i < parsed.len() ==> start <= (#[trigger] parsed[i]).start && old_next <= parsed[i].id,
        old_next <= next_id,
        end <= new_len,
        b.len() == parsed.len(),
        forall|k: int| 0 <= k < b.len() ==> (#[trigger] b[k]).start == parsed[k].start && b[k].end == parsed[k].end,
        ({
            let middle = before.subrange(si, co);
            let p = parsed.len() as int;
            ids_of(b) == fix_ids(middle, parsed, walk_ids(middle, parsed, 0, 0, ids_of(parsed)), 0,
                if middle.len() < p { middle.len() as int } else { p })
        }),
    ensures
        blocks_placed(b, new_len, next_id),
        forall|k: int| 0 <= k < b.len() ==> start <= (#[trigger] b[k]).start && b[k].end <= end,
        forall|k: int| 0 <= k < b.len() ==> (#[trigger] b[k]).id >= old_next
            || exists|q: int| si <= q < co && before[q].id == b[k].id,
{
    let middle = before.subrange(si, co);
    assert(ids_of(middle).no_duplicates()) by {
        assert forall|x: int, y: int| 0 <= x < ids_of(middle).len() && 0 <= y < ids_of(middle).len() && x != y
            implies ids_of(middle)[x] != ids_of(middle)[y] by {
            assert(middle[x] == before[si + x] && middle[y] == before[si + y]);
            if x < y {
                assert(before[si + x].id != before[si + y].id);
            } else {
                assert(before[si + y].id != before[si + x].id);
            }
        }
    }
    assert(ids_of(parsed).no_duplicates()) by {
        assert forall|x: int, y: int| 0 <= x < ids_of(parsed).len() && 0 <= y < ids_of(parsed).len() && x != y
            implies ids_of(parsed)[x] != ids_of(parsed)[y] by {
            if x < y {
                assert(parsed[x].id != parsed[y].id);
            } else {
                assert(parsed[y].id != parsed[x].id);
            }
        }
    }
    assert forall|x: int, y: int| 0 <= x < middle.len() && 0 <= y < parsed.len()
        implies (#[trigger] middle[x]).id != (#[trigger] parsed[y]).id by {
        assert(middle[x] == before[si + x]);
    }
    lemma_aligned_ids_distinct(middle, parsed);
    let ids = ids_of(b);
    let aligned = fix_ids(middle, parsed, walk_ids(middle, parsed, 0, 0, ids_of(parsed)), 0,
        crate::incremental::align::align_limit(middle, parsed));
    assert(ids == aligned);
    assert forall|k: int| 0 <= k < b.len() implies id_among(parsed, ids[k]) || id_among(middle, ids[k]) by {
        assert(id_among(parsed, aligned[k]) || id_among(middle, aligned[k]));
    }
    assert forall|k: int| 0 <= k < b.len() implies (#[trigger] b[k]).id >= old_next
        || exists|q: int| si <= q < co && before[q].id == b[k].id by {
        assert(ids[k] == b[k].id);
        if !id_among(parsed, ids[k]) {
            let x = choose|x: int| 0 <= x < middle.len() && (#[trigger] middle[x]).id == ids[k];
            assert(middle[x] == before[si + x]);
        }
    }
    assert forall|k: int| 0 <= k < b.len() implies (#[trigger] b[k]).start <= b[k].end <= new_len
        && b[k].id < next_id by {
        assert(ids[k] == b[k].id);
        if id_among(parsed, ids[k]) {
            let y = choose|y: int| 0 <= y < parsed.len() && (#[trigger] parsed[y]).id == ids[k];
        } else {
            let x = choose|x: int| 0 <= x < middle.len() && (#[trigger] middle[x]).id == ids[k];
            assert(middle[x] == before[si + x]);
        }
    }
    assert forall|x: int, y: int| 0 <= x < y < b.len()
        implies (#[trigger] b[x]).end <= (#[trigger] b[y]).start && b[x].id != b[y].id by {
        assert(parsed[x].end <= parsed[y].start);
        assert(ids[x] == b[x].id && ids[y] == b[y].id);
        assert(aligned[x] != aligned[y]);
    }
}

/// The old blocks after the window, moved by `d`, are placed after `b2`.
proof fn lemma_suffix_placed(
    before: Seq<Block>,
    co: int,
    c: Seq<Block>,
    d: (nat, int),
    old_len: int,
    new_len: int,
    old_next: u64,
    next_id: u64,
    b2: int,
)
    requires
        blocks_placed(before, old_len, old_next),
        0 <= co <= before.len(),
        old_next <= next_id,
        c.len() == before.len() - co,
        forall|k: int| 0 <= k < c.len() ==> moved_by(before[co + k], #[trigger] c[k], d),
        forall|j: int| co <= j < before.len() ==> b2 <= (#[trigger] before[j]).start - d.1 + d.0
            && before[j].end - d.1 + d.0 <= new_len,
    ensures
        blocks_placed(c, new_len, next_id),
        forall|k: int| 0 <= k < c.len() ==> b2 <= (#[trigger] c[k]).start && c[k].id == before[co + k].id,
{
    assert forall|k: int| 0 <= k < c.len() implies (#[trigger] c[k]).start <= c[k].end <= new_len
        && c[k].id < next_id by {
        assert(moved_by(before[co + k], c[k], d));
        assert(before[co + k].start <= before[co + k].end);
    }
    assert forall|x: int, y: int| 0 <= x < y < c.len()
        implies (#[trigger] c[x]).end <= (#[trigger] c[y]).start && c[x].id != c[y].id by {
        assert(moved_by(before[co + x], c[x], d));
        assert(moved_by(before[co + y], c[y], d));
        assert(before[co + x].end <= before[co + y].start);
    }
    assert forall|k: int| 0 <= k < c.len() implies b2 <= (#[trigger] c[k]).start && c[k].id == before[co + k].id by {
        assert(moved_by(before[co + k], c[k], d));
    }
}

/// Splicing the blocks parsed for a converged window in place of the old
/// blocks they stand for, with the old blocks after them moved by the
/// edits, keeps the blocks placed in the new document.
pub proof fn lemma_replaced_placed(
    source: Seq<char>,
    before: Seq<Block>,
    has_definitions: bool,
    global_allowed: bool,
    plan: ReparsePlan,
    parsed: Seq<Block>,
    co: int,
    reparsed_end: int,
    old_next: u64,
    next_id: u64,
    after: Seq<Block>,
)
    requires
        blocks_placed(before, encode_utf8(source).len() as int, old_next),
        planned(source, before, has_definitions, global_allowed, plan.edits@, plan),
        valid_edits(encode_utf8(source), plan.edits@),
        plan.start_index <= co <= before.len(),
        plan.first_candidate <= co,
        reparsed_end == window_end(before, plan, co),
        plan.start <= reparsed_end,
        blocks_placed(parsed, reparsed_end, next_id),
        forall|i: int| 0 <= i < parsed.len() ==> plan.start <= (#[trigger] parsed[i]).start && old_next <= parsed[i].id,
        old_next <= next_id,
        after.len() == plan.start_index + parsed.len() + (before.len() - co),
        forall|i: int| 0 <= i < plan.start_index ==> (#[trigger] after[i]).start == before[i].start
            && after[i].end == before[i].end && after[i].id == before[i].id,
        forall|k: int| 0 <= k < parsed.len() ==> (#[trigger] after[plan.start_index + k]).start == parsed[k].start
            && after[plan.start_index + k].end == parsed[k].end,
        ({
            let middle = before.subrange(plan.start_index as int, co);
            let p = parsed.len() as int;
            ids_of(after.subrange(plan.start_index as int, plan.start_index + p)) == fix_ids(middle, parsed,
                walk_ids(middle, parsed, 0, 0, ids_of(parsed)), 0, if middle.len() < p { middle.len() as int } else { p })
        }),
        forall|j: int| co <= j < before.len() ==> moved_by(before[j], #[trigger] after[plan.start_index + parsed.len() + j - co],
            suffix_shift(before, plan.edits@, co)),
    ensures
        blocks_placed(after, encode_utf8(plan.new_source@).len() as int, next_id),
{
    lemma_plan_facts(source, before, has_definitions, global_allowed, plan, co, old_next);
    let edits = plan.edits@;
    let ne = edits.len() as int;
    let old_len = encode_utf8(source).len() as int;
    let new_len = encode_utf8(plan.new_source@).len() as int;
    let si = plan.start_index as int;
    let p = parsed.len() as int;
    let n = before.len() as int;
    let total_added = added_before(edits, ne);
    let total_removed = removed_before(edits, ne);
    let b1 = plan.start as int;
    let b2 = reparsed_end;
    assert(b2 <= new_len);
    let a = after.take(si);
    assert forall|i: int| 0 <= i < a.len() implies (#[trigger] a[i]).end <= b1 by {
        assert(a[i] == after[i]);
        assert(before[i].end <= b1);
    }
    assert(blocks_placed(a, new_len, next_id)) by {
        assert forall|i: int| 0 <= i < a.len() implies (#[trigger] a[i]).start <= a[i].end <= new_len
            && a[i].id < next_id by {
            assert(a[i] == after[i]);
            assert(before[i].end <= b1);
        }
        assert forall|i: int, j: int| 0 <= i < j < a.len()
            implies (#[trigger] a[i]).end <= (#[trigger] a[j]).start && a[i].id != a[j].id by {
            assert(a[i] == after[i] && a[j] == after[j]);
            assert(before[i].end <= before[j].start);
        }
    }
    let b = after.subrange(si, si + p);
    assert forall|k: int| 0 <= k < b.len() implies (#[trigger] b[k]).start == parsed[k].start && b[k].end == parsed[k].end by {
        assert(b[k] == after[si + k]);
    }
    lemma_placed_ids(before, old_len, old_next);
    lemma_middle_placed(before, parsed, si, co, b, new_len, old_next, next_id, b1, b2);
    let c = after.subrange(si + p, after.len() as int);
    let d = suffix_shift(before, edits, co);
    if co < n {
        crate::incremental::edit::lemma_delta_all(edits, ne, before[co].start as int);
        assert(d.0 == total_added && d.1 == total_removed);
        assert forall|j: int| co <= j < n implies b2 <= (#[trigger] before[j]).start - d.1 + d.0
            && before[j].end - d.1 + d.0 <= new_len by {
            assert(before[co - 1].end <= before[co].start);
            if j > co {
                assert(before[co].start <= before[co].end);
                assert(before[co].end <= before[j].start);
            }
        }
    }
    assert forall|k: int| 0 <= k < c.len() implies moved_by(before[co + k], #[trigger] c[k], d) by {
        assert(c[k] == after[si + p + (co + k) - co]);
    }
    lemma_suffix_placed(before, co, c, d, old_len, new_len, old_next, next_id, b2);
    assert forall|i: int, j: int| 0 <= i < a.len() && 0 <= j < b.len() implies (#[trigger] a[i]).id != (#[trigger] b[j]).id by {
        assert(a[i] == after[i]);
        if b[j].id < old_next {
            let q = choose|q: int| si <= q < co && before[q].id == b[j].id;
            assert(before[i].id != before[q].id);
        }
    }
    assert forall|i: int, j: int| 0 <= i < a.len() && 0 <= j < c.len() implies (#[trigger] a[i]).id != (#[trigger] c[j]).id by {
        assert(a[i] == after[i]);
        assert(before[i].id != before[co + j].id);
    }
    assert forall|i: int, j: int| 0 <= i < b.len() && 0 <= j < c.len() implies (#[trigger] b[i]).id != (#[trigger] c[j]).id by {
        if b[i].id < old_next {
            let q = choose|q: int| si <= q < co && before[q].id == b[i].id;
            assert(before[q].id != before[co + j].id);
        }
    }
    lemma_concat_placed(a, b, c, new_len, next_id, b1, b2);
    assert(after =~= a + b + c);
}

} // verus!
