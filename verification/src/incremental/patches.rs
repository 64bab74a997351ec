//! Block-level patches between two renderings of a document.

use vstd::prelude::*;
use crate::incremental::Patch;
use crate::incremental::blocks::Block;
use crate::incremental::fingerprint::{block_id_string, block_id_text};

verus! {

/// A patch over block identities.
pub enum PatchView {
    /// Replace the HTML of block `id`.
    Replace { id: u64, html: Seq<char> },
    /// Insert block `id` after block `after`, or first.
    InsertAfter { after: Option<u64>, id: u64, html: Seq<char> },
    /// Remove block `id`.
    Remove { id: u64 },
}

/// Whether the public patch `p` is the patch `v`.
pub open spec fn patch_is(p: Patch, v: PatchView) -> bool {
    match (p, v) {
        (Patch::Replace { id, html }, PatchView::Replace { id: vid, html: vhtml }) =>
            id@ == block_id_text(vid) && html@ == vhtml,
        (Patch::InsertAfter { after, id, html }, PatchView::InsertAfter { after: vafter, id: vid, html: vhtml }) =>
            id@ == block_id_text(vid) && html@ == vhtml && match (after, vafter) {
                (Some(a), Some(va)) => a@ == block_id_text(va),
                (None, None) => true,
                _ => false,
            },
        (Patch::Remove { id }, PatchView::Remove { id: vid }) => id@ == block_id_text(vid),
        _ => false,
    }
}

/// The blocks that render something, as identity and HTML, in order.
pub open spec fn visible_entries(blocks: Seq<Block>) -> Seq<(u64, Seq<char>)>
    decreases blocks.len(),
{
    if blocks.len() == 0 {
        Seq::empty()
    } else {
        let before = visible_entries(blocks.drop_last());
        if blocks.last().html@.len() > 0 {
            before.push((blocks.last().id, blocks.last().html@))
        } else {
            before
        }
    }
}

/// The blocks that render something, in order.
pub open spec fn visible_blocks(blocks: Seq<Block>) -> Seq<Block>
    decreases blocks.len(),
{
    if blocks.len() == 0 {
        Seq::empty()
    } else {
        let before = visible_blocks(blocks.drop_last());
        if blocks.last().html@.len() > 0 { before.push(blocks.last()) } else { before }
    }
}

/// The visible entries are the identities and HTML of the visible blocks.
pub proof fn lemma_visible_blocks_entries(blocks: Seq<Block>)
    ensures
        visible_blocks(blocks).len() == visible_entries(blocks).len(),
        forall|i: int| 0 <= i < visible_blocks(blocks).len() ==> visible_entries(blocks)[i]
            == (#[trigger] visible_blocks(blocks)[i].id, visible_blocks(blocks)[i].html@),
    decreases blocks.len(),
{
    if blocks.len() > 0 {
        lemma_visible_blocks_entries(blocks.drop_last());
    }
}

/// Whether some entry has identity `id`.
pub open spec fn has_id(entries: Seq<(u64, Seq<char>)>, id: u64) -> bool {
    exists|i: int| 0 <= i < entries.len() && (#[trigger] entries[i]).0 == id
}

/// The HTML of the last entry with identity `id`.
pub open spec fn html_of(entries: Seq<(u64, Seq<char>)>, id: u64) -> Option<Seq<char>>
    decreases entries.len(),
{
    if entries.len() == 0 {
        None
    } else if entries.last().0 == id {
        Some(entries.last().1)
    } else {
        html_of(entries.drop_last(), id)
    }
}

/// Removals of the old entries whose identity is gone.
pub open spec fn removals(old: Seq<(u64, Seq<char>)>, new: Seq<(u64, Seq<char>)>) -> Seq<PatchView>
    decreases old.len(),
{
    if old.len() == 0 {
        Seq::empty()
    } else {
        let before = removals(old.drop_last(), new);
        if has_id(new, old.last().0) {
            before
        } else {
            before.push(PatchView::Remove { id: old.last().0 })
        }
    }
}

/// The patch that brings new entry `e`, which follows `previous`.
pub open spec fn write_of(old: Seq<(u64, Seq<char>)>, e: (u64, Seq<char>), previous: Option<u64>) -> Seq<PatchView> {
    if !has_id(old, e.0) {
        seq![PatchView::InsertAfter { after: previous, id: e.0, html: e.1 }]
    } else if html_of(old, e.0) != Some(e.1) {
        seq![PatchView::Replace { id: e.0, html: e.1 }]
    } else {
        Seq::empty()
    }
}

/// Inserts and replacements for the new entries, in order; the first
/// follows `after`.
pub open spec fn writes(old: Seq<(u64, Seq<char>)>, new: Seq<(u64, Seq<char>)>, after: Option<u64>) -> Seq<PatchView>
    decreases new.len(),
{
    if new.len() == 0 {
        Seq::empty()
    } else {
        let previous = if new.len() > 1 { Some(new[new.len() - 2].0) } else { after };
        writes(old, new.drop_last(), after) + write_of(old, new.last(), previous)
    }
}

/// The patches from the visible blocks of `old` to those of `new`.
pub open spec fn spec_diff(old: Seq<Block>, new: Seq<Block>, after: Option<u64>) -> Seq<PatchView> {
    removals(visible_entries(old), visible_entries(new))
        + writes(visible_entries(old), visible_entries(new), after)
}

/// The visible entries of `blocks`.
fn visible_of(blocks: &[Block]) -> (r: Vec<(u64, String)>)
    ensures
        r@.len() == visible_entries(blocks@).len(),
        forall|i: int| 0 <= i < r@.len() ==> (#[trigger] r@[i]).0 == visible_entries(blocks@)[i].0
            && r@[i].1@ == visible_entries(blocks@)[i].1,
{
    let mut result: Vec<(u64, String)> = Vec::new();
    let mut index: usize = 0;
    while index < blocks.len()
        invariant
            index <= blocks@.len(),
            result@.len() == visible_entries(blocks@.take(index as int)).len(),
            forall|i: int| 0 <= i < result@.len() ==> (#[trigger] result@[i]).0 == visible_entries(blocks@.take(index as int))[i].0
                && result@[i].1@ == visible_entries(blocks@.take(index as int))[i].1,
        decreases blocks.len() - index,
    {
        let block = &blocks[index];
        proof {
            assert(blocks@.take(index + 1).drop_last() =~= blocks@.take(index as int));
            assert(blocks@.take(index + 1).last() == *block);
        }
        if !block.html.as_str().is_empty() {
            result.push((block.id, block.html.clone()));
        }
        index += 1;
    }
    proof {
        assert(blocks@.take(blocks@.len() as int) =~= blocks@);
    }
    result
}

/// Whether some entry has identity `id`.
fn entries_have(entries: &Vec<(u64, String)>, id: u64, Ghost(view): Ghost<Seq<(u64, Seq<char>)>>) -> (r: bool)
    requires
        entries@.len() == view.len(),
        forall|i: int| 0 <= i < view.len() ==> (#[trigger] entries@[i]).0 == view[i].0,
    ensures
        r == has_id(view, id),
{
    let mut index: usize = 0;
    while index < entries.len()
        invariant
            entries@.len() == view.len(),
            forall|i: int| 0 <= i < view.len() ==> (#[trigger] entries@[i]).0 == view[i].0,
            index <= view.len(),
            forall|i: int| 0 <= i < index ==> (#[trigger] view[i]).0 != id,
        decreases entries.len() - index,
    {
        if entries[index].0 == id {
            proof {
                assert(view[index as int].0 == id);
            }
            return true;
        }
        index += 1;
    }
    false
}

/// Whether the last entry with identity `id` has HTML `html`.
fn entry_html_is(entries: &Vec<(u64, String)>, id: u64, html: &String, Ghost(view): Ghost<Seq<(u64, Seq<char>)>>) -> (r: bool)
    requires
        entries@.len() == view.len(),
        forall|i: int| 0 <= i < view.len() ==> (#[trigger] entries@[i]).0 == view[i].0 && entries@[i].1@ == view[i].1,
    ensures
        r == (html_of(view, id) == Some(html@)),
{
    let mut index: usize = entries.len();
    proof {
        assert(view.take(view.len() as int) =~= view);
    }
    while index > 0
        invariant
            entries@.len() == view.len(),
            forall|i: int| 0 <= i < view.len() ==> (#[trigger] entries@[i]).0 == view[i].0 && entries@[i].1@ == view[i].1,
            index <= view.len(),
            html_of(view, id) == html_of(view.take(index as int), id),
        decreases index,
    {
        proof {
            assert(view.take(index as int).drop_last() =~= view.take(index - 1));
            assert(view.take(index as int).last() == view[index - 1]);
        }
        if entries[index - 1].0 == id {
            return entries[index - 1].1 == *html;
        }
        index -= 1;
    }
    false
}

/// Patches that turn the visible blocks of `old` into those of `new`; the
/// first inserted block goes after block `after`, or first.
pub fn diff_interval(old: &[Block], new: &[Block], after: Option<u64>) -> (r: Vec<Patch>)
    ensures
        r@.len() == spec_diff(old@, new@, after).len(),
        forall|i: int| 0 <= i < r@.len() ==> patch_is(#[trigger] r@[i], spec_diff(old@, new@, after)[i]),
{
    let ghost ov = visible_entries(old@);
    let ghost nv = visible_entries(new@);
    let old_entries = visible_of(old);
    let new_entries = visible_of(new);
    let mut patches: Vec<Patch> = Vec::new();
    let mut index: usize = 0;
    while index < old_entries.len()
        invariant
            ov == visible_entries(old@),
            nv == visible_entries(new@),
            old_entries@.len() == ov.len(),
            forall|i: int| 0 <= i < ov.len() ==> (#[trigger] old_entries@[i]).0 == ov[i].0 && old_entries@[i].1@ == ov[i].1,
            new_entries@.len() == nv.len(),
            forall|i: int| 0 <= i < nv.len() ==> (#[trigger] new_entries@[i]).0 == nv[i].0 && new_entries@[i].1@ == nv[i].1,
            index <= ov.len(),
            patches@.len() == removals(ov.take(index as int), nv).len(),
            forall|i: int| 0 <= i < patches@.len() ==> patch_is(#[trigger] patches@[i], removals(ov.take(index as int), nv)[i]),
        decreases old_entries.len() - index,
    {
        proof {
            assert(ov.take(index + 1).drop_last() =~= ov.take(index as int));
            assert(ov.take(index + 1).last() == ov[index as int]);
        }
        let id = old_entries[index].0;
        if !entries_have(&new_entries, id, Ghost(nv)) {
            patches.push(Patch::Remove { id: block_id_string(id) });
        }
        index += 1;
    }
    proof {
        assert(ov.take(ov.len() as int) =~= ov);
    }
    let ghost removed = patches@.len();
    let mut previous: Option<u64> = after;
    let mut k: usize = 0;
    while k < new_entries.len()
        invariant
            ov == visible_entries(old@),
            nv == visible_entries(new@),
            old_entries@.len() == ov.len(),
            forall|i: int| 0 <= i < ov.len() ==> (#[trigger] old_entries@[i]).0 == ov[i].0 && old_entries@[i].1@ == ov[i].1,
            new_entries@.len() == nv.len(),
            forall|i: int| 0 <= i < nv.len() ==> (#[trigger] new_entries@[i]).0 == nv[i].0 && new_entries@[i].1@ == nv[i].1,
            k <= nv.len(),
            removed == removals(ov, nv).len(),
            previous == if k == 0 { after } else { Some(nv[k - 1].0) },
            patches@.len() == removed + writes(ov, nv.take(k as int), after).len(),
            forall|i: int| 0 <= i < removed ==> patch_is(#[trigger] patches@[i], removals(ov, nv)[i]),
            forall|i: int| removed <= i < patches@.len() ==> patch_is(#[trigger] patches@[i], writes(ov, nv.take(k as int), after)[i - removed]),
        decreases new_entries.len() - k,
    {
        let ghost before = patches@;
        proof {
            assert(nv.take(k + 1).drop_last() =~= nv.take(k as int));
            assert(nv.take(k + 1).last() == nv[k as int]);
            if k > 0 {
                assert(nv.take(k + 1)[k - 1] == nv[k - 1]);
            }
        }
        let id = new_entries[k].0;
        if !entries_have(&old_entries, id, Ghost(ov)) {
            let after_id = match previous {
                Some(p) => Some(block_id_string(p)),
                None => None,
            };
            patches.push(Patch::InsertAfter { after: after_id, id: block_id_string(id), html: new_entries[k].1.clone() });
        } else if !entry_html_is(&old_entries, id, &new_entries[k].1, Ghost(ov)) {
            patches.push(Patch::Replace { id: block_id_string(id), html: new_entries[k].1.clone() });
        }
        proof {
            let w = writes(ov, nv.take(k + 1), after);
            assert(w == writes(ov, nv.take(k as int), after) + write_of(ov, nv[k as int], previous));
            assert forall|i: int| removed <= i < patches@.len() implies patch_is(#[trigger] patches@[i], w[i - removed]) by {
                if i < before.len() {
                    assert(patches@[i] == before[i]);
                }
            }
            assert forall|i: int| 0 <= i < removed implies patch_is(#[trigger] patches@[i], removals(ov, nv)[i]) by {
                assert(patches@[i] == before[i]);
            }
        }
        previous = Some(id);
        k += 1;
    }
    proof {
        assert(nv.take(nv.len() as int) =~= nv);
        let d = spec_diff(old@, new@, after);
        assert forall|i: int| 0 <= i < patches@.len() implies patch_is(#[trigger] patches@[i], d[i]) by {
            if i < removed {
                assert(d[i] == removals(ov, nv)[i]);
            } else {
                assert(d[i] == writes(ov, nv, after)[i - removed]);
            }
        }
    }
    patches
}

/// Patches that turn the visible blocks of `old` into those of `new`.
pub fn diff_blocks(old: &[Block], new: &[Block]) -> (r: Vec<Patch>)
    ensures
        r@.len() == spec_diff(old@, new@, None).len(),
        forall|i: int| 0 <= i < r@.len() ==> patch_is(#[trigger] r@[i], spec_diff(old@, new@, None)[i]),
{
    diff_interval(old, new, None)
}

/// `list` without the entries with identity `id`.
pub open spec fn remove_id(list: Seq<(u64, Seq<char>)>, id: u64) -> Seq<(u64, Seq<char>)>
    decreases list.len(),
{
    if list.len() == 0 {
        list
    } else {
        let kept = remove_id(list.drop_last(), id);
        if list.last().0 == id { kept } else { kept.push(list.last()) }
    }
}

/// `list` with the HTML of the entries with identity `id` replaced.
pub open spec fn replace_id(list: Seq<(u64, Seq<char>)>, id: u64, html: Seq<char>) -> Seq<(u64, Seq<char>)> {
    Seq::new(list.len(), |i: int| if list[i].0 == id { (id, html) } else { list[i] })
}

/// The index of the first entry with identity `id`.
pub open spec fn first_index(list: Seq<(u64, Seq<char>)>, id: u64) -> int
    decreases list.len(),
{
    if list.len() == 0 || list[0].0 == id {
        0
    } else {
        1 + first_index(list.drop_first(), id)
    }
}

/// `list` with `entry` inserted after the first entry with identity
/// `after`, first when `after` is `None`, last when no entry has it.
pub open spec fn insert_after(list: Seq<(u64, Seq<char>)>, after: Option<u64>, entry: (u64, Seq<char>)) -> Seq<(u64, Seq<char>)> {
    match after {
        None => seq![entry] + list,
        Some(a) => if has_id(list, a) {
            let k = first_index(list, a);
            list.take(k + 1) + seq![entry] + list.skip(k + 1)
        } else {
            list.push(entry)
        },
    }
}

/// The block list after patch `p`.
pub open spec fn apply_patch(list: Seq<(u64, Seq<char>)>, p: PatchView) -> Seq<(u64, Seq<char>)> {
    match p {
        PatchView::Replace { id, html } => replace_id(list, id, html),
        PatchView::InsertAfter { after, id, html } => insert_after(list, after, (id, html)),
        PatchView::Remove { id } => remove_id(list, id),
    }
}

/// The block list after patches `ps`, in order.
pub open spec fn apply_patches(list: Seq<(u64, Seq<char>)>, ps: Seq<PatchView>) -> Seq<(u64, Seq<char>)>
    decreases ps.len(),
{
    if ps.len() == 0 {
        list
    } else {
        apply_patch(apply_patches(list, ps.drop_last()), ps.last())
    }
}

/// No two entries share an identity.
pub open spec fn unique_ids(list: Seq<(u64, Seq<char>)>) -> bool {
    forall|i: int, j: int| 0 <= i < j < list.len() ==> (#[trigger] list[i]).0 != (#[trigger] list[j]).0
}

/// Identities that `old` and `new` share come in the same order in both.
pub open spec fn same_order(old: Seq<(u64, Seq<char>)>, new: Seq<(u64, Seq<char>)>) -> bool {
    forall|i1: int, i2: int, j1: int, j2: int|
        0 <= i1 < i2 < old.len() && 0 <= j1 < new.len() && 0 <= j2 < new.len()
            && (#[trigger] old[i1]).0 == (#[trigger] new[j1]).0 && (#[trigger] old[i2]).0 == (#[trigger] new[j2]).0
            ==> j1 < j2
}

/// The entries of `list` whose identity occurs in `present`, in order.
pub open spec fn keep(list: Seq<(u64, Seq<char>)>, present: Seq<(u64, Seq<char>)>) -> Seq<(u64, Seq<char>)>
    decreases list.len(),
{
    if list.len() == 0 {
        list
    } else {
        let kept = keep(list.drop_last(), present);
        if has_id(present, list.last().0) { kept.push(list.last()) } else { kept }
    }
}

/// Patches `a` then patches `b`.
proof fn lemma_apply_patches_concat(list: Seq<(u64, Seq<char>)>, a: Seq<PatchView>, b: Seq<PatchView>)
    ensures
        apply_patches(list, a + b) == apply_patches(apply_patches(list, a), b),
    decreases b.len(),
{
    if b.len() == 0 {
        assert(a + b =~= a);
    } else {
        assert((a + b).drop_last() =~= a + b.drop_last());
        assert((a + b).last() == b.last());
        lemma_apply_patches_concat(list, a, b.drop_last());
    }
}

/// Removing from a concatenation removes from each part.
proof fn lemma_remove_id_concat(a: Seq<(u64, Seq<char>)>, b: Seq<(u64, Seq<char>)>, id: u64)
    ensures
        remove_id(a + b, id) == remove_id(a, id) + remove_id(b, id),
    decreases b.len(),
{
    if b.len() == 0 {
        assert(a + b =~= a);
        assert(remove_id(a, id) + remove_id(b, id) =~= remove_id(a, id));
    } else {
        assert((a + b).drop_last() =~= a + b.drop_last());
        assert((a + b).last() == b.last());
        lemma_remove_id_concat(a, b.drop_last(), id);
        let l = remove_id(a, id);
        let r = remove_id(b.drop_last(), id);
        assert((l + r).push(b.last()) =~= l + r.push(b.last()));
    }
}

/// Removing an identity that does not occur changes nothing.
proof fn lemma_remove_id_absent(list: Seq<(u64, Seq<char>)>, id: u64)
    requires
        !has_id(list, id),
    ensures
        remove_id(list, id) == list,
    decreases list.len(),
{
    if list.len() > 0 {
        assert(!has_id(list.drop_last(), id)) by {
            if has_id(list.drop_last(), id) {
                let i = choose|i: int| 0 <= i < list.drop_last().len() && (#[trigger] list.drop_last()[i]).0 == id;
                assert(list[i] == list.drop_last()[i]);
            }
        }
        lemma_remove_id_absent(list.drop_last(), id);
        assert(list.last() == list[list.len() - 1]);
        assert(list.drop_last().push(list.last()) =~= list);
    }
}

/// Keeping from a concatenation keeps from each part.
proof fn lemma_keep_concat(a: Seq<(u64, Seq<char>)>, b: Seq<(u64, Seq<char>)>, present: Seq<(u64, Seq<char>)>)
    ensures
        keep(a + b, present) == keep(a, present) + keep(b, present),
    decreases b.len(),
{
    if b.len() == 0 {
        assert(a + b =~= a);
        assert(keep(a, present) + keep(b, present) =~= keep(a, present));
    } else {
        assert((a + b).drop_last() =~= a + b.drop_last());
        assert((a + b).last() == b.last());
        lemma_keep_concat(a, b.drop_last(), present);
        let l = keep(a, present);
        let r = keep(b.drop_last(), present);
        assert((l + r).push(b.last()) =~= l + r.push(b.last()));
    }
}

/// Keeping with no identity present keeps nothing.
proof fn lemma_keep_none(list: Seq<(u64, Seq<char>)>, present: Seq<(u64, Seq<char>)>)
    requires
        forall|i: int| 0 <= i < list.len() ==> !has_id(present, (#[trigger] list[i]).0),
    ensures
        keep(list, present) == Seq::<(u64, Seq<char>)>::empty(),
    decreases list.len(),
{
    if list.len() > 0 {
        assert forall|i: int| 0 <= i < list.drop_last().len() implies !has_id(present, (#[trigger] list.drop_last()[i]).0) by {
            assert(list.drop_last()[i] == list[i]);
        }
        lemma_keep_none(list.drop_last(), present);
        assert(list.last() == list[list.len() - 1]);
    }
}

/// Keeping depends only on which identities of the list are present.
proof fn lemma_keep_congruent(list: Seq<(u64, Seq<char>)>, p: Seq<(u64, Seq<char>)>, q: Seq<(u64, Seq<char>)>)
    requires
        forall|i: int| 0 <= i < list.len() ==> has_id(p, (#[trigger] list[i]).0) == has_id(q, list[i].0),
    ensures
        keep(list, p) == keep(list, q),
    decreases list.len(),
{
    if list.len() > 0 {
        assert forall|i: int| 0 <= i < list.drop_last().len() implies has_id(p, (#[trigger] list.drop_last()[i]).0) == has_id(q, list.drop_last()[i].0) by {
            assert(list.drop_last()[i] == list[i]);
        }
        lemma_keep_congruent(list.drop_last(), p, q);
        assert(list.last() == list[list.len() - 1]);
    }
}

/// Kept entries have present identities.
proof fn lemma_keep_present(list: Seq<(u64, Seq<char>)>, present: Seq<(u64, Seq<char>)>)
    ensures
        forall|m: int| 0 <= m < keep(list, present).len() ==> has_id(present, (#[trigger] keep(list, present)[m]).0),
    decreases list.len(),
{
    if list.len() > 0 {
        lemma_keep_present(list.drop_last(), present);
        let kept = keep(list.drop_last(), present);
        assert forall|m: int| 0 <= m < keep(list, present).len() implies has_id(present, (#[trigger] keep(list, present)[m]).0) by {
            if m < kept.len() {
                assert(keep(list, present)[m] == kept[m]);
            }
        }
    }
}

/// After the removals for the first `k` old entries, the kept ones among
/// them are followed by the untouched rest.
proof fn lemma_removals_stage(old: Seq<(u64, Seq<char>)>, new: Seq<(u64, Seq<char>)>, k: int)
    requires
        unique_ids(old),
        0 <= k <= old.len(),
    ensures
        apply_patches(old, removals(old.take(k), new)) == keep(old.take(k), new) + old.skip(k),
    decreases k,
{
    if k == 0 {
        assert(old.take(0) =~= Seq::<(u64, Seq<char>)>::empty());
        assert(old.skip(0) =~= old);
        assert(keep(old.take(0), new) + old.skip(0) =~= old);
    } else {
        let t = old.take(k);
        let before = old.take(k - 1);
        assert(t.drop_last() =~= before);
        assert(t.last() == old[k - 1]);
        lemma_removals_stage(old, new, k - 1);
        let e = old[k - 1];
        assert(old.skip(k - 1) =~= seq![e] + old.skip(k));
        let kept = keep(before, new);
        if has_id(new, e.0) {
            assert(removals(t, new) == removals(before, new));
            assert(keep(t, new) == kept.push(e));
            assert(kept + old.skip(k - 1) =~= kept.push(e) + old.skip(k));
        } else {
            let rs = removals(t, new);
            assert(rs == removals(before, new).push(PatchView::Remove { id: e.0 }));
            assert(rs.drop_last() =~= removals(before, new));
            assert(keep(t, new) == kept);
            let l = kept + seq![e] + old.skip(k);
            assert(kept + old.skip(k - 1) =~= l);
            lemma_remove_id_concat(kept + seq![e], old.skip(k), e.0);
            lemma_remove_id_concat(kept, seq![e], e.0);
            lemma_keep_present(before, new);
            assert(!has_id(kept, e.0)) by {
                if has_id(kept, e.0) {
                    let m = choose|m: int| 0 <= m < kept.len() && (#[trigger] kept[m]).0 == e.0;
                    assert(has_id(new, kept[m].0));
                }
            }
            lemma_remove_id_absent(kept, e.0);
            assert(!has_id(old.skip(k), e.0)) by {
                if has_id(old.skip(k), e.0) {
                    let m = choose|m: int| 0 <= m < old.skip(k).len() && (#[trigger] old.skip(k)[m]).0 == e.0;
                    assert(old.skip(k)[m] == old[k + m]);
                    assert(old[k - 1].0 != old[k + m].0);
                }
            }
            lemma_remove_id_absent(old.skip(k), e.0);
            assert(remove_id(seq![e], e.0) =~= Seq::<(u64, Seq<char>)>::empty()) by {
                assert(seq![e].drop_last() =~= Seq::<(u64, Seq<char>)>::empty());
                assert(seq![e].last() == e);
                assert(remove_id(seq![e].drop_last(), e.0) =~= Seq::<(u64, Seq<char>)>::empty());
            }
            assert(remove_id(l, e.0) =~= kept + old.skip(k));
        }
    }
}

/// The first entry with identity `id` is at `m` when none before it has it.
proof fn lemma_first_index(list: Seq<(u64, Seq<char>)>, id: u64, m: int)
    requires
        0 <= m < list.len(),
        list[m].0 == id,
        forall|j: int| 0 <= j < m ==> (#[trigger] list[j]).0 != id,
    ensures
        first_index(list, id) == m,
    decreases m,
{
    if m > 0 {
        assert(list[0].0 != id);
        assert forall|j: int| 0 <= j < m - 1 implies (#[trigger] list.drop_first()[j]).0 != id by {
            assert(list.drop_first()[j] == list[j + 1]);
        }
        assert(list.drop_first()[m - 1] == list[m]);
        lemma_first_index(list.drop_first(), id, m - 1);
    }
}

/// With unique identities, the HTML of an identity is that of its entry.
proof fn lemma_html_of_unique(list: Seq<(u64, Seq<char>)>, i: int)
    requires
        unique_ids(list),
        0 <= i < list.len(),
    ensures
        html_of(list, list[i].0) == Some(list[i].1),
    decreases list.len(),
{
    if i < list.len() - 1 {
        assert(list.last() == list[list.len() - 1]);
        assert(list[i].0 != list[list.len() - 1].0);
        assert(list.drop_last()[i] == list[i]);
        assert forall|a: int, b: int| 0 <= a < b < list.drop_last().len() implies (#[trigger] list.drop_last()[a]).0 != (#[trigger] list.drop_last()[b]).0 by {
            assert(list.drop_last()[a] == list[a] && list.drop_last()[b] == list[b]);
        }
        lemma_html_of_unique(list.drop_last(), i);
    }
}

/// `present` with its first entry dropped has an identity exactly when the
/// identity differs from that entry's and `present` has it.
proof fn lemma_has_id_skip(new: Seq<(u64, Seq<char>)>, k: int, id: u64)
    requires
        0 <= k < new.len(),
        id != new[k].0,
    ensures
        has_id(new.skip(k), id) == has_id(new.skip(k + 1), id),
{
    if has_id(new.skip(k), id) {
        let j = choose|j: int| 0 <= j < new.skip(k).len() && (#[trigger] new.skip(k)[j]).0 == id;
        assert(new.skip(k)[j] == new[k + j]);
        assert(j != 0);
        assert(new.skip(k + 1)[j - 1] == new[k + j]);
    }
    if has_id(new.skip(k + 1), id) {
        let j = choose|j: int| 0 <= j < new.skip(k + 1).len() && (#[trigger] new.skip(k + 1)[j]).0 == id;
        assert(new.skip(k + 1)[j] == new[k + 1 + j]);
        assert(new.skip(k)[j + 1] == new[k + 1 + j]);
    }
}

/// An identity of `new` at `k` does not occur later in `new`.
proof fn lemma_not_later(new: Seq<(u64, Seq<char>)>, k: int)
    requires
        unique_ids(new),
        0 <= k < new.len(),
    ensures
        !has_id(new.skip(k + 1), new[k].0),
{
    if has_id(new.skip(k + 1), new[k].0) {
        let j = choose|j: int| 0 <= j < new.skip(k + 1).len() && (#[trigger] new.skip(k + 1)[j]).0 == new[k].0;
        assert(new.skip(k + 1)[j] == new[k + 1 + j]);
    }
}

/// Old entries before `i`, the entry for `new[k]`, have no identity from
/// `new` at or after `k`.
proof fn lemma_none_before(old: Seq<(u64, Seq<char>)>, new: Seq<(u64, Seq<char>)>, k: int, i: int, from: int)
    requires
        unique_ids(old),
        same_order(old, new),
        0 <= k <= from <= new.len(),
        0 <= i < old.len(),
        k < new.len(),
        old[i].0 == new[k].0,
    ensures
        keep(old.take(i), new.skip(from)) == Seq::<(u64, Seq<char>)>::empty(),
{
    assert forall|m: int| 0 <= m < old.take(i).len() implies !has_id(new.skip(from), (#[trigger] old.take(i)[m]).0) by {
        assert(old.take(i)[m] == old[m]);
        if has_id(new.skip(from), old[m].0) {
            let j = choose|j: int| 0 <= j < new.skip(from).len() && (#[trigger] new.skip(from)[j]).0 == old[m].0;
            assert(new.skip(from)[j] == new[from + j]);
            if from + j == k {
                assert(old[m].0 != old[i].0);
            } else {
                assert(old[m].0 == new[from + j].0 && old[i].0 == new[k].0);
            }
        }
    }
    lemma_keep_none(old.take(i), new.skip(from));
}

/// The old entries still to come, when `new[k]` is old entry `i`: that
/// entry, then those still to come after `k`.
proof fn lemma_keep_step_common(old: Seq<(u64, Seq<char>)>, new: Seq<(u64, Seq<char>)>, k: int, i: int)
    requires
        unique_ids(old),
        unique_ids(new),
        same_order(old, new),
        0 <= k < new.len(),
        0 <= i < old.len(),
        old[i].0 == new[k].0,
    ensures
        keep(old, new.skip(k)) == seq![old[i]] + keep(old, new.skip(k + 1)),
{
    let a = old.take(i);
    let b = old.skip(i + 1);
    assert(old =~= a + seq![old[i]] + b);
    lemma_keep_concat(a + seq![old[i]], b, new.skip(k));
    lemma_keep_concat(a, seq![old[i]], new.skip(k));
    lemma_keep_concat(a + seq![old[i]], b, new.skip(k + 1));
    lemma_keep_concat(a, seq![old[i]], new.skip(k + 1));
    lemma_none_before(old, new, k, i, k);
    lemma_none_before(old, new, k, i, k + 1);
    assert(new.skip(k)[0] == new[k]);
    assert(has_id(new.skip(k), old[i].0));
    assert(seq![old[i]].drop_last() =~= Seq::<(u64, Seq<char>)>::empty());
    assert(seq![old[i]].last() == old[i]);
    assert(keep(seq![old[i]].drop_last(), new.skip(k)) == seq![old[i]].drop_last());
    assert(keep(seq![old[i]].drop_last(), new.skip(k + 1)) == seq![old[i]].drop_last());
    assert(keep(seq![old[i]], new.skip(k)) =~= seq![old[i]]);
    lemma_not_later(new, k);
    assert(keep(seq![old[i]], new.skip(k + 1)) =~= Seq::<(u64, Seq<char>)>::empty());
    assert forall|m: int| 0 <= m < b.len() implies has_id(new.skip(k), (#[trigger] b[m]).0) == has_id(new.skip(k + 1), b[m].0) by {
        assert(b[m] == old[i + 1 + m]);
        assert(old[i].0 != old[i + 1 + m].0);
        lemma_has_id_skip(new, k, b[m].0);
    }
    lemma_keep_congruent(b, new.skip(k), new.skip(k + 1));
    assert(Seq::<(u64, Seq<char>)>::empty() + seq![old[i]] + keep(b, new.skip(k)) =~= seq![old[i]] + (Seq::<(u64, Seq<char>)>::empty() + Seq::<(u64, Seq<char>)>::empty() + keep(b, new.skip(k + 1))));
}

/// The old entries still to come do not change at a new entry that is not
/// old.
proof fn lemma_keep_step_fresh(old: Seq<(u64, Seq<char>)>, new: Seq<(u64, Seq<char>)>, k: int)
    requires
        0 <= k < new.len(),
        !has_id(old, new[k].0),
    ensures
        keep(old, new.skip(k)) == keep(old, new.skip(k + 1)),
{
    assert forall|m: int| 0 <= m < old.len() implies has_id(new.skip(k), (#[trigger] old[m]).0) == has_id(new.skip(k + 1), old[m].0) by {
        lemma_has_id_skip(new, k, old[m].0);
    }
    lemma_keep_congruent(old, new.skip(k), new.skip(k + 1));
}

/// One patch applied as a sequence of one.
proof fn lemma_apply_one(list: Seq<(u64, Seq<char>)>, p: PatchView)
    ensures
        apply_patches(list, seq![p]) == apply_patch(list, p),
        apply_patches(list, Seq::<PatchView>::empty()) == list,
{
    assert(seq![p].drop_last() =~= Seq::<PatchView>::empty());
    assert(seq![p].last() == p);
    assert(apply_patches(list, seq![p].drop_last()) == list);
}

/// After the writes for the first `k` new entries, those entries are
/// followed by the old entries still to come.
proof fn lemma_writes_stage(old: Seq<(u64, Seq<char>)>, new: Seq<(u64, Seq<char>)>, k: int)
    requires
        unique_ids(old),
        unique_ids(new),
        same_order(old, new),
        0 <= k <= new.len(),
    ensures
        apply_patches(keep(old, new), writes(old, new.take(k), None)) == new.take(k) + keep(old, new.skip(k)),
    decreases k,
{
    if k == 0 {
        assert(new.take(0) =~= Seq::<(u64, Seq<char>)>::empty());
        assert(new.skip(0) =~= new);
        assert(new.take(0) + keep(old, new.skip(0)) =~= keep(old, new));
    } else {
        let j = k - 1;
        lemma_writes_stage(old, new, j);
        let t = new.take(k);
        assert(t.drop_last() =~= new.take(j));
        assert(t.last() == new[j]);
        let e = new[j];
        let previous = if j > 0 { Some(new[j - 1].0) } else { None };
        if j > 0 {
            assert(t[t.len() - 2] == new[j - 1]);
        }
        let wo = write_of(old, e, previous);
        assert(writes(old, t, None) == writes(old, new.take(j), None) + wo);
        lemma_apply_patches_concat(keep(old, new), writes(old, new.take(j), None), wo);
        let rest = keep(old, new.skip(j));
        let list = new.take(j) + rest;
        lemma_apply_one(list, PatchView::Remove { id: 0 });
        if !has_id(old, e.0) {
            lemma_apply_one(list, PatchView::InsertAfter { after: previous, id: e.0, html: e.1 });
            lemma_keep_step_fresh(old, new, j);
            if j > 0 {
                assert(list[j - 1] == new[j - 1]);
                assert forall|q: int| 0 <= q < j - 1 implies (#[trigger] list[q]).0 != new[j - 1].0 by {
                    assert(list[q] == new[q]);
                }
                lemma_first_index(list, new[j - 1].0, j - 1);
                assert(list.take(j) =~= new.take(j));
                assert(list.skip(j) =~= rest);
            }
            assert(new.take(k) =~= new.take(j) + seq![e]);
            assert(apply_patch(list, PatchView::InsertAfter { after: previous, id: e.0, html: e.1 }) =~= new.take(k) + keep(old, new.skip(k)));
        } else {
            let i = choose|i: int| 0 <= i < old.len() && (#[trigger] old[i]).0 == e.0;
            lemma_keep_step_common(old, new, j, i);
            lemma_html_of_unique(old, i);
            let later = keep(old, new.skip(k));
            assert(rest == seq![old[i]] + later);
            assert(new.take(k) =~= new.take(j) + seq![e]);
            if old[i].1 != e.1 {
                lemma_apply_one(list, PatchView::Replace { id: e.0, html: e.1 });
                lemma_keep_present(old, new.skip(k));
                lemma_not_later(new, j);
                let replaced = replace_id(list, e.0, e.1);
                assert forall|q: int| 0 <= q < list.len() implies #[trigger] replaced[q] == (new.take(k) + later)[q] by {
                    if q < j {
                        assert(list[q] == new[q]);
                        assert(new[q].0 != new[j].0);
                    } else if q == j {
                        assert(list[q] == old[i]);
                    } else {
                        assert(list[q] == later[q - k]);
                        assert(has_id(new.skip(k), later[q - k].0));
                        assert(later[q - k].0 != e.0);
                    }
                }
                assert(replaced =~= new.take(k) + later);
            } else {
                assert(old[i] == e);
                assert(list =~= new.take(k) + later);
            }
        }
    }
}

/// The visible entries of a concatenation are those of each part.
proof fn lemma_visible_concat(a: Seq<Block>, b: Seq<Block>)
    ensures
        visible_entries(a + b) == visible_entries(a) + visible_entries(b),
    decreases b.len(),
{
    if b.len() == 0 {
        assert(a + b =~= a);
        assert(visible_entries(a) + visible_entries(b) =~= visible_entries(a));
    } else {
        assert((a + b).drop_last() =~= a + b.drop_last());
        assert((a + b).last() == b.last());
        lemma_visible_concat(a, b.drop_last());
        if b.last().html@.len() > 0 {
            assert(visible_entries(a) + visible_entries(b.drop_last()).push((b.last().id, b.last().html@))
                =~= (visible_entries(a) + visible_entries(b.drop_last())).push((b.last().id, b.last().html@)));
        }
    }
}

/// Blocks that agree in identity and HTML have the same visible entries.
proof fn lemma_visible_congruent(a: Seq<Block>, b: Seq<Block>)
    requires
        a.len() == b.len(),
        forall|i: int| 0 <= i < a.len() ==> (#[trigger] a[i]).id == b[i].id && a[i].html@ == b[i].html@,
    ensures
        visible_entries(a) == visible_entries(b),
    decreases a.len(),
{
    if a.len() > 0 {
        assert(a.last() == a[a.len() - 1]);
        lemma_visible_congruent(a.drop_last(), b.drop_last());
    }
}

/// Removals for a concatenation of old entries.
proof fn lemma_removals_concat(a: Seq<(u64, Seq<char>)>, b: Seq<(u64, Seq<char>)>, new: Seq<(u64, Seq<char>)>)
    ensures
        removals(a + b, new) == removals(a, new) + removals(b, new),
    decreases b.len(),
{
    if b.len() == 0 {
        assert(a + b =~= a);
        assert(removals(a, new) + removals(b, new) =~= removals(a, new));
    } else {
        assert((a + b).drop_last() =~= a + b.drop_last());
        lemma_removals_concat(a, b.drop_last(), new);
        if !has_id(new, b.last().0) {
            assert(removals(a, new) + removals(b.drop_last(), new).push(PatchView::Remove { id: b.last().0 })
                =~= (removals(a, new) + removals(b.drop_last(), new)).push(PatchView::Remove { id: b.last().0 }));
        }
    }
}

/// Removals depend only on which old identities the new entries have.
proof fn lemma_removals_same(a: Seq<(u64, Seq<char>)>, w: Seq<(u64, Seq<char>)>, n: Seq<(u64, Seq<char>)>)
    requires
        forall|i: int| 0 <= i < a.len() ==> has_id(w, (#[trigger] a[i]).0) == has_id(n, a[i].0),
    ensures
        removals(a, w) == removals(a, n),
    decreases a.len(),
{
    if a.len() > 0 {
        assert(a.last() == a[a.len() - 1]);
        lemma_removals_same(a.drop_last(), w, n);
    }
}

/// No removals when every old entry keeps its identity.
proof fn lemma_removals_none(a: Seq<(u64, Seq<char>)>, new: Seq<(u64, Seq<char>)>)
    requires
        forall|i: int| 0 <= i < a.len() ==> has_id(new, (#[trigger] a[i]).0),
    ensures
        removals(a, new) == Seq::<PatchView>::empty(),
    decreases a.len(),
{
    if a.len() > 0 {
        assert(a.last() == a[a.len() - 1]);
        lemma_removals_none(a.drop_last(), new);
    }
}

/// Writes for a concatenation of new entries: the second part follows the
/// last entry of the first.
proof fn lemma_writes_concat(old: Seq<(u64, Seq<char>)>, a: Seq<(u64, Seq<char>)>, b: Seq<(u64, Seq<char>)>, after: Option<u64>)
    ensures
        writes(old, a + b, after) == writes(old, a, after)
            + writes(old, b, if a.len() > 0 { Some(a.last().0) } else { after }),
    decreases b.len(),
{
    let mid = if a.len() > 0 { Some(a.last().0) } else { after };
    if b.len() == 0 {
        assert(a + b =~= a);
        assert(writes(old, a, after) + writes(old, b, mid) =~= writes(old, a, after));
    } else {
        assert((a + b).drop_last() =~= a + b.drop_last());
        assert((a + b).last() == b.last());
        lemma_writes_concat(old, a, b.drop_last(), after);
        let ab = a + b;
        let previous = if ab.len() > 1 { Some(ab[ab.len() - 2].0) } else { after };
        let previous_b = if b.len() > 1 { Some(b[b.len() - 2].0) } else { mid };
        if b.len() > 1 {
            assert(ab[ab.len() - 2] == b[b.len() - 2]);
        } else if a.len() > 0 {
            assert(ab[ab.len() - 2] == a.last());
        }
        assert(previous == previous_b);
        assert(writes(old, a, after) + (writes(old, b.drop_last(), mid) + write_of(old, b.last(), previous_b))
            =~= (writes(old, a, after) + writes(old, b.drop_last(), mid)) + write_of(old, b.last(), previous_b));
    }
}

/// Writes depend only on whether, and with which HTML, the old entries
/// have each new identity.
proof fn lemma_writes_same(o: Seq<(u64, Seq<char>)>, m: Seq<(u64, Seq<char>)>, n: Seq<(u64, Seq<char>)>, after: Option<u64>)
    requires
        forall|i: int| 0 <= i < n.len() ==> has_id(o, (#[trigger] n[i]).0) == has_id(m, n[i].0)
            && html_of(o, n[i].0) == html_of(m, n[i].0),
    ensures
        writes(o, n, after) == writes(m, n, after),
    decreases n.len(),
{
    if n.len() > 0 {
        assert(n.last() == n[n.len() - 1]);
        assert forall|i: int| 0 <= i < n.drop_last().len() implies has_id(o, (#[trigger] n.drop_last()[i]).0) == has_id(m, n.drop_last()[i].0)
            && html_of(o, n.drop_last()[i].0) == html_of(m, n.drop_last()[i].0) by {
            assert(n.drop_last()[i] == n[i]);
        }
        lemma_writes_same(o, m, n.drop_last(), after);
    }
}

/// No writes when every new entry is an old one, unchanged.
proof fn lemma_writes_none(old: Seq<(u64, Seq<char>)>, a: Seq<(u64, Seq<char>)>, after: Option<u64>)
    requires
        forall|i: int| 0 <= i < a.len() ==> has_id(old, (#[trigger] a[i]).0) && html_of(old, a[i].0) == Some(a[i].1),
    ensures
        writes(old, a, after) == Seq::<PatchView>::empty(),
    decreases a.len(),
{
    if a.len() > 0 {
        assert(a.last() == a[a.len() - 1]);
        assert forall|i: int| 0 <= i < a.drop_last().len() implies has_id(old, (#[trigger] a.drop_last()[i]).0)
            && html_of(old, a.drop_last()[i].0) == Some(a.drop_last()[i].1) by {
            assert(a.drop_last()[i] == a[i]);
        }
        lemma_writes_none(old, a.drop_last(), after);
    }
}

/// The HTML of an identity in a concatenation: from the second part when
/// it has the identity, else from the first.
proof fn lemma_html_of_concat(a: Seq<(u64, Seq<char>)>, b: Seq<(u64, Seq<char>)>, id: u64)
    ensures
        html_of(a + b, id) == if has_id(b, id) { html_of(b, id) } else { html_of(a, id) },
        !has_id(a, id) ==> html_of(a, id) is None,
    decreases a.len() + b.len(),
{
    if b.len() == 0 {
        assert(a + b =~= a);
    } else {
        assert((a + b).drop_last() =~= a + b.drop_last());
        assert((a + b).last() == b.last());
        lemma_html_of_concat(a, b.drop_last(), id);
        if b.last().0 != id {
            if has_id(b, id) {
                let j = choose|j: int| 0 <= j < b.len() && (#[trigger] b[j]).0 == id;
                assert(b.drop_last()[j] == b[j]);
            }
            if has_id(b.drop_last(), id) {
                let j = choose|j: int| 0 <= j < b.drop_last().len() && (#[trigger] b.drop_last()[j]).0 == id;
                assert(b[j] == b.drop_last()[j]);
            }
        } else {
            assert(b[b.len() - 1].0 == id);
        }
    }
    if a.len() > 0 && !has_id(a, id) {
        assert(a.last() == a[a.len() - 1]);
        assert(!has_id(a.drop_last(), id)) by {
            if has_id(a.drop_last(), id) {
                let j = choose|j: int| 0 <= j < a.drop_last().len() && (#[trigger] a.drop_last()[j]).0 == id;
                assert(a[j] == a.drop_last()[j]);
            }
        }
        lemma_html_of_concat(a.drop_last(), Seq::empty(), id);
        assert(a.drop_last() + Seq::<(u64, Seq<char>)>::empty() =~= a.drop_last());
    }
}

/// The last visible identity of `blocks`.
pub open spec fn last_entry_id(blocks: Seq<Block>) -> Option<u64> {
    let v = visible_entries(blocks);
    if v.len() > 0 { Some(v.last().0) } else { None }
}

/// Diffing an interval of the blocks, the first insertion following the
/// last visible block before it, gives the patches of the whole document
/// when the blocks before and after the interval are kept, with unique
/// identities in the old and in the new document.
pub proof fn lemma_interval_diff(before: Seq<Block>, after: Seq<Block>, si: int, co: int, p: int)
    requires
        0 <= si <= co <= before.len(),
        0 <= p,
        after.len() == si + p + (before.len() - co),
        forall|i: int| 0 <= i < si ==> (#[trigger] after[i]).id == before[i].id && after[i].html@ == before[i].html@,
        forall|j: int| co <= j < before.len() ==> (#[trigger] after[si + p + j - co]).id == before[j].id
            && after[si + p + j - co].html@ == before[j].html@,
        unique_ids(visible_entries(before)),
        unique_ids(visible_entries(after)),
    ensures
        spec_diff(before.subrange(si, co), after.subrange(si, si + p), last_entry_id(before.take(si)))
            == spec_diff(before, after, None),
{
    let pre = before.take(si);
    let mid = before.subrange(si, co);
    let post = before.skip(co);
    let pre2 = after.take(si);
    let rep = after.subrange(si, si + p);
    let post2 = after.skip(si + p);
    assert(before =~= pre + mid + post);
    assert(after =~= pre2 + rep + post2);
    lemma_visible_concat(pre + mid, post);
    lemma_visible_concat(pre, mid);
    lemma_visible_concat(pre2 + rep, post2);
    lemma_visible_concat(pre2, rep);
    assert forall|i: int| 0 <= i < pre.len() implies (#[trigger] pre[i]).id == pre2[i].id && pre[i].html@ == pre2[i].html@ by {
        assert(after[i].id == before[i].id);
    }
    lemma_visible_congruent(pre, pre2);
    assert forall|i: int| 0 <= i < post.len() implies (#[trigger] post[i]).id == post2[i].id && post[i].html@ == post2[i].html@ by {
        assert(post[i] == before[co + i]);
        assert(post2[i] == after[si + p + (co + i) - co]);
    }
    lemma_visible_congruent(post, post2);
    let P = visible_entries(pre);
    let M = visible_entries(mid);
    let S = visible_entries(post);
    let N = visible_entries(rep);
    let O = P + M + S;
    let W = P + N + S;
    assert(visible_entries(before) == O);
    assert(visible_entries(after) == W);
    // Removals: only the interval's entries can go.
    lemma_removals_concat(P + M, S, W);
    lemma_removals_concat(P, M, W);
    assert forall|i: int| 0 <= i < P.len() implies has_id(W, (#[trigger] P[i]).0) by {
        assert(W[i] == P[i]);
    }
    lemma_removals_none(P, W);
    assert forall|i: int| 0 <= i < S.len() implies has_id(W, (#[trigger] S[i]).0) by {
        assert(W[P.len() + N.len() + i] == S[i]);
    }
    lemma_removals_none(S, W);
    assert forall|i: int| 0 <= i < M.len() implies has_id(W, (#[trigger] M[i]).0) == has_id(N, M[i].0) by {
        let id = M[i].0;
        assert(O[P.len() + i] == M[i]);
        if has_id(W, id) {
            let j = choose|j: int| 0 <= j < W.len() && (#[trigger] W[j]).0 == id;
            if j < P.len() {
                assert(O[j] == P[j]);
            } else if j >= P.len() + N.len() {
                assert(O[j - N.len() + M.len()] == S[j - P.len() - N.len()]);
            } else {
                assert(N[j - P.len()] == W[j]);
            }
        }
        if has_id(N, id) {
            let j = choose|j: int| 0 <= j < N.len() && (#[trigger] N[j]).0 == id;
            assert(W[P.len() + j] == N[j]);
        }
    }
    lemma_removals_same(M, W, N);
    assert(removals(O, W) =~= removals(M, N));
    // Writes: only the interval's entries can be written.
    lemma_writes_concat(O, P + N, S, None);
    lemma_writes_concat(O, P, N, None);
    assert forall|i: int| 0 <= i < P.len() implies has_id(O, (#[trigger] P[i]).0) && html_of(O, P[i].0) == Some(P[i].1) by {
        assert(O[i] == P[i]);
        lemma_html_of_unique(O, i);
    }
    lemma_writes_none(O, P, None);
    let after_n = if (P + N).len() > 0 { Some((P + N).last().0) } else { None::<u64> };
    assert forall|i: int| 0 <= i < S.len() implies has_id(O, (#[trigger] S[i]).0) && html_of(O, S[i].0) == Some(S[i].1) by {
        assert(O[P.len() + M.len() + i] == S[i]);
        lemma_html_of_unique(O, P.len() + M.len() + i);
    }
    lemma_writes_none(O, S, after_n);
    assert forall|i: int| 0 <= i < N.len() implies has_id(O, (#[trigger] N[i]).0) == has_id(M, N[i].0)
        && html_of(O, N[i].0) == html_of(M, N[i].0) by {
        let id = N[i].0;
        assert(W[P.len() + i] == N[i]);
        assert(!has_id(P, id)) by {
            if has_id(P, id) {
                let j = choose|j: int| 0 <= j < P.len() && (#[trigger] P[j]).0 == id;
                assert(W[j] == P[j]);
            }
        }
        assert(!has_id(S, id)) by {
            if has_id(S, id) {
                let j = choose|j: int| 0 <= j < S.len() && (#[trigger] S[j]).0 == id;
                assert(W[P.len() + N.len() + j] == S[j]);
            }
        }
        lemma_html_of_concat(P + M, S, id);
        lemma_html_of_concat(P, M, id);
        lemma_html_of_concat(M, S, id);
        if has_id(O, id) {
            let j = choose|j: int| 0 <= j < O.len() && (#[trigger] O[j]).0 == id;
            if j < P.len() {
                assert(O[j] == P[j]);
            } else if j >= P.len() + M.len() {
                assert(O[j] == S[j - P.len() - M.len()]);
            } else {
                assert(O[j] == M[j - P.len()]);
            }
        }
        if has_id(M, id) {
            let j = choose|j: int| 0 <= j < M.len() && (#[trigger] M[j]).0 == id;
            assert(O[P.len() + j] == M[j]);
        }
    }
    let after_p = if P.len() > 0 { Some(P.last().0) } else { None::<u64> };
    lemma_writes_same(O, M, N, after_p);
    assert(writes(O, W, None) =~= writes(M, N, after_p));
    assert(after_p == last_entry_id(pre));
}

/// Applying the patches from `old` to `new` to the visible blocks of `old`
/// gives the visible blocks of `new`, when identities are unique in each and
/// the shared ones keep their order.
pub proof fn lemma_diff_rebuilds(old: Seq<Block>, new: Seq<Block>)
    requires
        unique_ids(visible_entries(old)),
        unique_ids(visible_entries(new)),
        same_order(visible_entries(old), visible_entries(new)),
    ensures
        apply_patches(visible_entries(old), spec_diff(old, new, None)) == visible_entries(new),
{
    let ov = visible_entries(old);
    let nv = visible_entries(new);
    lemma_apply_patches_concat(ov, removals(ov, nv), writes(ov, nv, None));
    lemma_removals_stage(ov, nv, ov.len() as int);
    assert(ov.take(ov.len() as int) =~= ov);
    assert(keep(ov, nv) + ov.skip(ov.len() as int) =~= keep(ov, nv));
    lemma_writes_stage(ov, nv, nv.len() as int);
    assert(nv.take(nv.len() as int) =~= nv);
    lemma_keep_none(ov, nv.skip(nv.len() as int));
    assert(nv + Seq::<(u64, Seq<char>)>::empty() =~= nv);
}

} // verus!
