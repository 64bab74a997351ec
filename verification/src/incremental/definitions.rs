//! Link reference definitions across blocks: which identifiers are defined,
//! with which values, and which changed.

use vstd::prelude::*;
use crate::incremental::blocks::{Block, defs_view};

verus! {

/// The value of the first definition of `key` in `defs`.
pub open spec fn lookup(defs: Seq<(Seq<char>, u64)>, key: Seq<char>) -> Option<u64>
    decreases defs.len(),
{
    if defs.len() == 0 {
        None
    } else {
        match lookup(defs.drop_last(), key) {
            Some(v) => Some(v),
            None => if defs.last().0 == key { Some(defs.last().1) } else { None },
        }
    }
}

/// The first definition of each identifier, in order of first occurrence.
pub open spec fn first_defs(defs: Seq<(Seq<char>, u64)>) -> Seq<(Seq<char>, u64)>
    decreases defs.len(),
{
    if defs.len() == 0 {
        Seq::empty()
    } else {
        let kept = first_defs(defs.drop_last());
        if lookup(kept, defs.last().0) is Some {
            kept
        } else {
            kept.push(defs.last())
        }
    }
}

/// The identifiers of `defs`.
pub open spec fn keys(defs: Seq<(Seq<char>, u64)>) -> Seq<Seq<char>> {
    Seq::new(defs.len(), |i: int| defs[i].0)
}

/// The definitions of blocks `0..k`, in document order.
pub open spec fn all_defs(blocks: Seq<Block>, k: int) -> Seq<(Seq<char>, u64)>
    decreases k,
{
    if k <= 0 || k > blocks.len() {
        Seq::empty()
    } else {
        all_defs(blocks, k - 1) + defs_view(blocks[k - 1].definitions@)
    }
}

/// The strings of `v` as character sequences.
pub open spec fn strings_view(v: Seq<String>) -> Seq<Seq<char>> {
    Seq::new(v.len(), |i: int| v[i]@)
}

/// The value of the first definition of `key` in `defs`.
pub fn find_definition(defs: &Vec<(String, u64)>, key: &String) -> (r: Option<u64>)
    ensures
        r == lookup(defs_view(defs@), key@),
{
    let mut index: usize = 0;
    while index < defs.len()
        invariant
            index <= defs@.len(),
            lookup(defs_view(defs@).take(index as int), key@) is None,
        decreases defs.len() - index,
    {
        proof {
            assert(defs_view(defs@).take(index + 1).drop_last() =~= defs_view(defs@).take(index as int));
        }
        if defs[index].0 == *key {
            proof {
                lemma_lookup_prefix(defs_view(defs@), index + 1, key@);
            }
            return Some(defs[index].1);
        }
        index += 1;
    }
    proof {
        assert(defs_view(defs@).take(defs@.len() as int) =~= defs_view(defs@));
    }
    None
}

/// A definition found in a prefix is the first in the whole sequence.
proof fn lemma_lookup_prefix(defs: Seq<(Seq<char>, u64)>, k: int, key: Seq<char>)
    requires
        0 <= k <= defs.len(),
        lookup(defs.take(k), key) is Some,
    ensures
        lookup(defs, key) == lookup(defs.take(k), key),
    decreases defs.len() - k,
{
    if k < defs.len() {
        assert(defs.take(k + 1).drop_last() =~= defs.take(k));
        lemma_lookup_prefix(defs, k + 1, key);
    } else {
        assert(defs.take(k) =~= defs);
    }
}

/// Appending `defs` to `result`, keeping only identifiers not seen yet.
fn add_first_definitions(result: &mut Vec<(String, u64)>, defs: &Vec<(String, u64)>, Ghost(seen): Ghost<Seq<(Seq<char>, u64)>>)
    requires
        defs_view(old(result)@) == first_defs(seen),
    ensures
        defs_view(final(result)@) == first_defs(seen + defs_view(defs@)),
{
    let mut index: usize = 0;
    while index < defs.len()
        invariant
            index <= defs@.len(),
            defs_view(result@) == first_defs(seen + defs_view(defs@).take(index as int)),
        decreases defs.len() - index,
    {
        let (identifier, value) = &defs[index];
        proof {
            assert((seen + defs_view(defs@).take(index + 1)).drop_last() =~= seen + defs_view(defs@).take(index as int));
            assert((seen + defs_view(defs@).take(index + 1)).last() == (identifier@, *value));
        }
        if find_definition(result, identifier).is_none() {
            let ghost before = result@;
            result.push((identifier.clone(), *value));
            proof {
                assert(defs_view(result@) =~= defs_view(before).push((identifier@, *value)));
            }
        }
        index += 1;
    }
    proof {
        assert(defs_view(defs@).take(defs@.len() as int) =~= defs_view(defs@));
    }
}

/// The first definition of each identifier over all blocks.
pub fn definition_map(blocks: &[Block]) -> (r: Vec<(String, u64)>)
    ensures
        defs_view(r@) == first_defs(all_defs(blocks@, blocks@.len() as int)),
{
    let mut result: Vec<(String, u64)> = Vec::new();
    let mut index: usize = 0;
    proof {
        assert(defs_view(result@) =~= first_defs(all_defs(blocks@, 0)));
    }
    while index < blocks.len()
        invariant
            index <= blocks@.len(),
            defs_view(result@) == first_defs(all_defs(blocks@, index as int)),
        decreases blocks.len() - index,
    {
        add_first_definitions(&mut result, &blocks[index].definitions, Ghost(all_defs(blocks@, index as int)));
        index += 1;
    }
    result
}

/// The identifiers defined over all blocks, each once.
pub fn definition_ids(blocks: &[Block]) -> (r: Vec<String>)
    ensures
        strings_view(r@) == keys(first_defs(all_defs(blocks@, blocks@.len() as int))),
{
    let map = definition_map(blocks);
    let mut result: Vec<String> = Vec::new();
    let mut index: usize = 0;
    while index < map.len()
        invariant
            index <= map@.len(),
            strings_view(result@) =~= keys(defs_view(map@)).take(index as int),
        decreases map.len() - index,
    {
        let ghost before = result@;
        result.push(map[index].0.clone());
        proof {
            assert(strings_view(result@) =~= strings_view(before).push(map@[index as int].0@));
        }
        index += 1;
    }
    result
}

/// The identifiers defined by blocks `0..end`, each once.
pub fn definitions_before(blocks: &[Block], end: usize) -> (r: Vec<String>)
    requires
        end <= blocks@.len(),
    ensures
        strings_view(r@) == keys(first_defs(all_defs(blocks@, end as int))),
{
    let mut map: Vec<(String, u64)> = Vec::new();
    let mut index: usize = 0;
    proof {
        assert(defs_view(map@) =~= first_defs(all_defs(blocks@, 0)));
    }
    while index < end
        invariant
            end <= blocks@.len(),
            index <= end,
            defs_view(map@) == first_defs(all_defs(blocks@, index as int)),
        decreases end - index,
    {
        add_first_definitions(&mut map, &blocks[index].definitions, Ghost(all_defs(blocks@, index as int)));
        index += 1;
    }
    let mut result: Vec<String> = Vec::new();
    let mut i: usize = 0;
    while i < map.len()
        invariant
            i <= map@.len(),
            strings_view(result@) =~= keys(defs_view(map@)).take(i as int),
        decreases map.len() - i,
    {
        let ghost before = result@;
        result.push(map[i].0.clone());
        proof {
            assert(strings_view(result@) =~= strings_view(before).push(map@[i as int].0@));
        }
        i += 1;
    }
    result
}

/// Whether `s` holds `key`.
pub fn contains_string(s: &Vec<String>, key: &String) -> (r: bool)
    ensures
        r == strings_view(s@).contains(key@),
{
    let mut index: usize = 0;
    while index < s.len()
        invariant
            index <= s@.len(),
            forall|j: int| 0 <= j < index ==> strings_view(s@)[j] != key@,
        decreases s.len() - index,
    {
        if s[index] == *key {
            proof {
                assert(strings_view(s@)[index as int] == key@);
            }
            return true;
        }
        index += 1;
    }
    false
}

/// A defined identifier is among the identifiers.
proof fn lemma_lookup_key(defs: Seq<(Seq<char>, u64)>, key: Seq<char>)
    requires
        lookup(defs, key) is Some,
    ensures
        keys(defs).contains(key),
    decreases defs.len(),
{
    if lookup(defs.drop_last(), key) is Some {
        lemma_lookup_key(defs.drop_last(), key);
        let j = choose|j: int| 0 <= j < keys(defs.drop_last()).len() && keys(defs.drop_last())[j] == key;
        assert(keys(defs)[j] == key);
    } else {
        assert(keys(defs)[defs.len() - 1] == key);
    }
}

/// Whether the first definitions of `key` in `previous` and `current` differ.
pub open spec fn definition_changed(previous: Seq<(Seq<char>, u64)>, current: Seq<(Seq<char>, u64)>, key: Seq<char>) -> bool {
    lookup(previous, key) != lookup(current, key)
}

/// Add to `result` the identifiers of `candidates` whose definition changed
/// between `previous` and `current` and that it does not hold yet.
fn add_changed_ids(
    result: &mut Vec<String>,
    candidates: &Vec<(String, u64)>,
    previous: &Vec<(String, u64)>,
    current: &Vec<(String, u64)>,
    Ghost(prior): Ghost<Seq<Seq<char>>>,
)
    requires
        strings_view(old(result)@).no_duplicates(),
        forall|key: Seq<char>| #[trigger] strings_view(old(result)@).contains(key)
            <==> definition_changed(defs_view(previous@), defs_view(current@), key) && prior.contains(key),
    ensures
        strings_view(final(result)@).no_duplicates(),
        forall|key: Seq<char>| #[trigger] strings_view(final(result)@).contains(key)
            <==> definition_changed(defs_view(previous@), defs_view(current@), key)
                && (prior + keys(defs_view(candidates@))).contains(key),
{
    let ghost cand = keys(defs_view(candidates@));
    let mut index: usize = 0;
    proof {
        assert(prior + cand.take(0) =~= prior);
        assert forall|key: Seq<char>| strings_view(result@).contains(key)
            <==> definition_changed(defs_view(previous@), defs_view(current@), key)
                && (prior + cand.take(0)).contains(key) by {
            assert(prior + cand.take(0) == prior);
            assert(strings_view(old(result)@).contains(key)
                <==> definition_changed(defs_view(previous@), defs_view(current@), key) && prior.contains(key));
        }
    }
    while index < candidates.len()
        invariant
            index <= candidates@.len(),
            cand == keys(defs_view(candidates@)),
            strings_view(result@).no_duplicates(),
            forall|key: Seq<char>| strings_view(result@).contains(key)
                <==> definition_changed(defs_view(previous@), defs_view(current@), key)
                    && (prior + cand.take(index as int)).contains(key),
        decreases candidates.len() - index,
    {
        let identifier = &candidates[index].0;
        let ghost before = result@;
        proof {
            assert(prior + cand.take(index + 1) =~= (prior + cand.take(index as int)).push(identifier@));
        }
        let differs = match (find_definition(previous, identifier), find_definition(current, identifier)) {
            (Some(a), Some(b)) => a != b,
            (None, None) => false,
            _ => true,
        };
        if differs && !contains_string(result, identifier) {
            result.push(identifier.clone());
            proof {
                assert(strings_view(result@) =~= strings_view(before).push(identifier@));
            }
        }
        proof {
            let extended = prior + cand.take(index + 1);
            let shorter = prior + cand.take(index as int);
            let rv = strings_view(result@);
            let bv = strings_view(before);
            assert(rv == bv || rv == bv.push(identifier@));
            assert(rv.len() == bv.len() ==> rv == bv);
            assert forall|key: Seq<char>| rv.contains(key)
                <==> definition_changed(defs_view(previous@), defs_view(current@), key)
                    && extended.contains(key) by {
                assert(bv.contains(key) <==> definition_changed(defs_view(previous@), defs_view(current@), key)
                    && shorter.contains(key));
                if key != identifier@ {
                    if extended.contains(key) {
                        let j = choose|j: int| 0 <= j < extended.len() && extended[j] == key;
                        assert(j < shorter.len());
                        assert(shorter[j] == key);
                    }
                    if shorter.contains(key) {
                        let j = choose|j: int| 0 <= j < shorter.len() && shorter[j] == key;
                        assert(extended[j] == key);
                    }
                    if rv.contains(key) {
                        let j = choose|j: int| 0 <= j < rv.len() && rv[j] == key;
                        if rv != bv {
                            assert(rv[bv.len() as int] == identifier@);
                        }
                        assert(j < bv.len());
                        assert(bv[j] == key);
                    }
                    if bv.contains(key) {
                        let j = choose|j: int| 0 <= j < bv.len() && bv[j] == key;
                        assert(rv[j] == key);
                    }
                } else {
                    assert(extended[extended.len() - 1] == key);
                    if rv != bv {
                        assert(rv[rv.len() - 1] == key);
                    }
                    if bv.contains(key) {
                        let j = choose|j: int| 0 <= j < bv.len() && bv[j] == key;
                        assert(rv[j] == key);
                    }
                }
            }
        }
        index += 1;
    }
    proof {
        assert(cand.take(candidates@.len() as int) =~= cand);
    }
}

/// Identifiers whose first definition differs between `previous` and `current`, each
/// once.
pub fn changed_definition_ids(previous: &Vec<(String, u64)>, current: &Vec<(String, u64)>) -> (r: Vec<String>)
    ensures
        strings_view(r@).no_duplicates(),
        forall|key: Seq<char>| strings_view(r@).contains(key)
            <==> definition_changed(defs_view(previous@), defs_view(current@), key),
{
    let mut result: Vec<String> = Vec::new();
    proof {
        assert(strings_view(result@) =~= Seq::<Seq<char>>::empty());
    }
    add_changed_ids(&mut result, previous, previous, current, Ghost(Seq::empty()));
    add_changed_ids(&mut result, current, previous, current, Ghost(Seq::<Seq<char>>::empty() + keys(defs_view(previous@))));
    proof {
        assert forall|key: Seq<char>| definition_changed(defs_view(previous@), defs_view(current@), key)
            implies (Seq::<Seq<char>>::empty() + keys(defs_view(previous@)) + keys(defs_view(current@))).contains(key) by {
            let all = Seq::<Seq<char>>::empty() + keys(defs_view(previous@)) + keys(defs_view(current@));
            if lookup(defs_view(previous@), key) is Some {
                lemma_lookup_key(defs_view(previous@), key);
                let j = choose|j: int| 0 <= j < keys(defs_view(previous@)).len() && keys(defs_view(previous@))[j] == key;
                assert(all[j] == key);
            } else {
                lemma_lookup_key(defs_view(current@), key);
                let j = choose|j: int| 0 <= j < keys(defs_view(current@)).len() && keys(defs_view(current@))[j] == key;
                assert(all[keys(defs_view(previous@)).len() + j] == key);
            }
        }
    }
    result
}

} // verus!
