use markdown_blocks::incremental::align::{align_ids, align_ids_preserving_html};
use markdown_blocks::incremental::blocks::{
    changed_block_ids, checkpoint_before, document_block, has_converged, make_checkpoints, may_have_definitions,
    rebase_stops, renderer_needs_mdast, requires_whole_document, update_checkpoints, Block, BlockKind,
};
use markdown_blocks::configuration::ParseOptions;
use markdown_blocks::incremental::definitions::{changed_definition_ids, definition_ids, definition_map, definitions_before};
use markdown_blocks::incremental::edit::{add_delta, apply_edits, byte_delta, delta_at_old_offset, incremental_error, validate_edits};
use markdown_blocks::incremental::fingerprint::{allocate_id, block_id_string, fingerprint, hash_bytes, FNV_OFFSET};
use markdown_blocks::incremental::html::{definition_sources, join_html, normalize_output_ranges, SegmentedHtml};
use markdown_blocks::incremental::patches::{diff_blocks, diff_interval};
use markdown_blocks::incremental::tree::{blocks_from_tree, node_kind, sort_unique, string_lt};
use markdown_blocks::incremental::{ByteRange, Edit, EditBatch, Patch};
use markdown_blocks::mdast::{Definition, Literal, LinkReference, Node, Parent};
use markdown_blocks::unist::{Point, Position};

fn edit(start: usize, end: usize, replacement: &str) -> Edit {
    Edit { start_byte: start, old_end_byte: end, replacement: replacement.to_string() }
}

fn block(id: u64, start: usize, end: usize, html: &str) -> Block {
    Block {
        start,
        end,
        id,
        fingerprint: id * 7,
        kind: BlockKind(33),
        html: html.to_string(),
        definitions: vec![],
        references: vec![],
        footnote: false,
    }
}

#[test]
fn apply_to_replaces_one_range() {
    let source = "# Title\n\nAlpha.\n\nBravo.";
    let start = source.find("Bravo").unwrap();
    let batch = EditBatch { base_version: 0, edits: vec![edit(start, start + 5, "Beta")] };
    assert_eq!(batch.apply_to(source, 0).unwrap(), "# Title\n\nAlpha.\n\nBeta.");
}

#[test]
fn apply_to_several_edits_in_order() {
    let batch = EditBatch { base_version: 3, edits: vec![edit(0, 1, "A"), edit(2, 2, "-"), edit(3, 4, "")] };
    assert_eq!(batch.apply_to("abcd", 3).unwrap(), "Ab-c");
}

#[test]
fn apply_to_empty_batch_keeps_source() {
    let batch = EditBatch { base_version: 1, edits: vec![] };
    assert_eq!(batch.apply_to("same", 1).unwrap(), "same");
}

#[test]
fn apply_to_rejects_stale_version() {
    let batch = EditBatch { base_version: 2, edits: vec![] };
    let error = batch.apply_to("x", 5).unwrap_err();
    assert_eq!(error.reason, "stale edit batch: expected version 5, received 2");
    assert_eq!(error.rule_id, "edit");
    assert_eq!(error.source, "markdown-incremental");
    assert!(error.place.is_none());
}

#[test]
fn apply_to_rejects_out_of_bounds() {
    let batch = EditBatch { base_version: 0, edits: vec![edit(2, 9, "")] };
    assert_eq!(batch.apply_to("abc", 0).unwrap_err().reason, "edit range is outside the document");
    let reversed = EditBatch { base_version: 0, edits: vec![edit(2, 1, "")] };
    assert_eq!(reversed.apply_to("abc", 0).unwrap_err().reason, "edit range is outside the document");
}

#[test]
fn apply_to_rejects_split_code_point() {
    let batch = EditBatch { base_version: 0, edits: vec![edit(1, 2, "")] };
    assert_eq!(batch.apply_to("é", 0).unwrap_err().reason, "edit range splits a UTF-8 code point");
}

#[test]
fn apply_to_rejects_overlap() {
    let batch = EditBatch { base_version: 0, edits: vec![edit(0, 2, "x"), edit(1, 3, "y")] };
    assert_eq!(batch.apply_to("abcd", 0).unwrap_err().reason, "edits must be sorted and nonoverlapping");
}

#[test]
fn validate_and_apply_separately() {
    let batch = EditBatch { base_version: 0, edits: vec![edit(0, 0, "> ")] };
    assert!(validate_edits("quote", 0, &batch).is_ok());
    assert_eq!(apply_edits("quote", &batch.edits), "> quote");
    assert_eq!(incremental_error("why".to_string()).reason, "why");
}

#[test]
fn deltas_count_added_and_removed_bytes() {
    let edits = vec![edit(0, 2, "xyz"), edit(5, 9, "")];
    assert_eq!(byte_delta(&edits), (3, 6));
    assert_eq!(delta_at_old_offset(&edits, 4), (3, 2));
    assert_eq!(delta_at_old_offset(&edits, 9), (3, 6));
    assert_eq!(delta_at_old_offset(&edits, 1), (0, 0));
    assert_eq!(add_delta(10, (3, 6)), 7);
}

#[test]
fn untouched_byte_moves_by_delta() {
    let source = "ab|cdef";
    let edits = vec![edit(0, 2, "XYZ")];
    let result = apply_edits(source, &edits);
    let shift = delta_at_old_offset(&edits, 2);
    assert_eq!(result.as_bytes()[add_delta(2, shift)], b'|');
}

#[test]
fn fingerprints_are_fnv1a() {
    assert_eq!(hash_bytes(FNV_OFFSET, b""), 0xcbf2_9ce4_8422_2325);
    assert_eq!(hash_bytes(FNV_OFFSET, b"a"), 0xaf63_dc4c_8601_ec8c);
    assert_eq!(fingerprint(b'a', b""), 0xaf63_dc4c_8601_ec8c);
    assert_eq!(fingerprint(33, b"x"), hash_bytes(hash_bytes(FNV_OFFSET, &[33]), b"x"));
}

#[test]
fn block_ids_are_padded_hexadecimal() {
    assert_eq!(block_id_string(1), "b_0000000000000001");
    assert_eq!(block_id_string(0xabc), "b_0000000000000abc");
    let mut next = 255;
    assert_eq!(allocate_id(&mut next), "b_00000000000000ff");
    assert_eq!(next, 256);
}

#[test]
fn checkpoints_follow_blocks() {
    let mut first = block(1, 0, 6, "<p>a</p>");
    first.definitions = vec![("docs".to_string(), 9)];
    let blocks = vec![first, block(2, 8, 14, "<p>b</p>")];
    let checkpoints = make_checkpoints(&blocks);
    assert_eq!(checkpoints.len(), 3);
    assert_eq!(checkpoints[0].byte_offset, 0);
    assert_eq!(checkpoints[0].reference_environment_hash, FNV_OFFSET);
    assert_eq!(checkpoints[1].byte_offset, 6);
    assert_eq!(checkpoints[2].block_index, 2);
    assert_ne!(checkpoints[1].reference_environment_hash, FNV_OFFSET);
    assert_eq!(checkpoints[1].reference_environment_hash, checkpoints[2].reference_environment_hash);
}

#[test]
fn updated_checkpoints_match_rebuilt_ones() {
    let old = vec![block(1, 0, 6, "a"), block(2, 8, 14, "b"), block(3, 16, 20, "c")];
    let previous = make_checkpoints(&old);
    let mut new = vec![block(1, 0, 6, "a"), block(4, 8, 30, "d")];
    new[1].definitions = vec![("x".to_string(), 1)];
    assert_eq!(update_checkpoints(&previous, &new, 1), make_checkpoints(&new));
}

#[test]
fn checkpoint_before_finds_previous_block() {
    let blocks = vec![block(1, 0, 6, "a"), block(2, 8, 14, "b"), block(3, 16, 20, "c")];
    assert_eq!(checkpoint_before(&blocks, 10), 0);
    assert_eq!(checkpoint_before(&blocks, 15), 1);
    assert_eq!(checkpoint_before(&blocks, 100), 2);
    assert_eq!(checkpoint_before(&blocks, 0), 0);
}

#[test]
fn diff_replaces_changed_html() {
    let old = vec![block(1, 0, 1, "<p>A</p>"), block(2, 2, 3, "<p>Bravo.</p>")];
    let new = vec![block(1, 0, 1, "<p>A</p>"), block(2, 2, 3, "<p>Beta.</p>")];
    assert_eq!(
        diff_blocks(&old, &new),
        vec![Patch::Replace { id: "b_0000000000000002".to_string(), html: "<p>Beta.</p>".to_string() }]
    );
}

#[test]
fn diff_inserts_and_removes() {
    let old = vec![block(1, 0, 1, "<p>A</p>"), block(2, 2, 3, "<p>B</p>")];
    let new = vec![block(1, 0, 1, "<p>A</p>"), block(3, 2, 3, "<p>C</p>"), block(9, 4, 5, "")];
    assert_eq!(
        diff_blocks(&old, &new),
        vec![
            Patch::Remove { id: "b_0000000000000002".to_string() },
            Patch::InsertAfter {
                after: Some("b_0000000000000001".to_string()),
                id: "b_0000000000000003".to_string(),
                html: "<p>C</p>".to_string(),
            },
        ]
    );
    assert_eq!(
        diff_interval(&[], &new[1..2], Some(7)),
        vec![Patch::InsertAfter {
            after: Some("b_0000000000000007".to_string()),
            id: "b_0000000000000003".to_string(),
            html: "<p>C</p>".to_string(),
        }]
    );
}

#[test]
fn join_html_separates_blocks_with_line_feeds() {
    let blocks = vec![block(1, 0, 6, "<p>Alpha.</p>"), block(2, 8, 14, ""), block(3, 16, 24, "<p>Charlie.</p>")];
    assert_eq!(join_html(&blocks, "Alpha.\n\nCharlie.", false), "<p>Alpha.</p>\n<p>Charlie.</p>");
    assert_eq!(join_html(&blocks, "Alpha.\n\nCharlie.", true), "<p>Alpha.</p>\n<p>Charlie.</p>\n");
}

#[test]
fn join_html_keeps_trailing_definition_line_ending() {
    let mut definition = block(2, 8, 20, "");
    definition.definitions = vec![("docs".to_string(), 1)];
    let blocks = vec![block(1, 0, 6, "<p>One</p>"), definition];
    assert_eq!(join_html(&blocks, "x", false), "<p>One</p>\n");
    assert_eq!(join_html(&[], "", false), "");
}

#[test]
fn definitions_are_first_wins() {
    let mut a = block(1, 0, 5, "");
    a.definitions = vec![("docs".to_string(), 1), ("api".to_string(), 2)];
    let mut b = block(2, 6, 10, "");
    b.definitions = vec![("docs".to_string(), 3)];
    let blocks = vec![a, b];
    assert_eq!(definition_map(&blocks), vec![("docs".to_string(), 1), ("api".to_string(), 2)]);
    assert_eq!(definition_ids(&blocks), vec!["docs".to_string(), "api".to_string()]);
    assert_eq!(definitions_before(&blocks, 0), Vec::<String>::new());
    assert_eq!(definitions_before(&blocks, 2), vec!["docs".to_string(), "api".to_string()]);
    let changed = changed_definition_ids(&vec![("docs".to_string(), 1), ("api".to_string(), 2)], &vec![("docs".to_string(), 5)]);
    assert_eq!(changed, vec!["docs".to_string(), "api".to_string()]);
}

#[test]
fn definition_sources_join_definition_blocks() {
    let source = "[a]: /a\n\ntext\n\n[b]: /b";
    let mut a = block(1, 0, 7, "");
    a.definitions = vec![("a".to_string(), 1)];
    let mut b = block(3, 15, 22, "");
    b.definitions = vec![("b".to_string(), 2)];
    let blocks = vec![a, block(2, 9, 13, "<p>text</p>"), b];
    assert_eq!(definition_sources(source, &blocks), "[a]: /a\n\n[b]: /b");
}

#[test]
fn block_predicates() {
    assert!(may_have_definitions("[a]: /b"));
    assert!(!may_have_definitions("[a] : /b"));
    let mut footnote = block(1, 0, 1, "x");
    footnote.footnote = true;
    assert!(requires_whole_document(&[footnote]));
    let mut yaml = block(1, 0, 1, "x");
    yaml.kind = BlockKind(7);
    assert!(requires_whole_document(&[yaml]));
    assert!(!requires_whole_document(&[block(1, 0, 1, "x")]));
    let old = vec![block(1, 0, 1, "a"), block(2, 2, 3, "b")];
    let parsed = vec![block(5, 0, 1, "a"), block(2, 2, 3, "b")];
    assert!(has_converged(&old, 0, 2, &parsed));
    assert!(!has_converged(&old, 2, 2, &parsed));
    assert!(!has_converged(&old, 0, 1, &parsed));
}

#[test]
fn changed_blocks_are_new_or_different() {
    let old = vec![block(1, 0, 1, "a"), block(2, 2, 3, "b")];
    let mut edited = block(2, 2, 3, "b");
    edited.fingerprint = 99;
    let new = vec![block(1, 0, 1, "a"), edited, block(3, 4, 5, "c")];
    let changed = changed_block_ids(&old, &new);
    assert_eq!(changed.ids, vec![2, 3]);
    assert!(changed.contains(3) && !changed.contains(1));
}

#[test]
fn output_ranges_lose_surrounding_line_endings() {
    let mut segmented = SegmentedHtml {
        html: "<p>a</p>\n\n\n<p>b</p>\r\n\r\n".to_string(),
        output_ranges: vec![ByteRange { start: 0, end: 10 }, ByteRange { start: 10, end: 23 }],
    };
    normalize_output_ranges(&mut segmented);
    assert_eq!(segmented.output_ranges, vec![ByteRange { start: 0, end: 9 }, ByteRange { start: 11, end: 21 }]);
}

#[test]
fn references_sort_and_deduplicate() {
    let sorted = sort_unique(vec!["b".to_string(), "a".to_string(), "b".to_string(), "ab".to_string()]);
    assert_eq!(sorted, vec!["a".to_string(), "ab".to_string(), "b".to_string()]);
    assert!(string_lt(&"a".to_string(), &"b".to_string()));
    assert!(!string_lt(&"b".to_string(), &"b".to_string()));
}

fn at(start: usize, end: usize) -> Option<Position> {
    Some(Position {
        start: Point { line: 1, column: start + 1, offset: start },
        end: Point { line: 1, column: end + 1, offset: end },
    })
}

#[test]
fn blocks_from_tree_collects_dependencies() {
    let value = "[One][docs]\n\n[docs]: /old";
    let tree = Node::Root(Parent {
        children: vec![
            Node::Paragraph(Parent {
                children: vec![Node::LinkReference(LinkReference {
                    children: vec![Node::Text(Literal { value: "One".to_string(), position: None })],
                    position: None,
                    identifier: "docs".to_string(),
                    label: Some("docs".to_string()),
                })],
                position: at(0, 11),
            }),
            Node::Definition(Definition {
                position: at(13, 25),
                url: "/old".to_string(),
                title: None,
                identifier: "docs".to_string(),
                label: Some("docs".to_string()),
            }),
        ],
        position: at(0, 25),
    });
    let mut next = 1;
    let blocks = blocks_from_tree(value, 100, &tree, &mut next);
    assert_eq!(next, 3);
    assert_eq!(blocks.len(), 2);
    assert_eq!((blocks[0].start, blocks[0].end, blocks[0].id), (100, 111, 1));
    assert_eq!(blocks[0].kind, BlockKind(33));
    assert_eq!(blocks[0].references, vec!["docs".to_string()]);
    assert_eq!(blocks[0].fingerprint, fingerprint(33, b"[One][docs]"));
    assert_eq!(blocks[1].kind, BlockKind(32));
    assert_eq!(blocks[1].definitions.len(), 1);
    assert_eq!(blocks[1].definitions[0].0, "docs");
    assert_eq!(blocks[1].definitions[0].1, fingerprint(0, "/old\0None".as_bytes()));
    assert_eq!(node_kind(&tree), BlockKind(0));
}

fn apply(list: &mut Vec<(String, String)>, patches: &[Patch]) {
    for patch in patches {
        match patch {
            Patch::Remove { id } => list.retain(|(i, _)| i != id),
            Patch::Replace { id, html } => {
                for entry in list.iter_mut() {
                    if &entry.0 == id {
                        entry.1 = html.clone();
                    }
                }
            }
            Patch::InsertAfter { after, id, html } => {
                let at = match after {
                    None => 0,
                    Some(a) => list.iter().position(|(i, _)| i == a).map_or(list.len(), |p| p + 1),
                };
                list.insert(at, (id.clone(), html.clone()));
            }
        }
    }
}

fn visible(blocks: &[Block]) -> Vec<(String, String)> {
    blocks
        .iter()
        .filter(|b| !b.html.is_empty())
        .map(|b| (block_id_string(b.id), b.html.clone()))
        .collect()
}

#[test]
fn patches_rebuild_the_new_rendering() {
    let old = vec![block(1, 0, 1, "<p>A</p>"), block(2, 2, 3, "<p>B</p>"), block(3, 4, 5, "<p>C</p>"), block(4, 6, 7, "")];
    let new = vec![
        block(5, 0, 1, "<p>Z</p>"),
        block(1, 2, 3, "<p>A</p>"),
        block(3, 4, 5, "<p>C2</p>"),
        block(6, 6, 7, "<p>D</p>"),
    ];
    let mut list = visible(&old);
    apply(&mut list, &diff_blocks(&old, &new));
    assert_eq!(list, visible(&new));
}

#[test]
fn align_carries_identities_of_equal_blocks() {
    let old = vec![block(1, 0, 1, "<p>A</p>"), block(2, 2, 3, "<p>B</p>"), block(3, 4, 5, "<p>C</p>")];
    let mut new = vec![block(10, 0, 1, ""), block(11, 2, 3, ""), block(12, 4, 5, "")];
    new[0].fingerprint = 7;
    new[1].fingerprint = 99;
    new[2].fingerprint = 21;
    align_ids(&old, &mut new);
    assert_eq!(new[0].id, 1);
    assert_eq!(new[2].id, 3);
    assert_eq!(new[0].html, "<p>A</p>");
    assert_eq!(new[2].html, "<p>C</p>");
    // The edited block between aligned neighbours keeps its old identity.
    assert_eq!(new[1].id, 2);
    assert_eq!(new[1].html, "");
    let mut fresh = vec![block(20, 0, 1, "")];
    fresh[0].fingerprint = 7;
    align_ids_preserving_html(&old, &mut fresh, false);
    assert_eq!(fresh[0].id, 1);
    assert_eq!(fresh[0].html, "");
}

#[test]
fn document_block_stands_for_everything() {
    let mut next = 4;
    let b = document_block("# a\n", "<h1>a</h1>\n".to_string(), &mut next);
    assert_eq!((b.start, b.end, b.id, next), (0, 4, 4, 5));
    assert_eq!(b.kind, BlockKind(255));
    assert!(b.footnote);
    assert_eq!(b.fingerprint, fingerprint(255, b"# a\n"));
}

#[test]
fn mdx_and_code_hike_need_the_tree() {
    assert!(!renderer_needs_mdast(&ParseOptions::default()));
    assert!(renderer_needs_mdast(&ParseOptions::mdx()));
    assert!(renderer_needs_mdast(&ParseOptions::code_hike()));
}

#[test]
fn stops_move_by_delta() {
    let mut stops = vec![(0, 10), (3, 13)];
    rebase_stops(&mut stops, (5, 2));
    assert_eq!(stops, vec![(0, 13), (3, 16)]);
}

#[test]
fn align_keeps_identities_of_unchanged_document() {
    let old = vec![block(1, 0, 1, "<p>A</p>"), block(2, 2, 3, "<p>B</p>")];
    let mut new = vec![block(8, 0, 1, ""), block(9, 2, 3, "")];
    new[0].fingerprint = old[0].fingerprint;
    new[1].fingerprint = old[1].fingerprint;
    align_ids(&old, &mut new);
    assert_eq!((new[0].id, new[1].id), (1, 2));
    assert_eq!(new[1].html, "<p>B</p>");
}

#[test]
fn aligned_ids_are_distinct_and_drawn_from_either_side() {
    let old = vec![block(1, 0, 1, "<p>a</p>"), block(2, 2, 3, "<p>b</p>"), block(3, 4, 5, "<p>c</p>")];
    let mut new = vec![block(2, 0, 1, "<p>x</p>"), block(10, 2, 3, "<p>y</p>"), block(11, 4, 5, "<p>z</p>"), block(12, 6, 7, "<p>w</p>")];
    new[0].fingerprint = 2 * 7;
    new[0].id = 9;
    align_ids(&old, &mut new);
    let ids: Vec<u64> = new.iter().map(|b| b.id).collect();
    for (i, a) in ids.iter().enumerate() {
        for b in &ids[i + 1..] {
            assert_ne!(a, b);
        }
        assert!([1, 2, 3, 9, 10, 11, 12].contains(a));
    }
    assert_eq!(ids, vec![1, 2, 3, 12]);
}
