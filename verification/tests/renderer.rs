use markdown_blocks::configuration::{Options, ParseOptions};
use markdown_blocks::incremental::ast_session::AstSession;
use markdown_blocks::incremental::blocks::{Block, BlockKind};
use markdown_blocks::incremental::fingerprint::{block_id_string, fingerprint};
use markdown_blocks::incremental::html::{attach_segments, SegmentedHtml};
use markdown_blocks::incremental::renderer::{BlockRender, Renderer};
use markdown_blocks::incremental::reparse::{reparse_step, ReparseStep};
use markdown_blocks::incremental::{ByteRange, Edit, EditBatch, Patch};
use markdown_blocks::message::Message;

const HEADING: u8 = 1;
const PARAGRAPH: u8 = 2;

fn parsed_block(source: &str, id: u64, start: usize, end: usize, kind: u8, html: &str) -> Block {
    Block {
        start,
        end,
        id,
        fingerprint: fingerprint(kind, &source.as_bytes()[start..end]),
        kind: BlockKind(kind),
        html: html.to_string(),
        definitions: vec![],
        references: vec![],
        footnote: false,
    }
}

fn opened() -> Renderer {
    let source = "# A\n\nB\n";
    let blocks = vec![
        parsed_block(source, 1, 0, 3, HEADING, "<h1>A</h1>\n"),
        parsed_block(source, 2, 5, 6, PARAGRAPH, "<p>B</p>\n"),
    ];
    Renderer::open_parsed(source, Options::default(), blocks, "<h1>A</h1>\n<p>B</p>\n".to_string(), 3)
}

fn replace_b() -> EditBatch {
    EditBatch {
        base_version: 0,
        edits: vec![Edit { start_byte: 5, old_end_byte: 6, replacement: "C".to_string() }],
    }
}

fn reparsed_c() -> Vec<Block> {
    let source = "# A\n\nC\n";
    vec![
        parsed_block(source, 3, 0, 3, HEADING, "<h1>A</h1>\n"),
        parsed_block(source, 4, 5, 6, PARAGRAPH, "<p>C</p>\n"),
    ]
}

#[test]
fn renderer_open_keeps_source_and_html() {
    let renderer = opened();
    assert_eq!(renderer.version(), 0);
    assert_eq!(renderer.source(), "# A\n\nB\n");
    assert_eq!(renderer.html(), "<h1>A</h1>\n<p>B</p>\n");
    assert_eq!(renderer.segmented_html(), renderer.html());
    assert!(renderer.html_has_trailing_newline());
    assert_eq!(renderer.checkpoints().len(), 3);
    assert_eq!(renderer.checkpoints()[1].byte_offset, 3);
    assert_eq!(renderer.checkpoints()[2].block_index, 2);
    let blocks = renderer.blocks();
    assert_eq!(blocks.len(), 2);
    assert_eq!(blocks[0].id, "b_0000000000000001");
    assert_eq!(blocks[1].range, ByteRange { start: 5, end: 6 });
    assert_eq!(blocks[1].html, "<p>B</p>\n");
}

#[test]
fn renderer_plans_a_window_and_converges() {
    let renderer = opened();
    let plan = renderer.plan_apply(replace_b()).unwrap();
    assert_eq!(plan.new_source, "# A\n\nC\n");
    assert_eq!(plan.start_index, 0);
    assert_eq!(plan.start, 0);
    assert_eq!(plan.latest_old, 6);
    assert_eq!(plan.total_delta, (1, 1));
    assert!(!plan.global_references);
    assert_eq!(plan.first_candidate, 2);

    let (candidate, step) = reparse_step(&renderer.blocks, &plan, plan.first_candidate, None);
    assert_eq!(candidate, 2);
    assert!(matches!(step, ReparseStep::Parse { start: 0, end: 7 }));

    let (candidate, step) = reparse_step(&renderer.blocks, &plan, candidate, Some(Ok(reparsed_c())));
    assert_eq!(candidate, 2);
    match step {
        ReparseStep::Done { parsed, end, old_end } => {
            assert_eq!(parsed.len(), 2);
            assert_eq!(end, 7);
            assert_eq!(old_end, 2);
        }
        _ => panic!("expected the reparse to be done"),
    }
}

#[test]
fn reparse_step_fails_when_the_rest_is_refused() {
    let renderer = opened();
    let plan = renderer.plan_apply(replace_b()).unwrap();
    let error = Message {
        place: None,
        reason: "bad".to_string(),
        rule_id: "r".to_string(),
        source: "s".to_string(),
    };
    let (candidate, step) = reparse_step(&renderer.blocks, &plan, 2, Some(Err(error)));
    assert_eq!(candidate, 2);
    match step {
        ReparseStep::Failed { error } => assert_eq!(error.reason, "bad"),
        _ => panic!("expected a failure"),
    }
}

#[test]
fn renderer_fast_path_patches_the_changed_block() {
    let mut renderer = opened();
    let plan = renderer.plan_apply(replace_b()).unwrap();
    let result = match renderer.commit_apply(plan, reparsed_c(), 7, 2, 5) {
        Ok(result) => result,
        Err(_) => panic!("expected the fast path"),
    };
    assert_eq!(result.version, 1);
    assert_eq!(renderer.version(), 1);
    assert_eq!(result.reparsed, ByteRange { start: 0, end: 7 });
    assert_eq!(
        result.patches,
        vec![Patch::Replace { id: block_id_string(2), html: "<p>C</p>\n".to_string() }]
    );
    assert_eq!(renderer.source(), "# A\n\nC\n");
    assert_eq!(renderer.html(), "<h1>A</h1>\n<p>C</p>\n");
    let ids: Vec<String> = renderer.blocks().into_iter().map(|b| b.id).collect();
    assert_eq!(ids, vec!["b_0000000000000001".to_string(), "b_0000000000000002".to_string()]);
    assert_eq!(renderer.checkpoints().len(), 3);
}

#[test]
fn renderer_refuses_a_stale_batch() {
    let renderer = opened();
    let batch = EditBatch { base_version: 3, edits: vec![] };
    let error = match renderer.plan_apply(batch) {
        Err(error) => error,
        Ok(_) => panic!("expected a stale batch to be refused"),
    };
    assert_eq!(error.reason, "stale edit batch: expected version 0, received 3");
    assert_eq!(error.rule_id, "edit");
    assert_eq!(error.source, "markdown-incremental");
    assert!(error.place.is_none());
}

#[test]
fn renderer_with_definitions_takes_the_slow_path_unchanged() {
    let source = "[a]: /u\n\nB\n";
    let mut definition = parsed_block(source, 1, 0, 7, 3, "");
    definition.definitions = vec![("a".to_string(), 9)];
    let blocks = vec![definition, parsed_block(source, 2, 9, 10, PARAGRAPH, "<p>B</p>\n")];
    let mut renderer = Renderer::open_parsed(source, Options::default(), blocks, "<p>B</p>\n".to_string(), 3);
    let batch = EditBatch {
        base_version: 0,
        edits: vec![Edit { start_byte: 9, old_end_byte: 10, replacement: "C".to_string() }],
    };
    let plan = renderer.plan_apply(batch).unwrap();
    assert!(plan.global_references);
    assert_eq!(plan.start_index, 0);
    assert_eq!(plan.latest_old, source.len());
    let new_source = "[a]: /u\n\nC\n";
    let mut reparsed_definition = parsed_block(new_source, 3, 0, 7, 3, "");
    reparsed_definition.definitions = vec![("a".to_string(), 9)];
    let parsed = vec![reparsed_definition, parsed_block(new_source, 4, 9, 10, PARAGRAPH, "<p>C</p>\n")];
    let slow = match renderer.commit_apply(plan, parsed, 11, 2, 5) {
        Err(slow) => slow,
        Ok(_) => panic!("expected the slow path"),
    };
    assert_eq!(renderer.version(), 0);
    assert_eq!(renderer.source(), source);
    assert!(!slow.needs_full_parse);
    assert_eq!(slow.blocks.len(), 2);
    assert_eq!(slow.blocks[1].id, 2);
    let renders = renderer.render_requests(&slow);
    assert!(matches!(renders[0], BlockRender::Keep));
    assert!(matches!(renders[1], BlockRender::Keep));
    assert!(!renderer.needs_canonical(&slow));
    let result = renderer.commit_rendered(slow, renders, vec![None, None], None);
    assert_eq!(result.version, 1);
    assert_eq!(
        result.patches,
        vec![Patch::Replace { id: block_id_string(2), html: "<p>C</p>\n".to_string() }]
    );
    assert_eq!(renderer.html(), "<p>C</p>\n");
}

#[test]
fn ast_session_reports_changed_and_reused_blocks() {
    let source = "# A\n\nB\n";
    let blocks = vec![
        parsed_block(source, 1, 0, 3, HEADING, ""),
        parsed_block(source, 2, 5, 6, PARAGRAPH, ""),
    ];
    let mut session = AstSession::open_parsed(source, ParseOptions::default(), blocks, 3);
    assert_eq!(session.block_ids(), vec![block_id_string(1), block_id_string(2)]);
    let plan = session.plan_apply(replace_b()).unwrap();
    let parsed = vec![
        parsed_block("# A\n\nC\n", 3, 0, 3, HEADING, ""),
        parsed_block("# A\n\nC\n", 4, 5, 6, PARAGRAPH, ""),
    ];
    let slow = session.assemble_apply(plan, parsed, 7, 2, 5);
    assert!(!slow.identifiers_changed);
    assert_eq!(session.version(), 0);
    let result = session.commit(slow);
    assert_eq!(result.version, 1);
    assert_eq!(result.changed, vec![block_id_string(2)]);
    assert_eq!(result.reused, vec![block_id_string(1)]);
    assert_eq!(result.reparsed, ByteRange { start: 0, end: 7 });
    assert_eq!(session.source(), "# A\n\nC\n");
    let snapshot = session.snapshot();
    assert_eq!(snapshot.block_count(), 2);
    assert!(!snapshot.has_global_dependencies());
    let metadata = snapshot.blocks();
    assert_eq!(metadata[1].id(), block_id_string(2));
    assert_eq!(metadata[1].range(), ByteRange { start: 5, end: 6 });
}

#[test]
fn ast_session_plan_refuses_overlapping_edits() {
    let session = AstSession::open_parsed("abc", ParseOptions::default(), vec![], 1);
    let batch = EditBatch {
        base_version: 0,
        edits: vec![
            Edit { start_byte: 0, old_end_byte: 2, replacement: String::new() },
            Edit { start_byte: 1, old_end_byte: 3, replacement: String::new() },
        ],
    };
    let error = match session.plan_apply(batch) {
        Err(error) => error,
        Ok(_) => panic!("expected overlapping edits to be refused"),
    };
    assert_eq!(error.reason, "edits must be sorted and nonoverlapping");
    assert_eq!(session.version(), 0);
}

#[test]
fn options_obsidian_turns_on_gfm_and_obsidian() {
    let options = Options::obsidian();
    assert!(options.parse.constructs.gfm_table);
    assert!(options.parse.constructs.gfm_strikethrough);
    assert!(options.parse.constructs.gfm_autolink_literal);
    assert!(options.parse.constructs.obsidian_wikilink);
    assert!(options.parse.constructs.obsidian_highlight);
    assert!(options.compile.obsidian_link_resolver.is_none());
}

#[test]
fn renderer_block_refs_and_shared_html() {
    let renderer = opened();
    let refs = renderer.block_refs();
    assert_eq!(refs.len(), 2);
    assert_eq!(refs[0].id, "b_0000000000000001");
    assert_eq!(refs[0].html, "<h1>A</h1>\n");
    assert_eq!(refs[1].range, ByteRange { start: 5, end: 6 });
    assert_eq!(renderer.shared_html().as_str(), "<h1>A</h1>\n<p>B</p>\n");
}

fn four_paragraphs() -> Renderer {
    let source = "a\n\nb\n\nc\n\nd\n";
    let blocks = vec![
        parsed_block(source, 1, 0, 1, PARAGRAPH, "<p>a</p>\n"),
        parsed_block(source, 2, 3, 4, PARAGRAPH, "<p>b</p>\n"),
        parsed_block(source, 3, 6, 7, PARAGRAPH, "<p>c</p>\n"),
        parsed_block(source, 4, 9, 10, PARAGRAPH, "<p>d</p>\n"),
    ];
    Renderer::open_parsed(source, Options::default(), blocks, "<p>a</p>\n<p>b</p>\n<p>c</p>\n<p>d</p>\n".to_string(), 5)
}

fn edit_first() -> EditBatch {
    EditBatch {
        base_version: 0,
        edits: vec![Edit { start_byte: 0, old_end_byte: 1, replacement: "x".to_string() }],
    }
}

#[test]
fn reparse_window_widens_until_convergence() {
    let renderer = four_paragraphs();
    let plan = renderer.plan_apply(edit_first()).unwrap();
    assert_eq!(plan.start_index, 0);
    assert_eq!(plan.first_candidate, 3);
    let (candidate, step) = reparse_step(&renderer.blocks, &plan, plan.first_candidate, None);
    assert_eq!(candidate, 3);
    assert!(matches!(step, ReparseStep::Parse { start: 0, end: 7 }));
    let new_source = "x\n\nb\n\nc\n\nd\n";
    let unconverged = vec![
        parsed_block(new_source, 5, 0, 1, PARAGRAPH, "<p>x</p>\n"),
        parsed_block(new_source, 6, 3, 7, HEADING, "<h1>b</h1>\n"),
    ];
    let (candidate, step) = reparse_step(&renderer.blocks, &plan, candidate, Some(Ok(unconverged)));
    assert_eq!(candidate, 4);
    assert!(matches!(step, ReparseStep::Parse { start: 0, end: 11 }));
}

#[test]
fn renderer_shifts_the_blocks_after_convergence() {
    let mut renderer = four_paragraphs();
    let plan = renderer.plan_apply(edit_first()).unwrap();
    let new_source = "x\n\nb\n\nc\n\nd\n";
    let parsed = vec![
        parsed_block(new_source, 5, 0, 1, PARAGRAPH, "<p>x</p>\n"),
        parsed_block(new_source, 6, 3, 4, PARAGRAPH, "<p>b</p>\n"),
        parsed_block(new_source, 7, 6, 7, PARAGRAPH, "<p>c</p>\n"),
    ];
    let (candidate, step) = reparse_step(&renderer.blocks, &plan, 3, Some(Ok(parsed)));
    assert_eq!(candidate, 3);
    let (parsed, end, old_end) = match step {
        ReparseStep::Done { parsed, end, old_end } => (parsed, end, old_end),
        _ => panic!("expected convergence"),
    };
    assert_eq!((end, old_end), (7, 3));
    let result = match renderer.commit_apply(plan, parsed, end, old_end, 8) {
        Ok(result) => result,
        Err(_) => panic!("expected the fast path"),
    };
    assert_eq!(
        result.patches,
        vec![Patch::Replace { id: block_id_string(1), html: "<p>x</p>\n".to_string() }]
    );
    let blocks = renderer.blocks();
    assert_eq!(blocks.len(), 4);
    assert_eq!(blocks[3].id, block_id_string(4));
    assert_eq!(blocks[3].range, ByteRange { start: 9, end: 10 });
    assert_eq!(renderer.html(), "<p>x</p>\n<p>b</p>\n<p>c</p>\n<p>d</p>\n");
}

#[test]
fn options_obsidian_compiles_with_the_obsidian_defaults() {
    let options = Options::obsidian();
    assert!(!options.compile.gfm_tagfilter);
    assert!(!options.compile.allow_dangerous_html);
    assert!(options.compile.obsidian_embed_resolver.is_none());
}

#[test]
fn reparse_starts_at_an_edit_before_the_first_block() {
    let source = "\n\nAlpha";
    let blocks = vec![parsed_block(source, 1, 2, 7, PARAGRAPH, "<p>Alpha</p>")];
    let renderer = Renderer::open_parsed(source, Options::default(), blocks, "<p>Alpha</p>".to_string(), 2);
    let batch = EditBatch {
        base_version: 0,
        edits: vec![Edit { start_byte: 0, old_end_byte: 0, replacement: "# ".to_string() }],
    };
    let plan = renderer.plan_apply(batch).unwrap();
    assert_eq!(plan.start_index, 0);
    assert_eq!(plan.start, 0);
    let (_, step) = reparse_step(&renderer.blocks, &plan, plan.first_candidate, None);
    assert!(matches!(step, ReparseStep::Parse { start: 0, end: 9 }));
}

#[test]
fn attach_segments_gives_each_block_its_html() {
    let source = "# A\n\nB\n";
    let blocks = vec![
        parsed_block(source, 1, 0, 3, HEADING, ""),
        parsed_block(source, 2, 5, 6, PARAGRAPH, ""),
    ];
    let segmented = SegmentedHtml {
        html: "<h1>A</h1>\n<p>B</p>\n".to_string(),
        output_ranges: vec![ByteRange { start: 0, end: 11 }, ByteRange { start: 11, end: 20 }],
    };
    let blocks = attach_segments(blocks, &segmented);
    assert_eq!(blocks[0].html, "<h1>A</h1>\n");
    assert_eq!(blocks[1].html, "<p>B</p>\n");
    assert_eq!(blocks[1].id, 2);
}
