use markdown_blocks::incremental::blocks::BlockKind;
use markdown_blocks::incremental::events::{
    blocks_from_events, collect_event_dependencies, event_block_kind, event_span, EventName, ParserEvent,
};
use markdown_blocks::incremental::fingerprint::fingerprint;
use markdown_blocks::tokenizer::Kind;

fn enter(name: EventName, index: usize) -> ParserEvent {
    ParserEvent { kind: Kind::Enter, name, index }
}

fn exit(name: EventName, index: usize) -> ParserEvent {
    ParserEvent { kind: Kind::Exit, name, index }
}

#[test]
fn event_kinds_classify_top_level_constructs() {
    assert_eq!(event_block_kind(&EventName::Paragraph), Some(BlockKind(33)));
    assert_eq!(event_block_kind(&EventName::ListUnordered), Some(BlockKind(4)));
    assert_eq!(event_block_kind(&EventName::CodeFenced), Some(BlockKind(23)));
    assert_eq!(event_block_kind(&EventName::LabelText), None);
}

#[test]
fn event_span_finds_matching_enter() {
    let events = vec![
        enter(EventName::LabelText, 1),
        enter(EventName::Other, 1),
        exit(EventName::Other, 4),
        exit(EventName::LabelText, 4),
    ];
    assert_eq!(event_span(&events, 3), (1, 4));
    assert_eq!(event_span(&events[2..], 1), (4, 4));
}

#[test]
fn blocks_from_paragraph_and_definition_events() {
    let value = "[Docs]\n\n[docs]: /x";
    let events = vec![
        enter(EventName::Paragraph, 0),
        enter(EventName::LabelText, 1),
        exit(EventName::LabelText, 5),
        exit(EventName::Paragraph, 6),
        enter(EventName::Other, 6),
        exit(EventName::Other, 8),
        enter(EventName::Definition, 8),
        enter(EventName::DefinitionLabelString, 9),
        exit(EventName::DefinitionLabelString, 13),
        exit(EventName::Definition, 18),
    ];
    let mut next = 7;
    let blocks = blocks_from_events(value, 10, &events, &mut next);
    assert_eq!(next, 9);
    assert_eq!(blocks.len(), 2);
    assert_eq!((blocks[0].start, blocks[0].end, blocks[0].id), (10, 16, 7));
    assert_eq!(blocks[0].kind, BlockKind(33));
    assert_eq!(blocks[0].references, vec!["DOCS".to_string()]);
    assert_eq!(blocks[0].fingerprint, fingerprint(33, b"[Docs]"));
    assert_eq!(blocks[1].kind, BlockKind(32));
    let definition_fingerprint = fingerprint(32, b"[docs]: /x");
    assert_eq!(blocks[1].definitions, vec![("DOCS".to_string(), definition_fingerprint)]);
    assert!(!blocks[1].footnote);
}

#[test]
fn nested_constructs_of_the_same_name_stay_one_block() {
    let value = "> > a";
    let events = vec![
        enter(EventName::BlockQuote, 0),
        enter(EventName::BlockQuote, 2),
        exit(EventName::BlockQuote, 5),
        exit(EventName::BlockQuote, 5),
    ];
    let mut next = 1;
    let blocks = blocks_from_events(value, 0, &events, &mut next);
    assert_eq!(blocks.len(), 1);
    assert_eq!((blocks[0].start, blocks[0].end), (0, 5));
}

#[test]
fn footnote_calls_mark_the_block() {
    let value = "a[^1]";
    let events = vec![
        enter(EventName::Paragraph, 0),
        enter(EventName::GfmFootnoteCall, 1),
        exit(EventName::GfmFootnoteCall, 5),
        exit(EventName::Paragraph, 5),
    ];
    let mut definitions = vec![];
    let mut references = vec![];
    let mut footnote = false;
    collect_event_dependencies(value, &events, 0, 3, BlockKind(33), 0, &mut definitions, &mut references, &mut footnote);
    assert!(footnote);
    assert!(definitions.is_empty() && references.is_empty());
}
