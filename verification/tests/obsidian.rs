use markdown_blocks::configuration::Constructs;
use markdown_blocks::construct::obsidian_callout::detect;
use markdown_blocks::state::attempt;
use markdown_blocks::tokenizer::{Kind, Name, StateName, Tokenizer};
use markdown_blocks::util::normalize_identifier::normalize_identifier;

fn run(input: &str, start: StateName) -> (bool, Tokenizer) {
    let mut tokenizer = Tokenizer::new(input.as_bytes().to_vec(), 0, Constructs::obsidian());
    let matched = attempt(&mut tokenizer, start);
    (matched, tokenizer)
}

#[test]
fn callout_with_title() {
    let info = detect("[!note] My Title").unwrap();
    assert_eq!(info.callout_type, "note");
    assert_eq!(info.foldable, None);
    assert_eq!(info.title.as_deref(), Some("My Title"));
}

#[test]
fn callout_without_title() {
    let info = detect("[!warning]").unwrap();
    assert_eq!(info.callout_type, "warning");
    assert_eq!(info.title, None);
}

#[test]
fn callout_fold_markers() {
    assert_eq!(detect("[!note]+ Title").unwrap().foldable, Some(true));
    assert_eq!(detect("[!note]- Title").unwrap().foldable, Some(false));
    assert_eq!(detect("  [!tip]   Spaced  \nnext line").unwrap().title.as_deref(), Some("Spaced"));
}

#[test]
fn callout_rejects_other_text() {
    assert!(detect("Just a regular quote").is_none());
    assert!(detect("[!]").is_none());
    assert!(detect("[!no te]").is_none());
    assert!(detect("[!note").is_none());
}

#[test]
fn wikilink_is_recognized() {
    let (matched, tokenizer) = run("[[Note#Heading|Alias]] rest", StateName::ObsidianWikilinkStart);
    assert!(matched);
    assert_eq!(tokenizer.index, "[[Note#Heading|Alias]]".len());
    assert_eq!(tokenizer.events[0].kind, Kind::Enter);
    assert_eq!(tokenizer.events[0].name, Name::ObsidianWikilink);
    assert!(tokenizer.events.iter().any(|e| e.name == Name::ObsidianTargetAlias));
}

#[test]
fn wikilink_needs_closing_brackets() {
    let (matched, _) = run("[[Note", StateName::ObsidianWikilinkStart);
    assert!(!matched);
}

#[test]
fn embed_is_recognized() {
    let (matched, tokenizer) = run("![[image.png]]", StateName::ObsidianEmbedStart);
    assert!(matched);
    assert_eq!(tokenizer.index, 14);
}

#[test]
fn comment_is_recognized() {
    let (matched, tokenizer) = run("%%hidden%% after", StateName::ObsidianCommentStart);
    assert!(matched);
    assert_eq!(tokenizer.index, "%%hidden%%".len());
}

#[test]
fn highlight_is_recognized() {
    let (matched, tokenizer) = run("==b== c", StateName::ObsidianHighlightStart);
    assert!(matched);
    assert_eq!(tokenizer.index, 5);
}

#[test]
fn block_id_is_recognized() {
    let (matched, tokenizer) = run("^abc-def", StateName::ObsidianBlockIdStart);
    assert!(matched);
    assert_eq!(tokenizer.index, 8);
    let (matched, _) = run("^", StateName::ObsidianBlockIdStart);
    assert!(!matched);
}

#[test]
fn constructs_off_do_not_match() {
    let mut tokenizer = Tokenizer::new(b"[[Note]]".to_vec(), 0, Constructs::default());
    assert!(!attempt(&mut tokenizer, StateName::ObsidianWikilinkStart));
}

#[test]
fn identifiers_normalize() {
    assert_eq!(normalize_identifier("  Foo \n\t Bar  "), "FOO BAR");
    assert_eq!(normalize_identifier("ẞ"), "SS");
    assert_eq!(normalize_identifier(""), "");
}

#[test]
fn comment_reads_lone_percent_as_content() {
    let (matched, tokenizer) = run("%%a%b%% tail", StateName::ObsidianCommentStart);
    assert!(matched);
    assert_eq!(tokenizer.index, "%%a%b%%".len());
    let (matched, _) = run("%%a\n%%", StateName::ObsidianCommentStart);
    assert!(!matched);
    let (matched, tokenizer) = run("%%%%", StateName::ObsidianCommentStart);
    assert!(matched);
    assert_eq!(tokenizer.index, 4);
}

#[test]
fn block_id_must_end_the_line() {
    let (matched, tokenizer) = run("^id-1\nnext", StateName::ObsidianBlockIdStart);
    assert!(matched);
    assert_eq!(tokenizer.index, 5);
    let (matched, _) = run("^id here", StateName::ObsidianBlockIdStart);
    assert!(!matched);
}

#[test]
fn normalized_identifiers_have_collapsed_spaces() {
    let normalized = normalize_identifier("\t a  b\r\n\nc ");
    assert_eq!(normalized, "A B C");
    assert!(!normalized.starts_with(' '));
    assert!(!normalized.ends_with(' '));
    assert!(!normalized.contains("  "));
}
