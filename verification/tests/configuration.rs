use markdown_blocks::configuration::{
    CompileOptions, Constructs, ExpressionKind, MdxEsmParse, MdxExpressionParse, Options, ParseOptions, Signal,
};

struct AcceptEsm;

impl MdxEsmParse for AcceptEsm {
    fn parse(&self, _value: &str) -> Signal {
        Signal::Valid
    }
}

struct AcceptExpression;

impl MdxExpressionParse for AcceptExpression {
    fn parse(&self, _value: &str, _kind: &ExpressionKind) -> Signal {
        Signal::Valid
    }
}

#[test]
fn test_constructs() {
    Constructs::default();
    Constructs::gfm();
    Constructs::mdx();
    Constructs::obsidian();
    Constructs::code_hike();

    let constructs = Constructs::default();
    assert!(constructs.attention, "should default to `CommonMark` (1)");
    assert!(!constructs.gfm_autolink_literal, "should default to `CommonMark` (2)");
    assert!(!constructs.mdx_jsx_flow, "should default to `CommonMark` (3)");
    assert!(!constructs.frontmatter, "should default to `CommonMark` (4)");
    assert!(!constructs.code_hike_blocks, "should default to `CommonMark` (5)");

    let constructs = Constructs::gfm();
    assert!(constructs.attention, "should support `gfm` shortcut (1)");
    assert!(constructs.gfm_autolink_literal, "should support `gfm` shortcut (2)");
    assert!(!constructs.mdx_jsx_flow, "should support `gfm` shortcut (3)");
    assert!(!constructs.frontmatter, "should support `gfm` shortcut (4)");

    let constructs = Constructs::mdx();
    assert!(constructs.attention, "should support `gfm` shortcut (1)");
    assert!(!constructs.gfm_autolink_literal, "should support `mdx` shortcut (2)");
    assert!(constructs.mdx_jsx_flow, "should support `mdx` shortcut (3)");
    assert!(!constructs.frontmatter, "should support `mdx` shortcut (4)");

    let constructs = Constructs::obsidian();
    assert!(constructs.obsidian_wikilink, "should support `obsidian` shortcut (1)");
    assert!(constructs.obsidian_embed, "should support `obsidian` shortcut (2)");
    assert!(constructs.obsidian_callout, "should support `obsidian` shortcut (3)");
    assert!(!constructs.gfm_autolink_literal, "should support `obsidian` shortcut (4)");

    let constructs = Constructs::code_hike();
    assert!(constructs.code_hike_blocks, "should support `code_hike` shortcut (1)");
    assert!(constructs.attention, "should support `code_hike` shortcut (2)");
    assert!(!constructs.gfm_autolink_literal, "should support `code_hike` shortcut (3)");
}

#[test]
fn test_parse_options() {
    ParseOptions::default();
    ParseOptions::gfm();
    ParseOptions::mdx();
    ParseOptions::obsidian();
    ParseOptions::code_hike();

    let options = ParseOptions::default();
    assert!(options.constructs.attention, "should default to `CommonMark` (1)");
    assert!(!options.constructs.gfm_autolink_literal, "should default to `CommonMark` (2)");
    assert!(!options.constructs.mdx_jsx_flow, "should default to `CommonMark` (3)");
    assert!(!options.constructs.code_hike_blocks, "should default to `CommonMark` (4)");

    let options = ParseOptions::gfm();
    assert!(options.constructs.attention, "should support `gfm` shortcut (1)");
    assert!(options.constructs.gfm_autolink_literal, "should support `gfm` shortcut (2)");
    assert!(!options.constructs.mdx_jsx_flow, "should support `gfm` shortcut (3)");

    let options = ParseOptions::mdx();
    assert!(options.constructs.attention, "should support `mdx` shortcut (1)");
    assert!(!options.constructs.gfm_autolink_literal, "should support `mdx` shortcut (2)");
    assert!(options.constructs.mdx_jsx_flow, "should support `mdx` shortcut (3)");

    let options = ParseOptions::obsidian();
    assert!(options.constructs.obsidian_wikilink, "should support `obsidian` shortcut (1)");
    assert!(options.constructs.obsidian_callout, "should support `obsidian` shortcut (2)");
    assert!(!options.constructs.gfm_autolink_literal, "should support `obsidian` shortcut (3)");

    let options = ParseOptions::code_hike();
    assert!(options.constructs.code_hike_blocks, "should support `code_hike` shortcut (1)");
    assert!(options.constructs.attention, "should support `code_hike` shortcut (2)");

    assert_eq!(
        ParseOptions::default().debug_text(),
        "ParseOptions { constructs: Constructs { attention: true, autolink: true, block_quote: true, character_escape: true, character_reference: true, code_indented: true, code_fenced: true, code_text: true, definition: true, frontmatter: false, gfm_autolink_literal: false, gfm_footnote_definition: false, gfm_label_start_footnote: false, gfm_strikethrough: false, gfm_table: false, gfm_task_list_item: false, hard_break_escape: true, hard_break_trailing: true, heading_atx: true, heading_setext: true, html_flow: true, html_text: true, label_start_image: true, label_start_link: true, label_end: true, list_item: true, math_flow: false, math_text: false, mdx_esm: false, mdx_expression_flow: false, mdx_expression_text: false, mdx_jsx_flow: false, mdx_jsx_text: false, thematic_break: true, obsidian_wikilink: false, obsidian_embed: false, obsidian_block_id: false, obsidian_comment: false, obsidian_highlight: false, obsidian_callout: false, code_hike_blocks: false }, gfm_strikethrough_single_tilde: true, math_text_single_dollar: true, mdx_expression_parse: None, mdx_esm_parse: None }",
        "should support `Debug` trait"
    );
    assert_eq!(
        ParseOptions {
            mdx_esm_parse: Some(Box::new(AcceptEsm)),
            mdx_expression_parse: Some(Box::new(AcceptExpression)),
            ..Default::default()
        }
        .debug_text(),
        "ParseOptions { constructs: Constructs { attention: true, autolink: true, block_quote: true, character_escape: true, character_reference: true, code_indented: true, code_fenced: true, code_text: true, definition: true, frontmatter: false, gfm_autolink_literal: false, gfm_footnote_definition: false, gfm_label_start_footnote: false, gfm_strikethrough: false, gfm_table: false, gfm_task_list_item: false, hard_break_escape: true, hard_break_trailing: true, heading_atx: true, heading_setext: true, html_flow: true, html_text: true, label_start_image: true, label_start_link: true, label_end: true, list_item: true, math_flow: false, math_text: false, mdx_esm: false, mdx_expression_flow: false, mdx_expression_text: false, mdx_jsx_flow: false, mdx_jsx_text: false, thematic_break: true, obsidian_wikilink: false, obsidian_embed: false, obsidian_block_id: false, obsidian_comment: false, obsidian_highlight: false, obsidian_callout: false, code_hike_blocks: false }, gfm_strikethrough_single_tilde: true, math_text_single_dollar: true, mdx_expression_parse: Some(\"[Function]\"), mdx_esm_parse: Some(\"[Function]\") }",
        "should support `Debug` trait on mdx functions"
    );
}

#[test]
fn test_compile_options() {
    CompileOptions::default();
    CompileOptions::gfm();
    CompileOptions::obsidian();

    let options = CompileOptions::default();
    assert!(!options.allow_dangerous_html, "should default to safe `CommonMark` (1)");
    assert!(!options.gfm_tagfilter, "should default to safe `CommonMark` (2)");
    assert!(options.obsidian_link_resolver.is_none(), "should default to safe `CommonMark` (3)");

    let options = CompileOptions::gfm();
    assert!(!options.allow_dangerous_html, "should support safe `gfm` shortcut (1)");
    assert!(options.gfm_tagfilter, "should support safe `gfm` shortcut (1)");

    let options = CompileOptions::obsidian();
    assert!(options.obsidian_link_resolver.is_none(), "should support `obsidian` shortcut (1)");
    assert!(options.obsidian_embed_resolver.is_none(), "should support `obsidian` shortcut (2)");
}

#[test]
fn test_options() {
    Options::default();
    Options::code_hike();

    let options = Options::default();
    assert!(options.parse.constructs.attention, "should default to safe `CommonMark` (1)");
    assert!(!options.parse.constructs.gfm_autolink_literal, "should default to safe `CommonMark` (2)");
    assert!(!options.parse.constructs.mdx_jsx_flow, "should default to safe `CommonMark` (3)");
    assert!(!options.compile.allow_dangerous_html, "should default to safe `CommonMark` (4)");

    let options = Options::gfm();
    assert!(options.parse.constructs.attention, "should support safe `gfm` shortcut (1)");
    assert!(options.parse.constructs.gfm_autolink_literal, "should support safe `gfm` shortcut (2)");
    assert!(!options.parse.constructs.mdx_jsx_flow, "should support safe `gfm` shortcut (3)");
    assert!(!options.compile.allow_dangerous_html, "should support safe `gfm` shortcut (4)");

    let options = Options::obsidian();
    assert!(options.parse.constructs.obsidian_wikilink, "should support `obsidian` shortcut (1)");
    assert!(options.parse.constructs.obsidian_callout, "should support `obsidian` shortcut (2)");
    assert!(options.compile.obsidian_link_resolver.is_none(), "should support `obsidian` shortcut (3)");

    let options = Options::code_hike();
    assert!(options.parse.constructs.code_hike_blocks, "should support `code_hike` shortcut (1)");
    assert!(!options.compile.allow_dangerous_html, "should support `code_hike` shortcut (2)");
}

#[test]
fn obsidian_extends_commonmark_constructs() {
    let base = Constructs::default();
    let obsidian = Constructs::obsidian();
    assert!(obsidian.attention && base.attention);
    assert!(obsidian.obsidian_highlight && !base.obsidian_highlight);
    assert!(obsidian.obsidian_block_id && obsidian.obsidian_comment);
}

#[test]
fn compile_options_debug_text() {
    assert_eq!(
        CompileOptions::default().debug_text(),
        "CompileOptions { allow_any_img_src: false, allow_dangerous_html: false, allow_dangerous_protocol: false, default_line_ending: LineFeed, gfm_footnote_back_label: None, gfm_footnote_clobber_prefix: None, gfm_footnote_label_attributes: None, gfm_footnote_label_tag_name: None, gfm_footnote_label: None, gfm_task_list_item_checkable: false, gfm_tagfilter: false, obsidian_link_resolver: None, obsidian_embed_resolver: None }"
    );
    let options = CompileOptions { gfm_footnote_label: Some("Notes \"x\"".to_string()), ..CompileOptions::gfm() };
    assert!(options.debug_text().contains("gfm_footnote_label: Some(\"Notes \\\"x\\\"\")"));
    assert!(options.debug_text().contains("gfm_tagfilter: true"));
}
