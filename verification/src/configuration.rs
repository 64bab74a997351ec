//! Which constructs are turned on, and the option presets built from them.

use vstd::prelude::*;
use std::sync::Arc;
use crate::util::text::{option_debug, option_debug_text};

verus! {

/// Control which constructs are enabled.
///
/// Not all constructs can be configured: blank lines and paragraphs cannot
/// be turned off.
#[derive(Clone, Debug, PartialEq, Eq, Structural)]
pub struct Constructs {
    /// Attention (`*a*`, `**b**`).
    pub attention: bool,
    /// Autolink (`<https://example.com>`).
    pub autolink: bool,
    /// Block quote (`> a`).
    pub block_quote: bool,
    /// Character escape (`\*`).
    pub character_escape: bool,
    /// Character reference (`&amp;`).
    pub character_reference: bool,
    /// Code (indented).
    pub code_indented: bool,
    /// Code (fenced).
    pub code_fenced: bool,
    /// Code (text, `` `a` ``).
    pub code_text: bool,
    /// Definition (`[a]: b "c"`).
    pub definition: bool,
    /// Frontmatter (YAML or TOML between fences).
    pub frontmatter: bool,
    /// GFM: autolink literal (`https://example.com`).
    pub gfm_autolink_literal: bool,
    /// GFM: footnote definition (`[^a]: b`).
    pub gfm_footnote_definition: bool,
    /// GFM: footnote label start (`[^`).
    pub gfm_label_start_footnote: bool,
    /// GFM: strikethrough (`~a~`).
    pub gfm_strikethrough: bool,
    /// GFM: table.
    pub gfm_table: bool,
    /// GFM: task list item (`* [x] y`).
    pub gfm_task_list_item: bool,
    /// Hard break (escape, a backslash before a line ending).
    pub hard_break_escape: bool,
    /// Hard break (two trailing spaces).
    pub hard_break_trailing: bool,
    /// Heading (atx, `# a`).
    pub heading_atx: bool,
    /// Heading (setext, underlined).
    pub heading_setext: bool,
    /// HTML (flow).
    pub html_flow: bool,
    /// HTML (text).
    pub html_text: bool,
    /// Label start (image, `![`).
    pub label_start_image: bool,
    /// Label start (link, `[`).
    pub label_start_link: bool,
    /// Label end (`](c)`).
    pub label_end: bool,
    /// List items.
    pub list_item: bool,
    /// Math (flow, `$$`).
    pub math_flow: bool,
    /// Math (text, `$a$`).
    pub math_text: bool,
    /// MDX: ESM (`import a from 'b'`).
    pub mdx_esm: bool,
    /// MDX: expression (flow, `{Math.PI}`).
    pub mdx_expression_flow: bool,
    /// MDX: expression (text).
    pub mdx_expression_text: bool,
    /// MDX: JSX (flow, `<Component />`).
    pub mdx_jsx_flow: bool,
    /// MDX: JSX (text).
    pub mdx_jsx_text: bool,
    /// Thematic break (`***`).
    pub thematic_break: bool,
    /// Obsidian: wikilink (`[[Note]]`).
    pub obsidian_wikilink: bool,
    /// Obsidian: embed (`![[Note]]`).
    pub obsidian_embed: bool,
    /// Obsidian: block id (`^id`).
    pub obsidian_block_id: bool,
    /// Obsidian: comment (`%%b%%`).
    pub obsidian_comment: bool,
    /// Obsidian: highlight (`==b==`).
    pub obsidian_highlight: bool,
    /// Obsidian: callout (`> [!note] Title`).
    pub obsidian_callout: bool,
    /// `CodeHike`: decorated blocks (`## !name Title`), an mdast-only transform.
    pub code_hike_blocks: bool,
}

/// `CommonMark`: the constructs that are on by default.
pub open spec fn commonmark_constructs() -> Constructs {
    Constructs {
        attention: true,
        autolink: true,
        block_quote: true,
        character_escape: true,
        character_reference: true,
        code_indented: true,
        code_fenced: true,
        code_text: true,
        definition: true,
        frontmatter: false,
        gfm_autolink_literal: false,
        gfm_footnote_definition: false,
        gfm_label_start_footnote: false,
        gfm_strikethrough: false,
        gfm_table: false,
        gfm_task_list_item: false,
        hard_break_escape: true,
        hard_break_trailing: true,
        heading_atx: true,
        heading_setext: true,
        html_flow: true,
        html_text: true,
        label_start_image: true,
        label_start_link: true,
        label_end: true,
        list_item: true,
        math_flow: false,
        math_text: false,
        mdx_esm: false,
        mdx_expression_flow: false,
        mdx_expression_text: false,
        mdx_jsx_flow: false,
        mdx_jsx_text: false,
        thematic_break: true,
        obsidian_wikilink: false,
        obsidian_embed: false,
        obsidian_block_id: false,
        obsidian_comment: false,
        obsidian_highlight: false,
        obsidian_callout: false,
        code_hike_blocks: false,
    }
}

/// GFM: `CommonMark` plus autolink literals, footnotes, strikethrough, tables and task lists.
pub open spec fn gfm_constructs() -> Constructs {
    Constructs {
        gfm_autolink_literal: true,
        gfm_footnote_definition: true,
        gfm_label_start_footnote: true,
        gfm_strikethrough: true,
        gfm_table: true,
        gfm_task_list_item: true,
        ..commonmark_constructs()
    }
}

/// MDX: `CommonMark` without autolinks, indented code and HTML, plus ESM, expressions and JSX.
pub open spec fn mdx_constructs() -> Constructs {
    Constructs {
        autolink: false,
        code_indented: false,
        html_flow: false,
        html_text: false,
        mdx_esm: true,
        mdx_expression_flow: true,
        mdx_expression_text: true,
        mdx_jsx_flow: true,
        mdx_jsx_text: true,
        ..commonmark_constructs()
    }
}

/// Obsidian Flavored Markdown: `CommonMark` plus wikilinks, embeds, block ids, comments, highlights and callouts.
pub open spec fn obsidian_constructs() -> Constructs {
    Constructs {
        obsidian_wikilink: true,
        obsidian_embed: true,
        obsidian_block_id: true,
        obsidian_comment: true,
        obsidian_highlight: true,
        obsidian_callout: true,
        ..commonmark_constructs()
    }
}

/// GFM and Obsidian Flavored Markdown together: every GFM construct and
/// every OFM construct on.
pub open spec fn gfm_obsidian_constructs() -> Constructs {
    Constructs {
        obsidian_wikilink: true,
        obsidian_embed: true,
        obsidian_block_id: true,
        obsidian_comment: true,
        obsidian_highlight: true,
        obsidian_callout: true,
        ..gfm_constructs()
    }
}

/// `CodeHike`: `CommonMark` plus the decorated block transform.
pub open spec fn code_hike_constructs() -> Constructs {
    Constructs {
        code_hike_blocks: true,
        ..commonmark_constructs()
    }
}

/// Every construct that `a` turns on, `b` turns on too.
pub open spec fn constructs_included(a: Constructs, b: Constructs) -> bool {
    &&& (a.attention ==> b.attention)
    &&& (a.autolink ==> b.autolink)
    &&& (a.block_quote ==> b.block_quote)
    &&& (a.character_escape ==> b.character_escape)
    &&& (a.character_reference ==> b.character_reference)
    &&& (a.code_indented ==> b.code_indented)
    &&& (a.code_fenced ==> b.code_fenced)
    &&& (a.code_text ==> b.code_text)
    &&& (a.definition ==> b.definition)
    &&& (a.frontmatter ==> b.frontmatter)
    &&& (a.gfm_autolink_literal ==> b.gfm_autolink_literal)
    &&& (a.gfm_footnote_definition ==> b.gfm_footnote_definition)
    &&& (a.gfm_label_start_footnote ==> b.gfm_label_start_footnote)
    &&& (a.gfm_strikethrough ==> b.gfm_strikethrough)
    &&& (a.gfm_table ==> b.gfm_table)
    &&& (a.gfm_task_list_item ==> b.gfm_task_list_item)
    &&& (a.hard_break_escape ==> b.hard_break_escape)
    &&& (a.hard_break_trailing ==> b.hard_break_trailing)
    &&& (a.heading_atx ==> b.heading_atx)
    &&& (a.heading_setext ==> b.heading_setext)
    &&& (a.html_flow ==> b.html_flow)
    &&& (a.html_text ==> b.html_text)
    &&& (a.label_start_image ==> b.label_start_image)
    &&& (a.label_start_link ==> b.label_start_link)
    &&& (a.label_end ==> b.label_end)
    &&& (a.list_item ==> b.list_item)
    &&& (a.math_flow ==> b.math_flow)
    &&& (a.math_text ==> b.math_text)
    &&& (a.mdx_esm ==> b.mdx_esm)
    &&& (a.mdx_expression_flow ==> b.mdx_expression_flow)
    &&& (a.mdx_expression_text ==> b.mdx_expression_text)
    &&& (a.mdx_jsx_flow ==> b.mdx_jsx_flow)
    &&& (a.mdx_jsx_text ==> b.mdx_jsx_text)
    &&& (a.thematic_break ==> b.thematic_break)
    &&& (a.obsidian_wikilink ==> b.obsidian_wikilink)
    &&& (a.obsidian_embed ==> b.obsidian_embed)
    &&& (a.obsidian_block_id ==> b.obsidian_block_id)
    &&& (a.obsidian_comment ==> b.obsidian_comment)
    &&& (a.obsidian_highlight ==> b.obsidian_highlight)
    &&& (a.obsidian_callout ==> b.obsidian_callout)
    &&& (a.code_hike_blocks ==> b.code_hike_blocks)
}

impl Default for Constructs {
    /// `CommonMark`.
    fn default() -> (constructs: Self)
        ensures
            constructs == commonmark_constructs(),
    {
        Constructs {
            attention: true,
            autolink: true,
            block_quote: true,
            character_escape: true,
            character_reference: true,
            code_indented: true,
            code_fenced: true,
            code_text: true,
            definition: true,
            frontmatter: false,
            gfm_autolink_literal: false,
            gfm_footnote_definition: false,
            gfm_label_start_footnote: false,
            gfm_strikethrough: false,
            gfm_table: false,
            gfm_task_list_item: false,
            hard_break_escape: true,
            hard_break_trailing: true,
            heading_atx: true,
            heading_setext: true,
            html_flow: true,
            html_text: true,
            label_start_image: true,
            label_start_link: true,
            label_end: true,
            list_item: true,
            math_flow: false,
            math_text: false,
            mdx_esm: false,
            mdx_expression_flow: false,
            mdx_expression_text: false,
            mdx_jsx_flow: false,
            mdx_jsx_text: false,
            thematic_break: true,
            obsidian_wikilink: false,
            obsidian_embed: false,
            obsidian_block_id: false,
            obsidian_comment: false,
            obsidian_highlight: false,
            obsidian_callout: false,
            code_hike_blocks: false,
        }
    }
}

impl Constructs {
    /// GFM: extends `CommonMark` with autolink literals, footnotes,
    /// strikethrough, tables, and task lists.
    pub fn gfm() -> (constructs: Self)
        ensures
            constructs == gfm_constructs(),
    {
        Self {
            gfm_autolink_literal: true,
            gfm_footnote_definition: true,
            gfm_label_start_footnote: true,
            gfm_strikethrough: true,
            gfm_table: true,
            gfm_task_list_item: true,
            ..Self::default()
        }
    }

    /// MDX: `CommonMark` without autolinks, indented code, and HTML, with
    /// ESM, expressions, and JSX turned on.
    pub fn mdx() -> (constructs: Self)
        ensures
            constructs == mdx_constructs(),
    {
        Self {
            autolink: false,
            code_indented: false,
            html_flow: false,
            html_text: false,
            mdx_esm: true,
            mdx_expression_flow: true,
            mdx_expression_text: true,
            mdx_jsx_flow: true,
            mdx_jsx_text: true,
            ..Self::default()
        }
    }

    /// Obsidian Flavored Markdown: `CommonMark` with wikilinks, embeds,
    /// block ids, comments, highlights, and callouts.
    pub fn obsidian() -> (constructs: Self)
        ensures
            constructs == obsidian_constructs(),
    {
        Self {
            obsidian_wikilink: true,
            obsidian_embed: true,
            obsidian_block_id: true,
            obsidian_comment: true,
            obsidian_highlight: true,
            obsidian_callout: true,
            ..Self::default()
        }
    }

    /// `CodeHike` blocks: `CommonMark` with the decorated block transform.
    pub fn code_hike() -> (constructs: Self)
        ensures
            constructs == code_hike_constructs(),
    {
        Self {
            code_hike_blocks: true,
            ..Self::default()
        }
    }
}

/// Parsed target of an Obsidian wikilink or embed.
///
/// `path` is `None` for same-file references such as `[[#Heading]]`.
/// At most one of `heading` and `block_id` is `Some`.
#[derive(Clone, Debug, PartialEq, Eq)]
pub struct ObsidianLinkTarget {
    /// Note path/file name, or `None` for same-file references.
    pub path: Option<String>,
    /// Heading anchor within the target note.
    pub heading: Option<String>,
    /// Block reference id within the target note.
    pub block_id: Option<String>,
    /// Display text (alias).
    pub alias: Option<String>,
}

impl Default for ObsidianLinkTarget {
    fn default() -> (target: Self)
        ensures
            target.path is None,
            target.heading is None,
            target.block_id is None,
            target.alias is None,
    {
        ObsidianLinkTarget { path: None, heading: None, block_id: None, alias: None }
    }
}

/// Result of resolving an Obsidian wikilink to HTML.
#[derive(Clone, Debug, PartialEq, Eq)]
pub struct ObsidianLinkResolution {
    /// Already-encoded `href` attribute value.
    pub href: String,
    /// Display text; when `None` the caller falls back to the alias, path,
    /// or heading.
    pub text: Option<String>,
}

/// Result of resolving an Obsidian embed to HTML.
#[derive(Clone, Debug, PartialEq, Eq)]
pub struct ObsidianEmbedResolution {
    /// Complete HTML for the embed.
    pub html: String,
}

/// Resolves wikilink targets to links; supplied by users of the library.
pub trait ObsidianLinkResolver {
    /// Resolve one target.
    fn resolve(&self, target: &ObsidianLinkTarget) -> ObsidianLinkResolution;
}

/// Resolves embed targets to HTML; supplied by users of the library.
pub trait ObsidianEmbedResolver {
    /// Resolve one target.
    fn resolve(&self, target: &ObsidianLinkTarget) -> ObsidianEmbedResolution;
}

/// Line ending used when the document itself gives none.
#[derive(Clone, Copy, Debug, PartialEq, Eq, Structural)]
pub enum LineEnding {
    /// `\r\n`.
    CarriageReturnLineFeed,
    /// `\r`.
    CarriageReturn,
    /// `\n`.
    LineFeed,
}

impl Default for LineEnding {
    fn default() -> (ending: Self)
        ensures
            ending == LineEnding::LineFeed,
    {
        LineEnding::LineFeed
    }
}

/// Configuration that describes how to compile to HTML.
#[derive(Clone)]
pub struct CompileOptions {
    /// Allow all values in images (not only safe protocols).
    pub allow_any_img_src: bool,
    /// Whether to allow all values in HTML (dangerous).
    pub allow_dangerous_html: bool,
    /// Whether to allow all protocols in links (dangerous).
    pub allow_dangerous_protocol: bool,
    /// Default line ending to use when the input has none.
    pub default_line_ending: LineEnding,
    /// Textual label to describe the back reference of GFM footnotes.
    pub gfm_footnote_back_label: Option<String>,
    /// Prefix to use before the `id` of GFM footnotes.
    pub gfm_footnote_clobber_prefix: Option<String>,
    /// Attributes for the GFM footnote label.
    pub gfm_footnote_label_attributes: Option<String>,
    /// HTML tag name for the GFM footnote label.
    pub gfm_footnote_label_tag_name: Option<String>,
    /// Textual label to use for the GFM footnotes section.
    pub gfm_footnote_label: Option<String>,
    /// Whether GFM task list items are checkable.
    pub gfm_task_list_item_checkable: bool,
    /// Whether to support the GFM tagfilter.
    pub gfm_tagfilter: bool,
    /// Custom rendering of Obsidian wikilinks.
    pub obsidian_link_resolver: Option<Arc<dyn ObsidianLinkResolver>>,
    /// Custom rendering of Obsidian embeds.
    pub obsidian_embed_resolver: Option<Arc<dyn ObsidianEmbedResolver>>,
}

/// The safe `CommonMark` compile defaults, field by field.
pub open spec fn is_safe_compile_default(options: CompileOptions) -> bool {
    &&& !options.allow_any_img_src
    &&& !options.allow_dangerous_html
    &&& !options.allow_dangerous_protocol
    &&& options.default_line_ending == LineEnding::LineFeed
    &&& options.gfm_footnote_back_label is None
    &&& options.gfm_footnote_clobber_prefix is None
    &&& options.gfm_footnote_label_attributes is None
    &&& options.gfm_footnote_label_tag_name is None
    &&& options.gfm_footnote_label is None
    &&& !options.gfm_task_list_item_checkable
    &&& options.obsidian_link_resolver is None
    &&& options.obsidian_embed_resolver is None
}

impl Default for CompileOptions {
    /// Safe `CommonMark` defaults.
    fn default() -> (options: Self)
        ensures
            is_safe_compile_default(options),
            !options.gfm_tagfilter,
    {
        CompileOptions {
            allow_any_img_src: false,
            allow_dangerous_html: false,
            allow_dangerous_protocol: false,
            default_line_ending: LineEnding::default(),
            gfm_footnote_back_label: None,
            gfm_footnote_clobber_prefix: None,
            gfm_footnote_label_attributes: None,
            gfm_footnote_label_tag_name: None,
            gfm_footnote_label: None,
            gfm_task_list_item_checkable: false,
            gfm_tagfilter: false,
            obsidian_link_resolver: None,
            obsidian_embed_resolver: None,
        }
    }
}

impl CompileOptions {
    /// GFM: the safe defaults with the GFM tag filter turned on.
    pub fn gfm() -> (options: Self)
        ensures
            is_safe_compile_default(options),
            options.gfm_tagfilter,
    {
        Self { gfm_tagfilter: true, ..Self::default() }
    }

    /// Obsidian Flavored Markdown: the safe defaults, with no resolvers, so
    /// wikilinks and embeds render best-effort.
    pub fn obsidian() -> (options: Self)
        ensures
            is_safe_compile_default(options),
            !options.gfm_tagfilter,
    {
        Self::default()
    }
}

/// Result of an MDX parse callback.
#[derive(Clone, Debug, PartialEq, Eq)]
pub enum Signal {
    /// A syntax error, with its reason and the byte offset where it occurs.
    Error(String, usize),
    /// The value ended early, with its reason.
    Eof(String),
    /// The value is fine.
    Valid,
}

/// Which kind of MDX expression is being parsed.
#[derive(Clone, Copy, Debug, PartialEq, Eq, Structural)]
pub enum ExpressionKind {
    /// `{a}` in flow or text.
    Expression,
    /// `<a {...b} />`.
    AttributeExpression,
    /// `<a b={c} />`.
    AttributeValueExpression,
}

/// Parses MDX ESM; supplied by users of the library.
pub trait MdxEsmParse {
    /// Check one ESM value.
    fn parse(&self, value: &str) -> Signal;
}

/// Parses MDX expressions; supplied by users of the library.
pub trait MdxExpressionParse {
    /// Check one expression value.
    fn parse(&self, value: &str, kind: &ExpressionKind) -> Signal;
}

/// Configuration that describes how to parse from markdown.
pub struct ParseOptions {
    /// Which constructs to enable and disable.
    pub constructs: Constructs,
    /// Whether to support GFM strikethrough with a single tilde.
    pub gfm_strikethrough_single_tilde: bool,
    /// Whether to support math (text) with a single dollar.
    pub math_text_single_dollar: bool,
    /// Function to parse expressions with.
    pub mdx_expression_parse: Option<Box<dyn MdxExpressionParse>>,
    /// Function to parse ESM with.
    pub mdx_esm_parse: Option<Box<dyn MdxEsmParse>>,
}

/// `ParseOptions` whose constructs are `constructs` and whose other fields
/// have their default values.
pub open spec fn parse_options_with(options: ParseOptions, constructs: Constructs) -> bool {
    &&& options.constructs == constructs
    &&& options.gfm_strikethrough_single_tilde
    &&& options.math_text_single_dollar
    &&& options.mdx_expression_parse is None
    &&& options.mdx_esm_parse is None
}

impl Default for ParseOptions {
    /// `CommonMark` defaults.
    fn default() -> (options: Self)
        ensures
            parse_options_with(options, commonmark_constructs()),
    {
        ParseOptions {
            constructs: Constructs::default(),
            gfm_strikethrough_single_tilde: true,
            math_text_single_dollar: true,
            mdx_expression_parse: None,
            mdx_esm_parse: None,
        }
    }
}

impl ParseOptions {
    /// GFM.
    pub fn gfm() -> (options: Self)
        ensures
            parse_options_with(options, gfm_constructs()),
    {
        Self { constructs: Constructs::gfm(), ..Self::default() }
    }

    /// MDX.
    pub fn mdx() -> (options: Self)
        ensures
            parse_options_with(options, mdx_constructs()),
    {
        Self { constructs: Constructs::mdx(), ..Self::default() }
    }

    /// Obsidian Flavored Markdown.
    pub fn obsidian() -> (options: Self)
        ensures
            parse_options_with(options, obsidian_constructs()),
    {
        Self { constructs: Constructs::obsidian(), ..Self::default() }
    }

    /// `CodeHike` blocks.
    pub fn code_hike() -> (options: Self)
        ensures
            parse_options_with(options, code_hike_constructs()),
    {
        Self { constructs: Constructs::code_hike(), ..Self::default() }
    }
}

/// Configuration that describes how to parse from markdown and compile to
/// HTML.
pub struct Options {
    /// Configuration that describes how to parse from markdown.
    pub parse: ParseOptions,
    /// Configuration that describes how to compile to HTML.
    pub compile: CompileOptions,
}

impl Default for Options {
    /// Safe `CommonMark`.
    fn default() -> (options: Self)
        ensures
            parse_options_with(options.parse, commonmark_constructs()),
            is_safe_compile_default(options.compile),
            !options.compile.gfm_tagfilter,
    {
        Options { parse: ParseOptions::default(), compile: CompileOptions::default() }
    }
}

impl Options {
    /// GFM: GFM constructs and the GFM tag filter.
    pub fn gfm() -> (options: Self)
        ensures
            parse_options_with(options.parse, gfm_constructs()),
            is_safe_compile_default(options.compile),
            options.compile.gfm_tagfilter,
    {
        Self { parse: ParseOptions::gfm(), compile: CompileOptions::gfm() }
    }

    /// Obsidian Flavored Markdown combined with GFM: every GFM and OFM
    /// construct, compiled with the Obsidian defaults: best-effort rendering
    /// of wikilinks and embeds (no resolvers).
    pub fn obsidian() -> (options: Self)
        ensures
            parse_options_with(options.parse, gfm_obsidian_constructs()),
            is_safe_compile_default(options.compile),
            !options.compile.gfm_tagfilter,
    {
        let mut parse = ParseOptions::gfm();
        parse.constructs.obsidian_wikilink = true;
        parse.constructs.obsidian_embed = true;
        parse.constructs.obsidian_block_id = true;
        parse.constructs.obsidian_comment = true;
        parse.constructs.obsidian_highlight = true;
        parse.constructs.obsidian_callout = true;
        Self { parse, compile: CompileOptions::obsidian() }
    }

    /// `CodeHike` blocks with the default compilation.
    pub fn code_hike() -> (options: Self)
        ensures
            parse_options_with(options.parse, code_hike_constructs()),
            is_safe_compile_default(options.compile),
            !options.compile.gfm_tagfilter,
    {
        Self { parse: ParseOptions::code_hike(), compile: CompileOptions::default() }
    }
}

/// GFM extends `CommonMark`: every `CommonMark` construct stays on.
pub proof fn lemma_gfm_extends_commonmark()
    ensures
        constructs_included(commonmark_constructs(), gfm_constructs()),
{
}

/// Obsidian Flavored Markdown extends `CommonMark`: every `CommonMark`
/// construct stays on.
pub proof fn lemma_obsidian_extends_commonmark()
    ensures
        constructs_included(commonmark_constructs(), obsidian_constructs()),
{
}

/// The `CodeHike` preset extends `CommonMark`.
pub proof fn lemma_code_hike_extends_commonmark()
    ensures
        constructs_included(commonmark_constructs(), code_hike_constructs()),
{
}

/// None of the extensions (GFM, math, MDX, frontmatter, Obsidian, `CodeHike`)
/// is on by default.
pub proof fn lemma_extensions_off_by_default()
    ensures
        !commonmark_constructs().frontmatter,
        !commonmark_constructs().gfm_autolink_literal,
        !commonmark_constructs().gfm_footnote_definition,
        !commonmark_constructs().gfm_label_start_footnote,
        !commonmark_constructs().gfm_strikethrough,
        !commonmark_constructs().gfm_table,
        !commonmark_constructs().gfm_task_list_item,
        !commonmark_constructs().math_flow,
        !commonmark_constructs().math_text,
        !commonmark_constructs().mdx_esm,
        !commonmark_constructs().mdx_expression_flow,
        !commonmark_constructs().mdx_expression_text,
        !commonmark_constructs().mdx_jsx_flow,
        !commonmark_constructs().mdx_jsx_text,
        !commonmark_constructs().obsidian_wikilink,
        !commonmark_constructs().obsidian_embed,
        !commonmark_constructs().obsidian_block_id,
        !commonmark_constructs().obsidian_comment,
        !commonmark_constructs().obsidian_highlight,
        !commonmark_constructs().obsidian_callout,
        !commonmark_constructs().code_hike_blocks,
{
}

/// `true` or `false`.
pub open spec fn bool_text(b: bool) -> Seq<char> {
    if b { "true"@ } else { "false"@ }
}

/// A field of debug text: `name: value`.
pub open spec fn field_text(name: Seq<char>, value: Seq<char>) -> Seq<char> {
    name + ": "@ + value
}

/// `prefix` followed by the debug text of the syntax fields of `c`.
pub open spec fn syntax_fields_text(prefix: Seq<char>, c: Constructs) -> Seq<char> {
    prefix + field_text("attention"@, bool_text(c.attention))
        + ", "@ + field_text("autolink"@, bool_text(c.autolink))
        + ", "@ + field_text("block_quote"@, bool_text(c.block_quote))
        + ", "@ + field_text("character_escape"@, bool_text(c.character_escape))
        + ", "@ + field_text("character_reference"@, bool_text(c.character_reference))
        + ", "@ + field_text("code_indented"@, bool_text(c.code_indented))
        + ", "@ + field_text("code_fenced"@, bool_text(c.code_fenced))
}

/// `prefix` followed by the debug text of the gfm fields of `c`.
pub open spec fn gfm_fields_text(prefix: Seq<char>, c: Constructs) -> Seq<char> {
    prefix + ", "@ + field_text("code_text"@, bool_text(c.code_text))
        + ", "@ + field_text("definition"@, bool_text(c.definition))
        + ", "@ + field_text("frontmatter"@, bool_text(c.frontmatter))
        + ", "@ + field_text("gfm_autolink_literal"@, bool_text(c.gfm_autolink_literal))
        + ", "@ + field_text("gfm_footnote_definition"@, bool_text(c.gfm_footnote_definition))
        + ", "@ + field_text("gfm_label_start_footnote"@, bool_text(c.gfm_label_start_footnote))
        + ", "@ + field_text("gfm_strikethrough"@, bool_text(c.gfm_strikethrough))
}

/// `prefix` followed by the debug text of the headings fields of `c`.
pub open spec fn headings_fields_text(prefix: Seq<char>, c: Constructs) -> Seq<char> {
    prefix + ", "@ + field_text("gfm_table"@, bool_text(c.gfm_table))
        + ", "@ + field_text("gfm_task_list_item"@, bool_text(c.gfm_task_list_item))
        + ", "@ + field_text("hard_break_escape"@, bool_text(c.hard_break_escape))
        + ", "@ + field_text("hard_break_trailing"@, bool_text(c.hard_break_trailing))
        + ", "@ + field_text("heading_atx"@, bool_text(c.heading_atx))
        + ", "@ + field_text("heading_setext"@, bool_text(c.heading_setext))
        + ", "@ + field_text("html_flow"@, bool_text(c.html_flow))
}

/// `prefix` followed by the debug text of the labels fields of `c`.
pub open spec fn labels_fields_text(prefix: Seq<char>, c: Constructs) -> Seq<char> {
    prefix + ", "@ + field_text("html_text"@, bool_text(c.html_text))
        + ", "@ + field_text("label_start_image"@, bool_text(c.label_start_image))
        + ", "@ + field_text("label_start_link"@, bool_text(c.label_start_link))
        + ", "@ + field_text("label_end"@, bool_text(c.label_end))
        + ", "@ + field_text("list_item"@, bool_text(c.list_item))
        + ", "@ + field_text("math_flow"@, bool_text(c.math_flow))
        + ", "@ + field_text("math_text"@, bool_text(c.math_text))
}

/// `prefix` followed by the debug text of the mdx fields of `c`.
pub open spec fn mdx_fields_text(prefix: Seq<char>, c: Constructs) -> Seq<char> {
    prefix + ", "@ + field_text("mdx_esm"@, bool_text(c.mdx_esm))
        + ", "@ + field_text("mdx_expression_flow"@, bool_text(c.mdx_expression_flow))
        + ", "@ + field_text("mdx_expression_text"@, bool_text(c.mdx_expression_text))
        + ", "@ + field_text("mdx_jsx_flow"@, bool_text(c.mdx_jsx_flow))
        + ", "@ + field_text("mdx_jsx_text"@, bool_text(c.mdx_jsx_text))
        + ", "@ + field_text("thematic_break"@, bool_text(c.thematic_break))
        + ", "@ + field_text("obsidian_wikilink"@, bool_text(c.obsidian_wikilink))
}

/// `prefix` followed by the debug text of the obsidian fields of `c`.
pub open spec fn obsidian_fields_text(prefix: Seq<char>, c: Constructs) -> Seq<char> {
    prefix + ", "@ + field_text("obsidian_embed"@, bool_text(c.obsidian_embed))
        + ", "@ + field_text("obsidian_block_id"@, bool_text(c.obsidian_block_id))
        + ", "@ + field_text("obsidian_comment"@, bool_text(c.obsidian_comment))
        + ", "@ + field_text("obsidian_highlight"@, bool_text(c.obsidian_highlight))
        + ", "@ + field_text("obsidian_callout"@, bool_text(c.obsidian_callout))
        + ", "@ + field_text("code_hike_blocks"@, bool_text(c.code_hike_blocks))
}

/// The debug text of `c`: the struct name and every field with its value,
/// in declaration order.
pub open spec fn constructs_debug_text(c: Constructs) -> Seq<char> {
    obsidian_fields_text(mdx_fields_text(labels_fields_text(headings_fields_text(gfm_fields_text(syntax_fields_text("Constructs { "@, c), c), c), c), c), c) + " }"@
}

/// Append `name: value`, after `, ` unless `first`.
fn push_field(out: &mut String, first: bool, name: &str, value: &str)
    ensures
        final(out)@ == if first { old(out)@ + field_text(name@, value@) } else { old(out)@ + ", "@ + field_text(name@, value@) },
{
    if !first {
        out.append(", ");
    }
    let ghost separated = out@;
    out.append(name);
    out.append(": ");
    out.append(value);
    proof {
        assert(out@ =~= separated + field_text(name@, value@));
    }
}

/// Append `name: true` or `name: false`, after `, ` unless `first`.
fn push_bool_field(out: &mut String, first: bool, name: &str, value: bool)
    ensures
        final(out)@ == if first { old(out)@ + field_text(name@, bool_text(value)) } else { old(out)@ + ", "@ + field_text(name@, bool_text(value)) },
{
    if value {
        push_field(out, first, name, "true");
    } else {
        push_field(out, first, name, "false");
    }
}

/// Append to `out` the debug text of the syntax fields of `c`.
fn push_syntax_fields(out: &mut String, c: &Constructs)
    ensures
        final(out)@ == syntax_fields_text(old(out)@, *c),
{
    push_bool_field(out, true, "attention", c.attention);
    push_bool_field(out, false, "autolink", c.autolink);
    push_bool_field(out, false, "block_quote", c.block_quote);
    push_bool_field(out, false, "character_escape", c.character_escape);
    push_bool_field(out, false, "character_reference", c.character_reference);
    push_bool_field(out, false, "code_indented", c.code_indented);
    push_bool_field(out, false, "code_fenced", c.code_fenced);
}

/// Append to `out` the debug text of the gfm fields of `c`.
fn push_gfm_fields(out: &mut String, c: &Constructs)
    ensures
        final(out)@ == gfm_fields_text(old(out)@, *c),
{
    push_bool_field(out, false, "code_text", c.code_text);
    push_bool_field(out, false, "definition", c.definition);
    push_bool_field(out, false, "frontmatter", c.frontmatter);
    push_bool_field(out, false, "gfm_autolink_literal", c.gfm_autolink_literal);
    push_bool_field(out, false, "gfm_footnote_definition", c.gfm_footnote_definition);
    push_bool_field(out, false, "gfm_label_start_footnote", c.gfm_label_start_footnote);
    push_bool_field(out, false, "gfm_strikethrough", c.gfm_strikethrough);
}

/// Append to `out` the debug text of the headings fields of `c`.
fn push_headings_fields(out: &mut String, c: &Constructs)
    ensures
        final(out)@ == headings_fields_text(old(out)@, *c),
{
    push_bool_field(out, false, "gfm_table", c.gfm_table);
    push_bool_field(out, false, "gfm_task_list_item", c.gfm_task_list_item);
    push_bool_field(out, false, "hard_break_escape", c.hard_break_escape);
    push_bool_field(out, false, "hard_break_trailing", c.hard_break_trailing);
    push_bool_field(out, false, "heading_atx", c.heading_atx);
    push_bool_field(out, false, "heading_setext", c.heading_setext);
    push_bool_field(out, false, "html_flow", c.html_flow);
}

/// Append to `out` the debug text of the labels fields of `c`.
fn push_labels_fields(out: &mut String, c: &Constructs)
    ensures
        final(out)@ == labels_fields_text(old(out)@, *c),
{
    push_bool_field(out, false, "html_text", c.html_text);
    push_bool_field(out, false, "label_start_image", c.label_start_image);
    push_bool_field(out, false, "label_start_link", c.label_start_link);
    push_bool_field(out, false, "label_end", c.label_end);
    push_bool_field(out, false, "list_item", c.list_item);
    push_bool_field(out, false, "math_flow", c.math_flow);
    push_bool_field(out, false, "math_text", c.math_text);
}

/// Append to `out` the debug text of the mdx fields of `c`.
fn push_mdx_fields(out: &mut String, c: &Constructs)
    ensures
        final(out)@ == mdx_fields_text(old(out)@, *c),
{
    push_bool_field(out, false, "mdx_esm", c.mdx_esm);
    push_bool_field(out, false, "mdx_expression_flow", c.mdx_expression_flow);
    push_bool_field(out, false, "mdx_expression_text", c.mdx_expression_text);
    push_bool_field(out, false, "mdx_jsx_flow", c.mdx_jsx_flow);
    push_bool_field(out, false, "mdx_jsx_text", c.mdx_jsx_text);
    push_bool_field(out, false, "thematic_break", c.thematic_break);
    push_bool_field(out, false, "obsidian_wikilink", c.obsidian_wikilink);
}

/// Append to `out` the debug text of the obsidian fields of `c`.
fn push_obsidian_fields(out: &mut String, c: &Constructs)
    ensures
        final(out)@ == obsidian_fields_text(old(out)@, *c),
{
    push_bool_field(out, false, "obsidian_embed", c.obsidian_embed);
    push_bool_field(out, false, "obsidian_block_id", c.obsidian_block_id);
    push_bool_field(out, false, "obsidian_comment", c.obsidian_comment);
    push_bool_field(out, false, "obsidian_highlight", c.obsidian_highlight);
    push_bool_field(out, false, "obsidian_callout", c.obsidian_callout);
    push_bool_field(out, false, "code_hike_blocks", c.code_hike_blocks);
}

impl Constructs {
    /// Debug text: the struct name and every field with its value.
    pub fn debug_text(&self) -> (r: String)
        ensures
            r@ == constructs_debug_text(*self),
    {
        let mut out = "Constructs { ".to_owned();
        push_syntax_fields(&mut out, self);
        push_gfm_fields(&mut out, self);
        push_headings_fields(&mut out, self);
        push_labels_fields(&mut out, self);
        push_mdx_fields(&mut out, self);
        push_obsidian_fields(&mut out, self);
        out.append(" }");
        out
    }
}

/// Debug text of an optional user function.
pub open spec fn function_slot_text(present: bool) -> Seq<char> {
    if present { "Some(\"[Function]\")"@ } else { "None"@ }
}

/// The debug text of `o`.
pub open spec fn parse_options_debug_text(o: ParseOptions) -> Seq<char> {
    "ParseOptions { "@ + field_text("constructs"@, constructs_debug_text(o.constructs))
        + ", "@ + field_text("gfm_strikethrough_single_tilde"@, bool_text(o.gfm_strikethrough_single_tilde))
        + ", "@ + field_text("math_text_single_dollar"@, bool_text(o.math_text_single_dollar))
        + ", "@ + field_text("mdx_expression_parse"@, function_slot_text(o.mdx_expression_parse is Some))
        + ", "@ + field_text("mdx_esm_parse"@, function_slot_text(o.mdx_esm_parse is Some))
        + " }"@
}

impl ParseOptions {
    /// Debug text: every field with its value; functions show as
    /// `"[Function]"`.
    pub fn debug_text(&self) -> (r: String)
        ensures
            r@ == parse_options_debug_text(*self),
    {
        let mut out = "ParseOptions { ".to_owned();
        let constructs = self.constructs.debug_text();
        push_field(&mut out, true, "constructs", constructs.as_str());
        push_bool_field(&mut out, false, "gfm_strikethrough_single_tilde", self.gfm_strikethrough_single_tilde);
        push_bool_field(&mut out, false, "math_text_single_dollar", self.math_text_single_dollar);
        let expression = if self.mdx_expression_parse.is_some() { "Some(\"[Function]\")" } else { "None" };
        push_field(&mut out, false, "mdx_expression_parse", expression);
        let esm = if self.mdx_esm_parse.is_some() { "Some(\"[Function]\")" } else { "None" };
        push_field(&mut out, false, "mdx_esm_parse", esm);
        out.append(" }");
        out
    }
}

/// Debug text of a line ending: its variant name.
pub open spec fn line_ending_debug_text(ending: LineEnding) -> Seq<char> {
    match ending {
        LineEnding::CarriageReturnLineFeed => "CarriageReturnLineFeed"@,
        LineEnding::CarriageReturn => "CarriageReturn"@,
        LineEnding::LineFeed => "LineFeed"@,
    }
}

/// The view of an optional string.
pub open spec fn optional_text(value: Option<String>) -> Option<Seq<char>> {
    match value {
        Some(s) => Some(s@),
        None => None,
    }
}

/// `prefix` followed by the debug text of the safety fields of `o`.
pub open spec fn safety_fields_text(prefix: Seq<char>, o: CompileOptions) -> Seq<char> {
    prefix + field_text("allow_any_img_src"@, bool_text(o.allow_any_img_src))
        + ", "@ + field_text("allow_dangerous_html"@, bool_text(o.allow_dangerous_html))
        + ", "@ + field_text("allow_dangerous_protocol"@, bool_text(o.allow_dangerous_protocol))
        + ", "@ + field_text("default_line_ending"@, line_ending_debug_text(o.default_line_ending))
}

/// `prefix` followed by the debug text of the footnote and Obsidian fields
/// of `o`.
pub open spec fn output_fields_text(prefix: Seq<char>, o: CompileOptions) -> Seq<char> {
    prefix + ", "@ + field_text("gfm_footnote_back_label"@, option_debug_text(optional_text(o.gfm_footnote_back_label)))
        + ", "@ + field_text("gfm_footnote_clobber_prefix"@, option_debug_text(optional_text(o.gfm_footnote_clobber_prefix)))
        + ", "@ + field_text("gfm_footnote_label_attributes"@, option_debug_text(optional_text(o.gfm_footnote_label_attributes)))
        + ", "@ + field_text("gfm_footnote_label_tag_name"@, option_debug_text(optional_text(o.gfm_footnote_label_tag_name)))
        + ", "@ + field_text("gfm_footnote_label"@, option_debug_text(optional_text(o.gfm_footnote_label)))
        + ", "@ + field_text("gfm_task_list_item_checkable"@, bool_text(o.gfm_task_list_item_checkable))
        + ", "@ + field_text("gfm_tagfilter"@, bool_text(o.gfm_tagfilter))
        + ", "@ + field_text("obsidian_link_resolver"@, function_slot_text(o.obsidian_link_resolver is Some))
        + ", "@ + field_text("obsidian_embed_resolver"@, function_slot_text(o.obsidian_embed_resolver is Some))
}

/// The debug text of `o`.
pub open spec fn compile_options_debug_text(o: CompileOptions) -> Seq<char> {
    output_fields_text(safety_fields_text("CompileOptions { "@, o), o) + " }"@
}

/// Append `name: ` and the debug text of an optional string, after `, `.
fn push_optional_field(out: &mut String, name: &str, value: &Option<String>)
    ensures
        final(out)@ == old(out)@ + ", "@ + field_text(name@, option_debug_text(optional_text(*value))),
{
    let text = option_debug(value);
    push_field(out, false, name, text.as_str());
}

impl CompileOptions {
    /// Debug text: every field with its value; resolvers show as
    /// `"[Function]"`.
    pub fn debug_text(&self) -> (r: String)
        ensures
            r@ == compile_options_debug_text(*self),
    {
        let mut out = "CompileOptions { ".to_owned();
        push_bool_field(&mut out, true, "allow_any_img_src", self.allow_any_img_src);
        push_bool_field(&mut out, false, "allow_dangerous_html", self.allow_dangerous_html);
        push_bool_field(&mut out, false, "allow_dangerous_protocol", self.allow_dangerous_protocol);
        let ending = match self.default_line_ending {
            LineEnding::CarriageReturnLineFeed => "CarriageReturnLineFeed",
            LineEnding::CarriageReturn => "CarriageReturn",
            LineEnding::LineFeed => "LineFeed",
        };
        push_field(&mut out, false, "default_line_ending", ending);
        push_optional_field(&mut out, "gfm_footnote_back_label", &self.gfm_footnote_back_label);
        push_optional_field(&mut out, "gfm_footnote_clobber_prefix", &self.gfm_footnote_clobber_prefix);
        push_optional_field(&mut out, "gfm_footnote_label_attributes", &self.gfm_footnote_label_attributes);
        push_optional_field(&mut out, "gfm_footnote_label_tag_name", &self.gfm_footnote_label_tag_name);
        push_optional_field(&mut out, "gfm_footnote_label", &self.gfm_footnote_label);
        push_bool_field(&mut out, false, "gfm_task_list_item_checkable", self.gfm_task_list_item_checkable);
        push_bool_field(&mut out, false, "gfm_tagfilter", self.gfm_tagfilter);
        let link = if self.obsidian_link_resolver.is_some() { "Some(\"[Function]\")" } else { "None" };
        push_field(&mut out, false, "obsidian_link_resolver", link);
        let embed = if self.obsidian_embed_resolver.is_some() { "Some(\"[Function]\")" } else { "None" };
        push_field(&mut out, false, "obsidian_embed_resolver", embed);
        out.append(" }");
        out
    }
}

} // verus!
