//! Markdown abstract syntax tree, with its mathematical view.

use vstd::prelude::*;
use crate::configuration::ObsidianLinkTarget;
use crate::unist::Position;

verus! {

/// A node made of other nodes.
#[derive(Debug, PartialEq, Eq)]
pub struct Parent {
    /// Child nodes.
    pub children: Vec<Node>,
    /// Source location.
    pub position: Option<Position>,
}

/// A node that holds a value.
#[derive(Debug, PartialEq, Eq)]
pub struct Literal {
    /// Content.
    pub value: String,
    /// Source location.
    pub position: Option<Position>,
}

/// A node with neither content nor children.
#[derive(Debug, PartialEq, Eq)]
pub struct Void {
    /// Source location.
    pub position: Option<Position>,
}

/// GFM footnote definition.
#[derive(Debug, PartialEq, Eq)]
pub struct FootnoteDefinition {
    /// Child nodes.
    pub children: Vec<Node>,
    /// Source location.
    pub position: Option<Position>,
    /// Normalized identifier.
    pub identifier: String,
    /// Source label.
    pub label: Option<String>,
}

/// GFM footnote call.
#[derive(Debug, PartialEq, Eq)]
pub struct FootnoteReference {
    /// Source location.
    pub position: Option<Position>,
    /// Normalized identifier.
    pub identifier: String,
    /// Source label.
    pub label: Option<String>,
}

/// Image (`![a](b)`).
#[derive(Debug, PartialEq, Eq)]
pub struct Image {
    /// Source location.
    pub position: Option<Position>,
    /// Alternative text.
    pub alt: String,
    /// Image URL.
    pub url: String,
    /// Advisory title.
    pub title: Option<String>,
}

/// Image reference (`![a][b]`).
#[derive(Debug, PartialEq, Eq)]
pub struct ImageReference {
    /// Source location.
    pub position: Option<Position>,
    /// Alternative text.
    pub alt: String,
    /// Normalized identifier.
    pub identifier: String,
    /// Source label.
    pub label: Option<String>,
}

/// Link (`[a](b)`).
#[derive(Debug, PartialEq, Eq)]
pub struct Link {
    /// Child nodes.
    pub children: Vec<Node>,
    /// Source location.
    pub position: Option<Position>,
    /// Link URL.
    pub url: String,
    /// Advisory title.
    pub title: Option<String>,
}

/// Link reference (`[a][b]`).
#[derive(Debug, PartialEq, Eq)]
pub struct LinkReference {
    /// Child nodes.
    pub children: Vec<Node>,
    /// Source location.
    pub position: Option<Position>,
    /// Normalized identifier.
    pub identifier: String,
    /// Source label.
    pub label: Option<String>,
}

/// Code (flow).
#[derive(Debug, PartialEq, Eq)]
pub struct Code {
    /// Content.
    pub value: String,
    /// Source location.
    pub position: Option<Position>,
    /// Language, from the info string.
    pub lang: Option<String>,
    /// Rest of the info string.
    pub meta: Option<String>,
}

/// Heading.
#[derive(Debug, PartialEq, Eq)]
pub struct Heading {
    /// Child nodes.
    pub children: Vec<Node>,
    /// Source location.
    pub position: Option<Position>,
    /// Rank, 1 to 6.
    pub depth: u8,
}

/// Definition (`[a]: b`).
#[derive(Debug, PartialEq, Eq)]
pub struct Definition {
    /// Source location.
    pub position: Option<Position>,
    /// Destination URL.
    pub url: String,
    /// Advisory title.
    pub title: Option<String>,
    /// Normalized identifier.
    pub identifier: String,
    /// Source label.
    pub label: Option<String>,
}

/// Obsidian wikilink or embed.
#[derive(Debug, PartialEq, Eq)]
pub struct ObsidianLink {
    /// Source location.
    pub position: Option<Position>,
    /// Parsed target.
    pub target: ObsidianLinkTarget,
}

/// Obsidian callout.
#[derive(Debug, PartialEq, Eq)]
pub struct ObsidianCallout {
    /// Child nodes.
    pub children: Vec<Node>,
    /// Source location.
    pub position: Option<Position>,
    /// Callout type, such as `note`.
    pub callout_type: String,
    /// `Some(true)` for `+`, `Some(false)` for `-`.
    pub foldable: Option<bool>,
    /// Title text.
    pub title: Option<String>,
}

/// `CodeHike` block grouped under a decorated heading.
#[derive(Debug, PartialEq, Eq)]
pub struct CodeHikeBlock {
    /// Grouped sibling nodes.
    pub children: Vec<Node>,
    /// Source location.
    pub position: Option<Position>,
    /// Decoration name.
    pub name: String,
    /// Heading text after the decoration.
    pub title: String,
    /// Whether the `!!name` form was used.
    pub list: bool,
    /// Rank of the decorated heading.
    pub depth: u8,
}

/// `CodeHike` decorated paragraph.
#[derive(Debug, PartialEq, Eq)]
pub struct CodeHikeText {
    /// Paragraph text after the decoration.
    pub value: String,
    /// Source location.
    pub position: Option<Position>,
    /// Decoration name.
    pub name: String,
    /// Whether the `!!name` form was used.
    pub list: bool,
}

/// `CodeHike` decorated image.
#[derive(Debug, PartialEq, Eq)]
pub struct CodeHikeImage {
    /// Source location.
    pub position: Option<Position>,
    /// Decoration name.
    pub name: String,
    /// Whether the `!!name` form was used.
    pub list: bool,
    /// Alternative text after the decoration.
    pub alt: String,
    /// Image URL.
    pub url: String,
    /// Advisory title.
    pub title: Option<String>,
}

/// `CodeHike` decorated code.
#[derive(Debug, PartialEq, Eq)]
pub struct CodeHikeCode {
    /// Code content.
    pub value: String,
    /// Source location.
    pub position: Option<Position>,
    /// Decoration name.
    pub name: String,
    /// Whether the `!!name` form was used.
    pub list: bool,
    /// Language.
    pub lang: Option<String>,
    /// Meta after the decoration, if any.
    pub meta: Option<String>,
}

/// One node of the syntax tree.
#[derive(Debug, PartialEq, Eq)]
pub enum Node {
    /// Root.
    Root(Parent),
    /// Blockquote.
    Blockquote(Parent),
    /// FootnoteDefinition.
    FootnoteDefinition(FootnoteDefinition),
    /// MdxJsxFlowElement.
    MdxJsxFlowElement(Parent),
    /// List.
    List(Parent),
    /// MdxjsEsm.
    MdxjsEsm(Literal),
    /// Toml.
    Toml(Literal),
    /// Yaml.
    Yaml(Literal),
    /// Break.
    Break(Void),
    /// InlineCode.
    InlineCode(Literal),
    /// InlineMath.
    InlineMath(Literal),
    /// Delete.
    Delete(Parent),
    /// Emphasis.
    Emphasis(Parent),
    /// MdxTextExpression.
    MdxTextExpression(Literal),
    /// FootnoteReference.
    FootnoteReference(FootnoteReference),
    /// Html.
    Html(Literal),
    /// Image.
    Image(Image),
    /// ImageReference.
    ImageReference(ImageReference),
    /// MdxJsxTextElement.
    MdxJsxTextElement(Parent),
    /// Link.
    Link(Link),
    /// LinkReference.
    LinkReference(LinkReference),
    /// Strong.
    Strong(Parent),
    /// Text.
    Text(Literal),
    /// Code.
    Code(Code),
    /// Math.
    Math(Literal),
    /// MdxFlowExpression.
    MdxFlowExpression(Literal),
    /// Heading.
    Heading(Heading),
    /// Table.
    Table(Parent),
    /// ThematicBreak.
    ThematicBreak(Void),
    /// TableRow.
    TableRow(Parent),
    /// TableCell.
    TableCell(Parent),
    /// ListItem.
    ListItem(Parent),
    /// Definition.
    Definition(Definition),
    /// Paragraph.
    Paragraph(Parent),
    /// ObsidianWikilink.
    ObsidianWikilink(ObsidianLink),
    /// ObsidianEmbed.
    ObsidianEmbed(ObsidianLink),
    /// ObsidianComment.
    ObsidianComment(Literal),
    /// ObsidianBlockId.
    ObsidianBlockId(Literal),
    /// ObsidianHighlight.
    ObsidianHighlight(Parent),
    /// ObsidianCallout.
    ObsidianCallout(ObsidianCallout),
    /// CodeHikeBlock.
    CodeHikeBlock(CodeHikeBlock),
    /// CodeHikeText.
    CodeHikeText(CodeHikeText),
    /// CodeHikeImage.
    CodeHikeImage(CodeHikeImage),
    /// CodeHikeCode.
    CodeHikeCode(CodeHikeCode),
}

/// The variant of a node.
#[derive(Clone, Copy, Debug, PartialEq, Eq, Structural)]
pub enum NodeKind {
    /// Root.
    Root,
    /// Blockquote.
    Blockquote,
    /// FootnoteDefinition.
    FootnoteDefinition,
    /// MdxJsxFlowElement.
    MdxJsxFlowElement,
    /// List.
    List,
    /// MdxjsEsm.
    MdxjsEsm,
    /// Toml.
    Toml,
    /// Yaml.
    Yaml,
    /// Break.
    Break,
    /// InlineCode.
    InlineCode,
    /// InlineMath.
    InlineMath,
    /// Delete.
    Delete,
    /// Emphasis.
    Emphasis,
    /// MdxTextExpression.
    MdxTextExpression,
    /// FootnoteReference.
    FootnoteReference,
    /// Html.
    Html,
    /// Image.
    Image,
    /// ImageReference.
    ImageReference,
    /// MdxJsxTextElement.
    MdxJsxTextElement,
    /// Link.
    Link,
    /// LinkReference.
    LinkReference,
    /// Strong.
    Strong,
    /// Text.
    Text,
    /// Code.
    Code,
    /// Math.
    Math,
    /// MdxFlowExpression.
    MdxFlowExpression,
    /// Heading.
    Heading,
    /// Table.
    Table,
    /// ThematicBreak.
    ThematicBreak,
    /// TableRow.
    TableRow,
    /// TableCell.
    TableCell,
    /// ListItem.
    ListItem,
    /// Definition.
    Definition,
    /// Paragraph.
    Paragraph,
    /// ObsidianWikilink.
    ObsidianWikilink,
    /// ObsidianEmbed.
    ObsidianEmbed,
    /// ObsidianComment.
    ObsidianComment,
    /// ObsidianBlockId.
    ObsidianBlockId,
    /// ObsidianHighlight.
    ObsidianHighlight,
    /// ObsidianCallout.
    ObsidianCallout,
    /// CodeHikeBlock.
    CodeHikeBlock,
    /// CodeHikeText.
    CodeHikeText,
    /// CodeHikeImage.
    CodeHikeImage,
    /// CodeHikeCode.
    CodeHikeCode,
}

/// A node as a mathematical value: its kind and every field it can carry.
pub struct NodeView {
    /// Which variant the node is.
    pub kind: NodeKind,
    /// Children (empty for nodes without them).
    pub children: Seq<NodeView>,
    /// Source location.
    pub position: Option<Position>,
    /// Value of literals and code.
    pub value: Seq<char>,
    /// Rank of headings.
    pub depth: u8,
    /// Alternative text.
    pub alt: Seq<char>,
    /// URL.
    pub url: Seq<char>,
    /// Title.
    pub title: Option<Seq<char>>,
    /// Code language.
    pub lang: Option<Seq<char>>,
    /// Code meta.
    pub meta: Option<Seq<char>>,
    /// Reference or definition identifier.
    pub identifier: Seq<char>,
    /// Source label.
    pub label: Option<Seq<char>>,
    /// Decoration name.
    pub name: Seq<char>,
    /// Whether the `!!name` form was used.
    pub list: bool,
    /// Obsidian target path.
    pub path: Option<Seq<char>>,
    /// Obsidian target heading.
    pub heading: Option<Seq<char>>,
    /// Obsidian target block id.
    pub block_id: Option<Seq<char>>,
    /// Obsidian target alias.
    pub alias: Option<Seq<char>>,
    /// Callout type.
    pub callout_type: Seq<char>,
    /// Callout fold state.
    pub foldable: Option<bool>,
}

/// The view of a paragraph node.
pub open spec fn paragraph_view(p: Parent) -> NodeView {
    NodeView { children: nodes_view(p.children@), ..blank_view(NodeKind::Paragraph, p.position) }
}

/// The view of a heading node.
pub open spec fn heading_view(h: Heading) -> NodeView {
    NodeView { children: nodes_view(h.children@), depth: h.depth, ..blank_view(NodeKind::Heading, h.position) }
}

/// The view of a text node.
pub open spec fn text_view(t: Literal) -> NodeView {
    NodeView { value: t.value@, ..blank_view(NodeKind::Text, t.position) }
}

/// The view of a image node.
pub open spec fn image_view(i: Image) -> NodeView {
    NodeView { alt: i.alt@, url: i.url@, title: opt_view(i.title), ..blank_view(NodeKind::Image, i.position) }
}

/// The view of a code node.
pub open spec fn code_view(c: Code) -> NodeView {
    NodeView { value: c.value@, lang: opt_view(c.lang), meta: opt_view(c.meta), ..blank_view(NodeKind::Code, c.position) }
}

/// The view of an optional string.
pub open spec fn opt_view(o: Option<String>) -> Option<Seq<char>> {
    match o {
        Some(s) => Some(s@),
        None => None,
    }
}

/// A node of `kind` at `position` with every other field empty.
pub open spec fn blank_view(kind: NodeKind, position: Option<Position>) -> NodeView {
    NodeView {
        kind,
        children: Seq::empty(),
        position,
        value: Seq::empty(),
        depth: 0,
        alt: Seq::empty(),
        url: Seq::empty(),
        title: None,
        lang: None,
        meta: None,
        identifier: Seq::empty(),
        label: None,
        name: Seq::empty(),
        list: false,
        path: None,
        heading: None,
        block_id: None,
        alias: None,
        callout_type: Seq::empty(),
        foldable: None,
    }
}

/// Whether nodes of `kind` have children.
pub open spec fn is_parent(kind: NodeKind) -> bool {
    match kind {
        NodeKind::Root | NodeKind::Blockquote | NodeKind::FootnoteDefinition | NodeKind::MdxJsxFlowElement | NodeKind::List | NodeKind::Delete | NodeKind::Emphasis | NodeKind::MdxJsxTextElement | NodeKind::Link | NodeKind::LinkReference | NodeKind::Strong | NodeKind::Heading | NodeKind::Table | NodeKind::TableRow | NodeKind::TableCell | NodeKind::ListItem | NodeKind::Paragraph | NodeKind::ObsidianHighlight | NodeKind::ObsidianCallout | NodeKind::CodeHikeBlock => true,
        _ => false,
    }
}

/// The view of a node.
#[verifier::opaque]
pub open spec fn node_view(node: Node) -> NodeView
    decreases node, 0int,
{
    match node {
        Node::Root(x) => NodeView { children: nodes_view(x.children@), ..blank_view(NodeKind::Root, x.position) },
        Node::Blockquote(x) => NodeView { children: nodes_view(x.children@), ..blank_view(NodeKind::Blockquote, x.position) },
        Node::FootnoteDefinition(x) => NodeView { children: nodes_view(x.children@), identifier: x.identifier@, label: opt_view(x.label), ..blank_view(NodeKind::FootnoteDefinition, x.position) },
        Node::MdxJsxFlowElement(x) => NodeView { children: nodes_view(x.children@), ..blank_view(NodeKind::MdxJsxFlowElement, x.position) },
        Node::List(x) => NodeView { children: nodes_view(x.children@), ..blank_view(NodeKind::List, x.position) },
        Node::MdxjsEsm(x) => NodeView { value: x.value@, ..blank_view(NodeKind::MdxjsEsm, x.position) },
        Node::Toml(x) => NodeView { value: x.value@, ..blank_view(NodeKind::Toml, x.position) },
        Node::Yaml(x) => NodeView { value: x.value@, ..blank_view(NodeKind::Yaml, x.position) },
        Node::Break(x) => blank_view(NodeKind::Break, x.position),
        Node::InlineCode(x) => NodeView { value: x.value@, ..blank_view(NodeKind::InlineCode, x.position) },
        Node::InlineMath(x) => NodeView { value: x.value@, ..blank_view(NodeKind::InlineMath, x.position) },
        Node::Delete(x) => NodeView { children: nodes_view(x.children@), ..blank_view(NodeKind::Delete, x.position) },
        Node::Emphasis(x) => NodeView { children: nodes_view(x.children@), ..blank_view(NodeKind::Emphasis, x.position) },
        Node::MdxTextExpression(x) => NodeView { value: x.value@, ..blank_view(NodeKind::MdxTextExpression, x.position) },
        Node::FootnoteReference(x) => NodeView { identifier: x.identifier@, label: opt_view(x.label), ..blank_view(NodeKind::FootnoteReference, x.position) },
        Node::Html(x) => NodeView { value: x.value@, ..blank_view(NodeKind::Html, x.position) },
        Node::Image(x) => NodeView { alt: x.alt@, url: x.url@, title: opt_view(x.title), ..blank_view(NodeKind::Image, x.position) },
        Node::ImageReference(x) => NodeView { alt: x.alt@, identifier: x.identifier@, label: opt_view(x.label), ..blank_view(NodeKind::ImageReference, x.position) },
        Node::MdxJsxTextElement(x) => NodeView { children: nodes_view(x.children@), ..blank_view(NodeKind::MdxJsxTextElement, x.position) },
        Node::Link(x) => NodeView { children: nodes_view(x.children@), url: x.url@, title: opt_view(x.title), ..blank_view(NodeKind::Link, x.position) },
        Node::LinkReference(x) => NodeView { children: nodes_view(x.children@), identifier: x.identifier@, label: opt_view(x.label), ..blank_view(NodeKind::LinkReference, x.position) },
        Node::Strong(x) => NodeView { children: nodes_view(x.children@), ..blank_view(NodeKind::Strong, x.position) },
        Node::Text(x) => NodeView { value: x.value@, ..blank_view(NodeKind::Text, x.position) },
        Node::Code(x) => NodeView { value: x.value@, lang: opt_view(x.lang), meta: opt_view(x.meta), ..blank_view(NodeKind::Code, x.position) },
        Node::Math(x) => NodeView { value: x.value@, ..blank_view(NodeKind::Math, x.position) },
        Node::MdxFlowExpression(x) => NodeView { value: x.value@, ..blank_view(NodeKind::MdxFlowExpression, x.position) },
        Node::Heading(x) => NodeView { children: nodes_view(x.children@), depth: x.depth, ..blank_view(NodeKind::Heading, x.position) },
        Node::Table(x) => NodeView { children: nodes_view(x.children@), ..blank_view(NodeKind::Table, x.position) },
        Node::ThematicBreak(x) => blank_view(NodeKind::ThematicBreak, x.position),
        Node::TableRow(x) => NodeView { children: nodes_view(x.children@), ..blank_view(NodeKind::TableRow, x.position) },
        Node::TableCell(x) => NodeView { children: nodes_view(x.children@), ..blank_view(NodeKind::TableCell, x.position) },
        Node::ListItem(x) => NodeView { children: nodes_view(x.children@), ..blank_view(NodeKind::ListItem, x.position) },
        Node::Definition(x) => NodeView { url: x.url@, title: opt_view(x.title), identifier: x.identifier@, label: opt_view(x.label), ..blank_view(NodeKind::Definition, x.position) },
        Node::Paragraph(x) => NodeView { children: nodes_view(x.children@), ..blank_view(NodeKind::Paragraph, x.position) },
        Node::ObsidianWikilink(x) => NodeView { path: opt_view(x.target.path), heading: opt_view(x.target.heading), block_id: opt_view(x.target.block_id), alias: opt_view(x.target.alias), ..blank_view(NodeKind::ObsidianWikilink, x.position) },
        Node::ObsidianEmbed(x) => NodeView { path: opt_view(x.target.path), heading: opt_view(x.target.heading), block_id: opt_view(x.target.block_id), alias: opt_view(x.target.alias), ..blank_view(NodeKind::ObsidianEmbed, x.position) },
        Node::ObsidianComment(x) => NodeView { value: x.value@, ..blank_view(NodeKind::ObsidianComment, x.position) },
        Node::ObsidianBlockId(x) => NodeView { value: x.value@, ..blank_view(NodeKind::ObsidianBlockId, x.position) },
        Node::ObsidianHighlight(x) => NodeView { children: nodes_view(x.children@), ..blank_view(NodeKind::ObsidianHighlight, x.position) },
        Node::ObsidianCallout(x) => NodeView { children: nodes_view(x.children@), callout_type: x.callout_type@, foldable: x.foldable, title: opt_view(x.title), ..blank_view(NodeKind::ObsidianCallout, x.position) },
        Node::CodeHikeBlock(x) => NodeView { children: nodes_view(x.children@), name: x.name@, title: Some(x.title@), list: x.list, depth: x.depth, ..blank_view(NodeKind::CodeHikeBlock, x.position) },
        Node::CodeHikeText(x) => NodeView { value: x.value@, name: x.name@, list: x.list, ..blank_view(NodeKind::CodeHikeText, x.position) },
        Node::CodeHikeImage(x) => NodeView { name: x.name@, list: x.list, alt: x.alt@, url: x.url@, title: opt_view(x.title), ..blank_view(NodeKind::CodeHikeImage, x.position) },
        Node::CodeHikeCode(x) => NodeView { value: x.value@, name: x.name@, list: x.list, lang: opt_view(x.lang), meta: opt_view(x.meta), ..blank_view(NodeKind::CodeHikeCode, x.position) },
    }
}

/// The views of a sequence of nodes.
pub open spec fn nodes_view(nodes: Seq<Node>) -> Seq<NodeView>
    decreases nodes, 1int,
{
    Seq::new(nodes.len(), |i: int| if 0 <= i < nodes.len() { node_view(nodes[i]) } else { blank_view(NodeKind::Root, None) })
}

/// The view of a `CodeHike` block node.
pub proof fn lemma_code_hike_block_view(b: CodeHikeBlock)
    ensures
        node_view(Node::CodeHikeBlock(b)) == (NodeView {
            children: nodes_view(b.children@),
            name: b.name@,
            title: Some(b.title@),
            list: b.list,
            depth: b.depth,
            ..blank_view(NodeKind::CodeHikeBlock, b.position)
        }),
{
    reveal(node_view);
}

/// The view of a `CodeHike` text node.
pub proof fn lemma_code_hike_text_view(t: CodeHikeText)
    ensures
        node_view(Node::CodeHikeText(t)) == (NodeView {
            value: t.value@,
            name: t.name@,
            list: t.list,
            ..blank_view(NodeKind::CodeHikeText, t.position)
        }),
{
    reveal(node_view);
}

/// The view of a `CodeHike` image node.
pub proof fn lemma_code_hike_image_view(i: CodeHikeImage)
    ensures
        node_view(Node::CodeHikeImage(i)) == (NodeView {
            name: i.name@,
            list: i.list,
            alt: i.alt@,
            url: i.url@,
            title: opt_view(i.title),
            ..blank_view(NodeKind::CodeHikeImage, i.position)
        }),
{
    reveal(node_view);
}

/// The view of a `CodeHike` code node.
pub proof fn lemma_code_hike_code_view(c: CodeHikeCode)
    ensures
        node_view(Node::CodeHikeCode(c)) == (NodeView {
            value: c.value@,
            name: c.name@,
            list: c.list,
            lang: opt_view(c.lang),
            meta: opt_view(c.meta),
            ..blank_view(NodeKind::CodeHikeCode, c.position)
        }),
{
    reveal(node_view);
}

/// Each view in `nodes_view` is the view of the node at that index.
pub broadcast proof fn lemma_nodes_view_index(nodes: Seq<Node>, i: int)
    requires
        0 <= i < nodes.len(),
    ensures
        #[trigger] nodes_view(nodes)[i] == node_view(nodes[i]),
{
    reveal(node_view);
}

/// `nodes_view` keeps the length.
pub broadcast proof fn lemma_nodes_view_len(nodes: Seq<Node>)
    ensures
        #[trigger] nodes_view(nodes).len() == nodes.len(),
{
    reveal(node_view);
}

/// Views of nodes.
pub broadcast group group_nodes_view {
    lemma_nodes_view_index,
    lemma_nodes_view_len,
}

impl View for Node {
    type V = NodeView;

    open spec fn view(&self) -> NodeView {
        node_view(*self)
    }
}

/// Text content of a node: the value of literals and code, the text of the
/// children of parents, nothing for the rest.
pub open spec fn view_text(node: NodeView) -> Seq<char>
    decreases node, 0int,
{
    if is_parent(node.kind) {
        views_text(node.children)
    } else {
        match node.kind {
            NodeKind::MdxjsEsm | NodeKind::Toml | NodeKind::Yaml | NodeKind::InlineCode
            | NodeKind::InlineMath | NodeKind::MdxTextExpression | NodeKind::Html | NodeKind::Text
            | NodeKind::Code | NodeKind::Math | NodeKind::MdxFlowExpression
            | NodeKind::ObsidianComment | NodeKind::ObsidianBlockId | NodeKind::CodeHikeText
            | NodeKind::CodeHikeCode => node.value,
            _ => Seq::empty(),
        }
    }
}

/// Text content of a sequence of nodes, concatenated.
pub open spec fn views_text(nodes: Seq<NodeView>) -> Seq<char>
    decreases nodes, 1int,
{
    if nodes.len() == 0 {
        Seq::empty()
    } else {
        view_text(nodes[0]) + views_text(nodes.subrange(1, nodes.len() as int))
    }
}

/// Copy of an optional string.
pub fn copy_opt_string(o: &Option<String>) -> (r: Option<String>)
    ensures
        opt_view(r) == opt_view(*o),
{
    match o {
        Some(s) => Some(s.clone()),
        None => None,
    }
}

/// Copy of an Obsidian link target.
pub fn copy_target(t: &ObsidianLinkTarget) -> (r: ObsidianLinkTarget)
    ensures
        opt_view(r.path) == opt_view(t.path),
        opt_view(r.heading) == opt_view(t.heading),
        opt_view(r.block_id) == opt_view(t.block_id),
        opt_view(r.alias) == opt_view(t.alias),
{
    ObsidianLinkTarget {
        path: copy_opt_string(&t.path),
        heading: copy_opt_string(&t.heading),
        block_id: copy_opt_string(&t.block_id),
        alias: copy_opt_string(&t.alias),
    }
}

impl Node {
    /// Children of the node, if it is a parent.
    pub fn children(&self) -> (r: Option<&Vec<Node>>)
        ensures
            match r {
                Some(c) => is_parent(self@.kind) && nodes_view(c@) == self@.children
                    && decreases_to!(*self => *c),
                None => !is_parent(self@.kind),
            },
    {
        proof {
            reveal(node_view);
        }
        match self {
            Node::Root(x) => Some(&x.children),
            Node::Blockquote(x) => Some(&x.children),
            Node::FootnoteDefinition(x) => Some(&x.children),
            Node::MdxJsxFlowElement(x) => Some(&x.children),
            Node::List(x) => Some(&x.children),
            Node::Delete(x) => Some(&x.children),
            Node::Emphasis(x) => Some(&x.children),
            Node::MdxJsxTextElement(x) => Some(&x.children),
            Node::Link(x) => Some(&x.children),
            Node::LinkReference(x) => Some(&x.children),
            Node::Strong(x) => Some(&x.children),
            Node::Heading(x) => Some(&x.children),
            Node::Table(x) => Some(&x.children),
            Node::TableRow(x) => Some(&x.children),
            Node::TableCell(x) => Some(&x.children),
            Node::ListItem(x) => Some(&x.children),
            Node::Paragraph(x) => Some(&x.children),
            Node::ObsidianHighlight(x) => Some(&x.children),
            Node::ObsidianCallout(x) => Some(&x.children),
            Node::CodeHikeBlock(x) => Some(&x.children),
            _ => None,
        }
    }

    /// Position of the node.
    pub fn position(&self) -> (r: Option<Position>)
        ensures
            r == self@.position,
    {
        proof {
            reveal(node_view);
        }
        match self {
            Node::Root(x) => x.position,
            Node::Blockquote(x) => x.position,
            Node::FootnoteDefinition(x) => x.position,
            Node::MdxJsxFlowElement(x) => x.position,
            Node::List(x) => x.position,
            Node::MdxjsEsm(x) => x.position,
            Node::Toml(x) => x.position,
            Node::Yaml(x) => x.position,
            Node::Break(x) => x.position,
            Node::InlineCode(x) => x.position,
            Node::InlineMath(x) => x.position,
            Node::Delete(x) => x.position,
            Node::Emphasis(x) => x.position,
            Node::MdxTextExpression(x) => x.position,
            Node::FootnoteReference(x) => x.position,
            Node::Html(x) => x.position,
            Node::Image(x) => x.position,
            Node::ImageReference(x) => x.position,
            Node::MdxJsxTextElement(x) => x.position,
            Node::Link(x) => x.position,
            Node::LinkReference(x) => x.position,
            Node::Strong(x) => x.position,
            Node::Text(x) => x.position,
            Node::Code(x) => x.position,
            Node::Math(x) => x.position,
            Node::MdxFlowExpression(x) => x.position,
            Node::Heading(x) => x.position,
            Node::Table(x) => x.position,
            Node::ThematicBreak(x) => x.position,
            Node::TableRow(x) => x.position,
            Node::TableCell(x) => x.position,
            Node::ListItem(x) => x.position,
            Node::Definition(x) => x.position,
            Node::Paragraph(x) => x.position,
            Node::ObsidianWikilink(x) => x.position,
            Node::ObsidianEmbed(x) => x.position,
            Node::ObsidianComment(x) => x.position,
            Node::ObsidianBlockId(x) => x.position,
            Node::ObsidianHighlight(x) => x.position,
            Node::ObsidianCallout(x) => x.position,
            Node::CodeHikeBlock(x) => x.position,
            Node::CodeHikeText(x) => x.position,
            Node::CodeHikeImage(x) => x.position,
            Node::CodeHikeCode(x) => x.position,
        }
    }

    /// Which variant the node is.
    pub fn kind(&self) -> (r: NodeKind)
        ensures
            r == self@.kind,
    {
        proof {
            reveal(node_view);
        }
        match self {
            Node::Root(_) => NodeKind::Root,
            Node::Blockquote(_) => NodeKind::Blockquote,
            Node::FootnoteDefinition(_) => NodeKind::FootnoteDefinition,
            Node::MdxJsxFlowElement(_) => NodeKind::MdxJsxFlowElement,
            Node::List(_) => NodeKind::List,
            Node::MdxjsEsm(_) => NodeKind::MdxjsEsm,
            Node::Toml(_) => NodeKind::Toml,
            Node::Yaml(_) => NodeKind::Yaml,
            Node::Break(_) => NodeKind::Break,
            Node::InlineCode(_) => NodeKind::InlineCode,
            Node::InlineMath(_) => NodeKind::InlineMath,
            Node::Delete(_) => NodeKind::Delete,
            Node::Emphasis(_) => NodeKind::Emphasis,
            Node::MdxTextExpression(_) => NodeKind::MdxTextExpression,
            Node::FootnoteReference(_) => NodeKind::FootnoteReference,
            Node::Html(_) => NodeKind::Html,
            Node::Image(_) => NodeKind::Image,
            Node::ImageReference(_) => NodeKind::ImageReference,
            Node::MdxJsxTextElement(_) => NodeKind::MdxJsxTextElement,
            Node::Link(_) => NodeKind::Link,
            Node::LinkReference(_) => NodeKind::LinkReference,
            Node::Strong(_) => NodeKind::Strong,
            Node::Text(_) => NodeKind::Text,
            Node::Code(_) => NodeKind::Code,
            Node::Math(_) => NodeKind::Math,
            Node::MdxFlowExpression(_) => NodeKind::MdxFlowExpression,
            Node::Heading(_) => NodeKind::Heading,
            Node::Table(_) => NodeKind::Table,
            Node::ThematicBreak(_) => NodeKind::ThematicBreak,
            Node::TableRow(_) => NodeKind::TableRow,
            Node::TableCell(_) => NodeKind::TableCell,
            Node::ListItem(_) => NodeKind::ListItem,
            Node::Definition(_) => NodeKind::Definition,
            Node::Paragraph(_) => NodeKind::Paragraph,
            Node::ObsidianWikilink(_) => NodeKind::ObsidianWikilink,
            Node::ObsidianEmbed(_) => NodeKind::ObsidianEmbed,
            Node::ObsidianComment(_) => NodeKind::ObsidianComment,
            Node::ObsidianBlockId(_) => NodeKind::ObsidianBlockId,
            Node::ObsidianHighlight(_) => NodeKind::ObsidianHighlight,
            Node::ObsidianCallout(_) => NodeKind::ObsidianCallout,
            Node::CodeHikeBlock(_) => NodeKind::CodeHikeBlock,
            Node::CodeHikeText(_) => NodeKind::CodeHikeText,
            Node::CodeHikeImage(_) => NodeKind::CodeHikeImage,
            Node::CodeHikeCode(_) => NodeKind::CodeHikeCode,
        }
    }

    /// The paragraph, if the node is one.
    pub fn as_paragraph(&self) -> (r: Option<&Parent>)
        ensures
            r is Some <==> self@.kind == NodeKind::Paragraph,
            r matches Some(p) ==> self@ == paragraph_view(*p),
    {
        proof {
            reveal(node_view);
        }
        match self {
            Node::Paragraph(p) => Some(p),
            _ => None,
        }
    }

    /// The definition, if the node is one.
    pub fn as_definition(&self) -> (r: Option<&Definition>)
        ensures
            r is Some <==> self@.kind == NodeKind::Definition,
            r matches Some(d) ==> self@.identifier == d.identifier@ && self@.url == d.url@
                && self@.title == opt_view(d.title),
    {
        proof {
            reveal(node_view);
        }
        match self {
            Node::Definition(d) => Some(d),
            _ => None,
        }
    }

    /// The identifier of a link or image reference.
    pub fn reference_identifier(&self) -> (r: Option<&String>)
        ensures
            r is Some <==> (self@.kind == NodeKind::LinkReference || self@.kind == NodeKind::ImageReference),
            r matches Some(i) ==> self@.identifier == i@,
    {
        proof {
            reveal(node_view);
        }
        match self {
            Node::LinkReference(x) => Some(&x.identifier),
            Node::ImageReference(x) => Some(&x.identifier),
            _ => None,
        }
    }

    /// The heading, if the node is one.
    pub fn as_heading(&self) -> (r: Option<&Heading>)
        ensures
            r is Some <==> self@.kind == NodeKind::Heading,
            r matches Some(h) ==> self@ == heading_view(*h),
    {
        proof {
            reveal(node_view);
        }
        match self {
            Node::Heading(h) => Some(h),
            _ => None,
        }
    }

    /// The text, if the node is one.
    pub fn as_text(&self) -> (r: Option<&Literal>)
        ensures
            r is Some <==> self@.kind == NodeKind::Text,
            r matches Some(t) ==> self@ == text_view(*t),
    {
        proof {
            reveal(node_view);
        }
        match self {
            Node::Text(t) => Some(t),
            _ => None,
        }
    }

    /// The image, if the node is one.
    pub fn as_image(&self) -> (r: Option<&Image>)
        ensures
            r is Some <==> self@.kind == NodeKind::Image,
            r matches Some(i) ==> self@ == image_view(*i),
    {
        proof {
            reveal(node_view);
        }
        match self {
            Node::Image(i) => Some(i),
            _ => None,
        }
    }

    /// The code, if the node is one.
    pub fn as_code(&self) -> (r: Option<&Code>)
        ensures
            r is Some <==> self@.kind == NodeKind::Code,
            r matches Some(c) ==> self@ == code_view(*c),
    {
        proof {
            reveal(node_view);
        }
        match self {
            Node::Code(c) => Some(c),
            _ => None,
        }
    }

    /// Text content of the node.
    #[verifier::rlimit(50)]
    pub fn to_string(&self) -> (r: String)
        ensures
            r@ == view_text(self@),
        decreases self,
    {
        proof {
            reveal(node_view);
        }
        match self {
            Node::Root(x) => nodes_to_string(&x.children),
            Node::Blockquote(x) => nodes_to_string(&x.children),
            Node::FootnoteDefinition(x) => nodes_to_string(&x.children),
            Node::MdxJsxFlowElement(x) => nodes_to_string(&x.children),
            Node::List(x) => nodes_to_string(&x.children),
            Node::MdxjsEsm(x) => x.value.clone(),
            Node::Toml(x) => x.value.clone(),
            Node::Yaml(x) => x.value.clone(),
            Node::InlineCode(x) => x.value.clone(),
            Node::InlineMath(x) => x.value.clone(),
            Node::Delete(x) => nodes_to_string(&x.children),
            Node::Emphasis(x) => nodes_to_string(&x.children),
            Node::MdxTextExpression(x) => x.value.clone(),
            Node::Html(x) => x.value.clone(),
            Node::MdxJsxTextElement(x) => nodes_to_string(&x.children),
            Node::Link(x) => nodes_to_string(&x.children),
            Node::LinkReference(x) => nodes_to_string(&x.children),
            Node::Strong(x) => nodes_to_string(&x.children),
            Node::Text(x) => x.value.clone(),
            Node::Code(x) => x.value.clone(),
            Node::Math(x) => x.value.clone(),
            Node::MdxFlowExpression(x) => x.value.clone(),
            Node::Heading(x) => nodes_to_string(&x.children),
            Node::Table(x) => nodes_to_string(&x.children),
            Node::TableRow(x) => nodes_to_string(&x.children),
            Node::TableCell(x) => nodes_to_string(&x.children),
            Node::ListItem(x) => nodes_to_string(&x.children),
            Node::Paragraph(x) => nodes_to_string(&x.children),
            Node::ObsidianComment(x) => x.value.clone(),
            Node::ObsidianBlockId(x) => x.value.clone(),
            Node::ObsidianHighlight(x) => nodes_to_string(&x.children),
            Node::ObsidianCallout(x) => nodes_to_string(&x.children),
            Node::CodeHikeBlock(x) => nodes_to_string(&x.children),
            Node::CodeHikeText(x) => x.value.clone(),
            Node::CodeHikeCode(x) => x.value.clone(),
            _ => String::new(),
        }
    }

    /// Copy of a node without children.
    pub fn copy_leaf(&self) -> (r: Node)
        requires
            !is_parent(self@.kind),
        ensures
            r@ == self@,
    {
        proof {
            reveal(node_view);
        }
        match self {
            Node::Root(_) => Node::Root(Parent { children: Vec::new(), position: None }),
            Node::Blockquote(_) => Node::Root(Parent { children: Vec::new(), position: None }),
            Node::FootnoteDefinition(_) => Node::Root(Parent { children: Vec::new(), position: None }),
            Node::MdxJsxFlowElement(_) => Node::Root(Parent { children: Vec::new(), position: None }),
            Node::List(_) => Node::Root(Parent { children: Vec::new(), position: None }),
            Node::MdxjsEsm(x) => Node::MdxjsEsm(Literal { value: x.value.clone(), position: x.position }),
            Node::Toml(x) => Node::Toml(Literal { value: x.value.clone(), position: x.position }),
            Node::Yaml(x) => Node::Yaml(Literal { value: x.value.clone(), position: x.position }),
            Node::Break(x) => Node::Break(Void { position: x.position }),
            Node::InlineCode(x) => Node::InlineCode(Literal { value: x.value.clone(), position: x.position }),
            Node::InlineMath(x) => Node::InlineMath(Literal { value: x.value.clone(), position: x.position }),
            Node::Delete(_) => Node::Root(Parent { children: Vec::new(), position: None }),
            Node::Emphasis(_) => Node::Root(Parent { children: Vec::new(), position: None }),
            Node::MdxTextExpression(x) => Node::MdxTextExpression(Literal { value: x.value.clone(), position: x.position }),
            Node::FootnoteReference(x) => Node::FootnoteReference(FootnoteReference { position: x.position, identifier: x.identifier.clone(), label: copy_opt_string(&x.label) }),
            Node::Html(x) => Node::Html(Literal { value: x.value.clone(), position: x.position }),
            Node::Image(x) => Node::Image(Image { position: x.position, alt: x.alt.clone(), url: x.url.clone(), title: copy_opt_string(&x.title) }),
            Node::ImageReference(x) => Node::ImageReference(ImageReference { position: x.position, alt: x.alt.clone(), identifier: x.identifier.clone(), label: copy_opt_string(&x.label) }),
            Node::MdxJsxTextElement(_) => Node::Root(Parent { children: Vec::new(), position: None }),
            Node::Link(_) => Node::Root(Parent { children: Vec::new(), position: None }),
            Node::LinkReference(_) => Node::Root(Parent { children: Vec::new(), position: None }),
            Node::Strong(_) => Node::Root(Parent { children: Vec::new(), position: None }),
            Node::Text(x) => Node::Text(Literal { value: x.value.clone(), position: x.position }),
            Node::Code(x) => Node::Code(Code { value: x.value.clone(), position: x.position, lang: copy_opt_string(&x.lang), meta: copy_opt_string(&x.meta) }),
            Node::Math(x) => Node::Math(Literal { value: x.value.clone(), position: x.position }),
            Node::MdxFlowExpression(x) => Node::MdxFlowExpression(Literal { value: x.value.clone(), position: x.position }),
            Node::Heading(_) => Node::Root(Parent { children: Vec::new(), position: None }),
            Node::Table(_) => Node::Root(Parent { children: Vec::new(), position: None }),
            Node::ThematicBreak(x) => Node::ThematicBreak(Void { position: x.position }),
            Node::TableRow(_) => Node::Root(Parent { children: Vec::new(), position: None }),
            Node::TableCell(_) => Node::Root(Parent { children: Vec::new(), position: None }),
            Node::ListItem(_) => Node::Root(Parent { children: Vec::new(), position: None }),
            Node::Definition(x) => Node::Definition(Definition { position: x.position, url: x.url.clone(), title: copy_opt_string(&x.title), identifier: x.identifier.clone(), label: copy_opt_string(&x.label) }),
            Node::Paragraph(_) => Node::Root(Parent { children: Vec::new(), position: None }),
            Node::ObsidianWikilink(x) => Node::ObsidianWikilink(ObsidianLink { position: x.position, target: copy_target(&x.target) }),
            Node::ObsidianEmbed(x) => Node::ObsidianEmbed(ObsidianLink { position: x.position, target: copy_target(&x.target) }),
            Node::ObsidianComment(x) => Node::ObsidianComment(Literal { value: x.value.clone(), position: x.position }),
            Node::ObsidianBlockId(x) => Node::ObsidianBlockId(Literal { value: x.value.clone(), position: x.position }),
            Node::ObsidianHighlight(_) => Node::Root(Parent { children: Vec::new(), position: None }),
            Node::ObsidianCallout(_) => Node::Root(Parent { children: Vec::new(), position: None }),
            Node::CodeHikeBlock(_) => Node::Root(Parent { children: Vec::new(), position: None }),
            Node::CodeHikeText(x) => Node::CodeHikeText(CodeHikeText { value: x.value.clone(), position: x.position, name: x.name.clone(), list: x.list }),
            Node::CodeHikeImage(x) => Node::CodeHikeImage(CodeHikeImage { position: x.position, name: x.name.clone(), list: x.list, alt: x.alt.clone(), url: x.url.clone(), title: copy_opt_string(&x.title) }),
            Node::CodeHikeCode(x) => Node::CodeHikeCode(CodeHikeCode { value: x.value.clone(), position: x.position, name: x.name.clone(), list: x.list, lang: copy_opt_string(&x.lang), meta: copy_opt_string(&x.meta) }),
        }
    }
}

impl Node {
    /// A copy of a parent node with `children` in place of its children.
    pub fn with_children(&self, children: Vec<Node>) -> (r: Node)
        requires
            is_parent(self@.kind),
        ensures
            r@ == (NodeView { children: nodes_view(children@), ..self@ }),
    {
        proof {
            reveal(node_view);
        }
        match self {
            Node::Root(x) => Node::Root(Parent { children: children, position: x.position }),
            Node::Blockquote(x) => Node::Blockquote(Parent { children: children, position: x.position }),
            Node::FootnoteDefinition(x) => Node::FootnoteDefinition(FootnoteDefinition { children: children, position: x.position, identifier: x.identifier.clone(), label: copy_opt_string(&x.label) }),
            Node::MdxJsxFlowElement(x) => Node::MdxJsxFlowElement(Parent { children: children, position: x.position }),
            Node::List(x) => Node::List(Parent { children: children, position: x.position }),
            Node::Delete(x) => Node::Delete(Parent { children: children, position: x.position }),
            Node::Emphasis(x) => Node::Emphasis(Parent { children: children, position: x.position }),
            Node::MdxJsxTextElement(x) => Node::MdxJsxTextElement(Parent { children: children, position: x.position }),
            Node::Link(x) => Node::Link(Link { children: children, position: x.position, url: x.url.clone(), title: copy_opt_string(&x.title) }),
            Node::LinkReference(x) => Node::LinkReference(LinkReference { children: children, position: x.position, identifier: x.identifier.clone(), label: copy_opt_string(&x.label) }),
            Node::Strong(x) => Node::Strong(Parent { children: children, position: x.position }),
            Node::Heading(x) => Node::Heading(Heading { children: children, position: x.position, depth: x.depth }),
            Node::Table(x) => Node::Table(Parent { children: children, position: x.position }),
            Node::TableRow(x) => Node::TableRow(Parent { children: children, position: x.position }),
            Node::TableCell(x) => Node::TableCell(Parent { children: children, position: x.position }),
            Node::ListItem(x) => Node::ListItem(Parent { children: children, position: x.position }),
            Node::Paragraph(x) => Node::Paragraph(Parent { children: children, position: x.position }),
            Node::ObsidianHighlight(x) => Node::ObsidianHighlight(Parent { children: children, position: x.position }),
            Node::ObsidianCallout(x) => Node::ObsidianCallout(ObsidianCallout { children: children, position: x.position, callout_type: x.callout_type.clone(), foldable: x.foldable, title: copy_opt_string(&x.title) }),
            Node::CodeHikeBlock(x) => Node::CodeHikeBlock(CodeHikeBlock { children: children, position: x.position, name: x.name.clone(), title: x.title.clone(), list: x.list, depth: x.depth }),
            _ => Node::Root(Parent { children, position: None }),
        }
    }
}

/// Text content of a list of nodes.
pub fn nodes_to_string(nodes: &Vec<Node>) -> (r: String)
    ensures
        r@ == views_text(nodes_view(nodes@)),
    decreases nodes,
{
    broadcast use group_nodes_view;

    let ghost views = nodes_view(nodes@);
    let mut result = String::new();
    let mut index: usize = 0;
    proof {
        assert(views.subrange(0, views.len() as int) =~= views);
        assert(result@ + views_text(views) =~= views_text(views));
    }
    while index < nodes.len()
        invariant
            index <= nodes.len(),
            views == nodes_view(nodes@),
            result@ + views_text(views.subrange(index as int, views.len() as int)) == views_text(views),
        decreases nodes.len() - index,
    {
        let ghost tail = views.subrange(index as int, views.len() as int);
        proof {
            assert(tail.subrange(1, tail.len() as int) =~= views.subrange(index + 1, views.len() as int));
            assert(views.len() == nodes@.len());
            lemma_nodes_view_index(nodes@, index as int);
            assert(views[index as int] == node_view(nodes@[index as int]));
            assert(tail[0] == views[index as int]);
            assert(views_text(tail) == view_text(tail[0]) + views_text(tail.subrange(1, tail.len() as int)));
        }
        let part = nodes[index].to_string();
        result.append(part.as_str());
        proof {
            assert(result@ + views_text(views.subrange(index + 1, views.len() as int)) =~= views_text(views));
        }
        index += 1;
    }
    proof {
        assert(views.subrange(index as int, views.len() as int) =~= Seq::<NodeView>::empty());
    }
    result
}

} // verus!
