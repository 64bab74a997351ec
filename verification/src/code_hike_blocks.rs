//! `CodeHike`-style decorated blocks: a structural transform of the syntax
//! tree.
//!
//! * `!name`: a single named block or value.
//! * `!!name`: a repeatable (list) block or value.
//!
//! A decoration stands at the start of a heading's first text child, a
//! paragraph's first text child, an image's `alt`, or a fenced code block's
//! `meta`. It is stripped, and the remaining text becomes the block's title,
//! value, alt, or meta. A decorated heading groups the siblings that follow
//! it, up to the next heading of the same or a higher rank.

use vstd::prelude::*;
use vstd::utf8::*;
use vstd::string::*;
use std::collections::VecDeque;
use crate::mdast::{
    blank_view, copy_opt_string, lemma_code_hike_block_view, lemma_code_hike_code_view,
    lemma_code_hike_image_view, lemma_code_hike_text_view, lemma_nodes_view_index, lemma_nodes_view_len, node_view, is_parent, nodes_view, opt_view, view_text, views_text,
    CodeHikeBlock, CodeHikeCode, CodeHikeImage, CodeHikeText, FootnoteDefinition, Heading, Link,
    LinkReference, Node, NodeKind, NodeView, ObsidianCallout, Parent,
};
use crate::unist::Position;
use crate::util::text::{
    is_ascii_alphabetic, is_ascii_alphanumeric, is_ascii_whitespace, lemma_ascii_boundary,
    lemma_boundary_after_ascii, lemma_valid_subrange,
    spec_is_ascii_alphabetic, spec_is_ascii_alphanumeric, spec_is_ascii_whitespace,
    substring, substring_owned,
};

verus! {

broadcast use vstd::utf8::encode_utf8_valid_utf8, vstd::utf8::encode_utf8_decode_utf8, crate::mdast::group_nodes_view;

/// Parsed `CodeHike` decoration prefix.
#[derive(Clone, Debug, PartialEq, Eq)]
pub struct Decoration {
    /// Decoration name (such as `author`).
    pub name: String,
    /// Whether the `!!name` (list) form was used.
    pub list: bool,
    /// Text after the name and the whitespace that follows it.
    pub rest: String,
    /// Number of bytes of the prefix: the `!` or `!!`, the name, and the
    /// whitespace after it.
    pub consumed: usize,
}

/// First byte of a decoration name: an ASCII letter or `_`.
pub open spec fn is_name_start(c: u8) -> bool {
    spec_is_ascii_alphabetic(c) || c == 0x5f
}

/// Later bytes of a decoration name: ASCII alphanumeric, `_`, or `-`.
pub open spec fn is_name_continue(c: u8) -> bool {
    spec_is_ascii_alphanumeric(c) || c == 0x5f || c == 0x2d
}

/// End of the run of name bytes that starts at `from`.
pub open spec fn name_end(bytes: Seq<u8>, from: int) -> int
    decreases bytes.len() - from,
{
    if 0 <= from < bytes.len() && is_name_continue(bytes[from]) {
        name_end(bytes, from + 1)
    } else {
        from
    }
}

/// End of the run of ASCII whitespace that starts at `from`.
pub open spec fn space_end(bytes: Seq<u8>, from: int) -> int
    decreases bytes.len() - from,
{
    if 0 <= from < bytes.len() && spec_is_ascii_whitespace(bytes[from]) {
        space_end(bytes, from + 1)
    } else {
        from
    }
}

/// Offset of the name: after `!!` (2) or `!` (1).
pub open spec fn name_start(bytes: Seq<u8>) -> int {
    if bytes.len() > 1 && bytes[1] == 0x21 {
        2
    } else {
        1
    }
}

/// Whether `bytes` starts with a decoration: `!` or `!!`, a name whose
/// first byte is an ASCII letter or `_`, then the end or whitespace.
pub open spec fn is_decorated(bytes: Seq<u8>) -> bool {
    let start = name_start(bytes);
    let end = name_end(bytes, start + 1);
    &&& bytes.len() > 0
    &&& bytes[0] == 0x21
    &&& start < bytes.len()
    &&& is_name_start(bytes[start])
    &&& (end == bytes.len() || spec_is_ascii_whitespace(bytes[end]))
}

/// The mathematical view of a decoration.
pub struct DecorationView {
    /// Name.
    pub name: Seq<char>,
    /// `!!` form.
    pub list: bool,
    /// Rest after the name and the whitespace.
    pub rest: Seq<char>,
    /// Bytes of the prefix.
    pub consumed: int,
}

/// The view of a decoration.
pub open spec fn decoration_view(d: Decoration) -> DecorationView {
    DecorationView { name: d.name@, list: d.list, rest: d.rest@, consumed: d.consumed as int }
}

/// The decoration that `bytes` starts with, if any.
#[verifier::opaque]
pub open spec fn spec_decoration(bytes: Seq<u8>) -> Option<DecorationView> {
    if is_decorated(bytes) {
        let start = name_start(bytes);
        let end = name_end(bytes, start + 1);
        let rest = space_end(bytes, end);
        Some(DecorationView {
            name: decode_utf8(bytes.subrange(start, end)),
            list: start == 2,
            rest: decode_utf8(bytes.subrange(rest, bytes.len() as int)),
            consumed: rest,
        })
    } else {
        None
    }
}

/// The decoration that the text `s` starts with, if any.
pub open spec fn decoration_of(s: Seq<char>) -> Option<DecorationView> {
    spec_decoration(encode_utf8(s))
}

proof fn lemma_name_end_bounds(bytes: Seq<u8>, from: int)
    requires
        0 <= from <= bytes.len(),
    ensures
        from <= name_end(bytes, from) <= bytes.len(),
        forall|i: int| from <= i < name_end(bytes, from) ==> is_name_continue(#[trigger] bytes[i]),
        name_end(bytes, from) < bytes.len() ==> !is_name_continue(bytes[name_end(bytes, from)]),
    decreases bytes.len() - from,
{
    if from < bytes.len() && is_name_continue(bytes[from]) {
        lemma_name_end_bounds(bytes, from + 1);
    }
}

proof fn lemma_space_end_bounds(bytes: Seq<u8>, from: int)
    requires
        0 <= from <= bytes.len(),
    ensures
        from <= space_end(bytes, from) <= bytes.len(),
        forall|i: int| from <= i < space_end(bytes, from) ==> spec_is_ascii_whitespace(#[trigger] bytes[i]),
        space_end(bytes, from) < bytes.len() ==> !spec_is_ascii_whitespace(bytes[space_end(bytes, from)]),
    decreases bytes.len() - from,
{
    if from < bytes.len() && spec_is_ascii_whitespace(bytes[from]) {
        lemma_space_end_bounds(bytes, from + 1);
    }
}

fn is_name_continue_byte(c: u8) -> (r: bool)
    ensures
        r == is_name_continue(c),
{
    is_ascii_alphanumeric(c) || c == 0x5f || c == 0x2d
}

/// Parse a `CodeHike` decoration prefix from `s`.
///
/// Returns a decoration iff `s` starts with `!` or `!!`, then a name (first
/// byte an ASCII letter or `_`, then ASCII alphanumerics, `_`, or `-`),
/// then the end or ASCII whitespace.
pub fn parse_decoration(s: &str) -> (r: Option<Decoration>)
    ensures
        r is Some <==> is_decorated(s.spec_bytes()),
        r is None ==> spec_decoration(s.spec_bytes()) is None,
        r matches Some(d) ==> {
            &&& spec_decoration(s.spec_bytes()) == Some(decoration_view(d))
            &&& d.consumed <= s.spec_bytes().len()
            &&& is_char_boundary(s.spec_bytes(), d.consumed as int)
            &&& encode_utf8(d.rest@) == s.spec_bytes().subrange(d.consumed as int, s.spec_bytes().len() as int)
        },
{
    proof {
        reveal(spec_decoration);
    }
    let bytes = s.as_bytes();
    let ghost b = s.spec_bytes();
    let len = bytes.len();
    if len == 0 || bytes[0] != 0x21 {
        return None;
    }
    let start: usize = if len > 1 && bytes[1] == 0x21 { 2 } else { 1 };
    if start >= len {
        return None;
    }
    let first = bytes[start];
    if !is_ascii_alphabetic(first) && first != 0x5f {
        return None;
    }
    let mut end: usize = start + 1;
    while end < len && is_name_continue_byte(bytes[end])
        invariant
            b == bytes@,
            len == b.len(),
            start + 1 <= end <= len,
            name_end(b, end as int) == name_end(b, start as int + 1),
        decreases len - end,
    {
        end += 1;
    }
    assert(name_end(b, end as int) == end);
    if end < len && !is_ascii_whitespace(bytes[end]) {
        return None;
    }
    let mut sep: usize = end;
    while sep < len && is_ascii_whitespace(bytes[sep])
        invariant
            b == bytes@,
            len == b.len(),
            end <= sep <= len,
            space_end(b, sep as int) == space_end(b, end as int),
        decreases len - sep,
    {
        sep += 1;
    }
    assert(space_end(b, sep as int) == sep);
    proof {
        lemma_name_end_bounds(b, start as int + 1);
        lemma_ascii_boundary(b, start as int);
        lemma_ascii_boundary(b, end as int);
        lemma_space_end_bounds(b, end as int);
        lemma_ascii_boundary(b, len as int);
        if sep > end {
            lemma_boundary_after_ascii(b, sep as int);
        }
        lemma_valid_subrange(b, start as int, end as int);
        lemma_valid_subrange(b, sep as int, len as int);
        decode_utf8_encode_utf8(b.subrange(start as int, end as int));
        decode_utf8_encode_utf8(b.subrange(sep as int, len as int));
    }
    let name = substring_owned(s, start, end);
    let rest = substring_owned(s, sep, len);
    proof {
        encode_utf8_decode_utf8(name@);
        encode_utf8_decode_utf8(rest@);
    }
    Some(Decoration { name, list: start == 2, rest, consumed: sep })
}

/// The decoration at the start of the first child, when that child is text.
pub open spec fn first_text_decoration(children: Seq<NodeView>) -> Option<DecorationView> {
    if children.len() > 0 && children[0].kind == NodeKind::Text {
        decoration_of(children[0].value)
    } else {
        None
    }
}

/// The decoration of a decorated heading.
pub open spec fn heading_decoration(node: NodeView) -> Option<DecorationView> {
    if node.kind == NodeKind::Heading {
        first_text_decoration(node.children)
    } else {
        None
    }
}

/// How many of the siblings `rest` a decorated heading of rank `depth`
/// groups: all of them up to the first heading of the same or a higher rank.
pub open spec fn section_len(rest: Seq<NodeView>, depth: u8) -> nat
    decreases rest.len(),
{
    if rest.len() == 0 || (rest[0].kind == NodeKind::Heading && rest[0].depth <= depth) {
        0
    } else {
        1 + section_len(rest.subrange(1, rest.len() as int), depth)
    }
}

/// Position of a block: from the heading's start to the end of the last
/// grouped node, or the heading's own position when nothing is grouped.
pub open spec fn block_position(heading: Option<Position>, collected: Seq<NodeView>) -> Option<Position> {
    match heading {
        Some(p) => if collected.len() == 0 {
            Some(p)
        } else {
            match collected.last().position {
                Some(e) => Some(Position { start: p.start, end: e.end }),
                None => None,
            }
        },
        None => None,
    }
}

/// Text of decorated children: the rest of the decoration, then the text of
/// the following children.
pub open spec fn decorated_text(d: DecorationView, children: Seq<NodeView>) -> Seq<char> {
    d.rest + views_text(children.subrange(1, children.len() as int))
}

/// The block that a decorated heading becomes.
pub open spec fn heading_block(heading: NodeView, d: DecorationView, collected: Seq<NodeView>) -> NodeView {
    NodeView {
        children: collected,
        name: d.name,
        title: Some(decorated_text(d, heading.children)),
        list: d.list,
        depth: heading.depth,
        ..blank_view(NodeKind::CodeHikeBlock, block_position(heading.position, collected))
    }
}

/// A paragraph of exactly one image whose alt is decorated.
pub open spec fn image_leaf(node: NodeView) -> Option<NodeView> {
    if node.kind == NodeKind::Paragraph && node.children.len() == 1
        && node.children[0].kind == NodeKind::Image {
        let image = node.children[0];
        match decoration_of(image.alt) {
            Some(d) => Some(NodeView {
                name: d.name,
                list: d.list,
                alt: d.rest,
                url: image.url,
                title: image.title,
                ..blank_view(
                    NodeKind::CodeHikeImage,
                    if node.position is Some { node.position } else { image.position },
                )
            }),
            None => None,
        }
    } else {
        None
    }
}

/// Code whose meta is decorated.
pub open spec fn code_leaf(node: NodeView) -> Option<NodeView> {
    if node.kind == NodeKind::Code && node.meta is Some {
        match decoration_of(node.meta->0) {
            Some(d) => Some(NodeView {
                value: node.value,
                name: d.name,
                list: d.list,
                lang: node.lang,
                meta: if d.rest.len() == 0 { None } else { Some(d.rest) },
                ..blank_view(NodeKind::CodeHikeCode, node.position)
            }),
            None => None,
        }
    } else {
        None
    }
}

/// A paragraph, other than a lone image, whose first text is decorated.
pub open spec fn paragraph_leaf(node: NodeView) -> Option<NodeView> {
    if node.kind == NodeKind::Paragraph && !(node.children.len() == 1
        && node.children[0].kind == NodeKind::Image) {
        match first_text_decoration(node.children) {
            Some(d) => Some(NodeView {
                value: decorated_text(d, node.children),
                name: d.name,
                list: d.list,
                ..blank_view(NodeKind::CodeHikeText, node.position)
            }),
            None => None,
        }
    } else {
        None
    }
}

/// What a node that starts no block becomes.
#[verifier::opaque]
pub open spec fn leaf(node: NodeView) -> NodeView {
    match image_leaf(node) {
        Some(l) => l,
        None => match code_leaf(node) {
            Some(l) => l,
            None => match paragraph_leaf(node) {
                Some(l) => l,
                None => node,
            },
        },
    }
}

/// A section never takes more siblings than there are.
pub proof fn lemma_section_len_bound(rest: Seq<NodeView>, depth: u8)
    ensures
        section_len(rest, depth) <= rest.len(),
    decreases rest.len(),
{
    if rest.len() > 0 && !(rest[0].kind == NodeKind::Heading && rest[0].depth <= depth) {
        lemma_section_len_bound(rest.subrange(1, rest.len() as int), depth);
    }
}

/// Siblings after grouping: each decorated heading with its section becomes
/// one block (whose section is grouped in turn), each other node becomes its
/// leaf.
#[verifier::opaque]
pub open spec fn group(nodes: Seq<NodeView>) -> Seq<NodeView>
    decreases nodes.len(),
{
    if nodes.len() == 0 {
        Seq::empty()
    } else {
        let rest = nodes.subrange(1, nodes.len() as int);
        match heading_decoration(nodes[0]) {
            Some(d) => {
                let k = section_len(rest, nodes[0].depth);
                proof {
                    lemma_section_len_bound(rest, nodes[0].depth);
                }
                seq![heading_block(nodes[0], d, group(nodes.subrange(1, 1 + k as int)))]
                    + group(nodes.subrange(1 + k as int, nodes.len() as int))
            },
            None => seq![leaf(nodes[0])] + group(rest),
        }
    }
}

/// The children of `node`, each transformed.
pub open spec fn transformed_children(node: NodeView) -> Seq<NodeView>
    decreases node, 0int,
{
    Seq::new(
        node.children.len(),
        |i: int|
            if 0 <= i < node.children.len() {
                spec_transform(node.children[i])
            } else {
                node
            },
    )
}

/// The transformed tree: children are transformed first, then grouped.
pub open spec fn spec_transform(node: NodeView) -> NodeView
    decreases node, 1int,
{
    if is_parent(node.kind) {
        NodeView { children: group(transformed_children(node)), ..node }
    } else {
        node
    }
}

/// Whether the transform would rewrite `node` itself: a decorated heading,
/// or a decorated image paragraph, code, or text paragraph.
pub open spec fn is_decorated_node(node: NodeView) -> bool {
    ||| heading_decoration(node) is Some
    ||| image_leaf(node) is Some
    ||| code_leaf(node) is Some
    ||| paragraph_leaf(node) is Some
}

/// No node of the tree is decorated.
pub open spec fn undecorated(node: NodeView) -> bool
    decreases node, 1int,
{
    !is_decorated_node(node) && all_undecorated(node.children)
}

/// No node of any of the trees is decorated.
pub open spec fn all_undecorated(nodes: Seq<NodeView>) -> bool
    decreases nodes, 0int,
{
    nodes.len() == 0 || (undecorated(nodes[0]) && all_undecorated(nodes.subrange(1, nodes.len() as int)))
}

proof fn lemma_all_undecorated_index(nodes: Seq<NodeView>, i: int)
    requires
        all_undecorated(nodes),
        0 <= i < nodes.len(),
    ensures
        undecorated(nodes[i]),
    decreases nodes.len(),
{
    if i > 0 {
        lemma_all_undecorated_index(nodes.subrange(1, nodes.len() as int), i - 1);
    }
}

proof fn lemma_group_undecorated(nodes: Seq<NodeView>)
    requires
        forall|i: int| 0 <= i < nodes.len() ==> !is_decorated_node(#[trigger] nodes[i]),
    ensures
        group(nodes) == nodes,
    decreases nodes.len(),
{
    if nodes.len() > 0 {
        let rest = nodes.subrange(1, nodes.len() as int);
        assert(!is_decorated_node(nodes[0]));
        lemma_group_step(nodes);
        lemma_leaf_cases(nodes[0]);
        assert forall|i: int| 0 <= i < rest.len() implies !is_decorated_node(#[trigger] rest[i]) by {
            assert(rest[i] == nodes[i + 1]);
        }
        lemma_group_undecorated(rest);
        assert(seq![nodes[0]] + rest =~= nodes);
    } else {
        reveal(group);
        assert(nodes =~= Seq::<NodeView>::empty());
    }
}

/// A tree without decorations comes out of the transform unchanged.
pub proof fn lemma_transform_undecorated(node: NodeView)
    requires
        undecorated(node),
    ensures
        spec_transform(node) == node,
    decreases node,
{
    if is_parent(node.kind) {
        let children = transformed_children(node);
        assert forall|i: int| 0 <= i < node.children.len() implies #[trigger] children[i] == node.children[i] by {
            lemma_all_undecorated_index(node.children, i);
            lemma_transform_undecorated(node.children[i]);
        }
        assert(children =~= node.children);
        assert forall|i: int| 0 <= i < children.len() implies !is_decorated_node(#[trigger] children[i]) by {
            lemma_all_undecorated_index(node.children, i);
        }
        lemma_group_undecorated(children);
        assert(spec_transform(node) =~= node);
    }
}

/// Every node that grouping gives is left alone by the transform and is not
/// decorated, when every node grouped is left alone by the transform.
proof fn lemma_group_stable(nodes: Seq<NodeView>)
    requires
        forall|i: int| 0 <= i < nodes.len() ==> spec_transform(#[trigger] nodes[i]) == nodes[i],
    ensures
        forall|j: int| 0 <= j < group(nodes).len() ==> spec_transform(#[trigger] group(nodes)[j]) == group(nodes)[j]
            && !is_decorated_node(group(nodes)[j]),
    decreases nodes.len(),
{
    if nodes.len() == 0 {
        reveal(group);
    } else {
        lemma_group_step(nodes);
        let rest = nodes.subrange(1, nodes.len() as int);
        match heading_decoration(nodes[0]) {
            Some(d) => {
                let k = section_len(rest, nodes[0].depth);
                lemma_section_len_bound(rest, nodes[0].depth);
                let sub = nodes.subrange(1, 1 + k as int);
                let tail = nodes.subrange(1 + k as int, nodes.len() as int);
                assert forall|i: int| 0 <= i < sub.len() implies spec_transform(#[trigger] sub[i]) == sub[i] by {
                    assert(sub[i] == nodes[1 + i]);
                }
                assert forall|i: int| 0 <= i < tail.len() implies spec_transform(#[trigger] tail[i]) == tail[i] by {
                    assert(tail[i] == nodes[1 + k + i]);
                }
                lemma_group_stable(sub);
                lemma_group_stable(tail);
                let g = group(sub);
                let b = heading_block(nodes[0], d, g);
                let tc = transformed_children(b);
                assert forall|i: int| 0 <= i < g.len() implies #[trigger] tc[i] == g[i] by {
                    assert(spec_transform(g[i]) == g[i]);
                }
                assert(tc =~= g);
                assert forall|i: int| 0 <= i < g.len() implies !is_decorated_node(#[trigger] g[i]) by {
                    assert(spec_transform(g[i]) == g[i]);
                }
                lemma_group_undecorated(g);
                assert(spec_transform(b) =~= b);
                let out = seq![b] + group(tail);
                assert(group(nodes) == out);
                assert forall|j: int| 0 <= j < out.len() implies spec_transform(#[trigger] out[j]) == out[j]
                    && !is_decorated_node(out[j]) by {
                    if j > 0 {
                        assert(out[j] == group(tail)[j - 1]);
                    }
                }
            },
            None => {
                let x = nodes[0];
                let l = leaf(x);
                lemma_leaf_cases(x);
                lemma_group_stable(rest);
                assert(spec_transform(x) == x);
                assert(spec_transform(l) == l && !is_decorated_node(l));
                let out = seq![l] + group(rest);
                assert(group(nodes) == out);
                assert forall|j: int| 0 <= j < out.len() implies spec_transform(#[trigger] out[j]) == out[j]
                    && !is_decorated_node(out[j]) by {
                    if j > 0 {
                        assert(out[j] == group(rest)[j - 1]);
                    }
                }
            },
        }
    }
}

/// Transforming a tree a second time changes nothing: no decorated heading,
/// paragraph, image or code is left to rewrite.
pub proof fn lemma_transform_idempotent(node: NodeView)
    ensures
        spec_transform(spec_transform(node)) == spec_transform(node),
    decreases node,
{
    if is_parent(node.kind) {
        let tc = transformed_children(node);
        assert forall|i: int| 0 <= i < tc.len() implies spec_transform(#[trigger] tc[i]) == tc[i] by {
            lemma_transform_idempotent(node.children[i]);
        }
        lemma_group_stable(tc);
        let g = group(tc);
        let t = spec_transform(node);
        let tt = transformed_children(t);
        assert forall|i: int| 0 <= i < g.len() implies #[trigger] tt[i] == g[i] by {
            assert(spec_transform(g[i]) == g[i]);
        }
        assert(tt =~= g);
        assert forall|i: int| 0 <= i < g.len() implies !is_decorated_node(#[trigger] g[i]) by {
            assert(spec_transform(g[i]) == g[i]);
        }
        lemma_group_undecorated(g);
        assert(spec_transform(t) =~= t);
    }
}

/// Transform `node` and its descendants.
pub fn transform(node: &mut Node)
    ensures
        final(node)@ == spec_transform(old(node)@),
{
    let transformed = transform_node(node);
    *node = transformed;
}

/// The transform of one node.
/// The transform of one node.
fn transform_node(node: &Node) -> (r: Node)
    ensures
        r@ == spec_transform(node@),
    decreases node,
{
    match node.children() {
        None => {
            node.copy_leaf()
        },
        Some(children) => {
            let transformed = transform_list(children);
            proof {
                lemma_nodes_view_len(children@);
                assert(Seq::new(
                    children@.len(),
                    |i: int| spec_transform(nodes_view(children@)[i]),
                ) =~= transformed_children(node@));
            }
            let r = node.with_children(transformed);
            r
        },
    }
}

/// Children transformed one by one, then grouped.
fn transform_list(children: &Vec<Node>) -> (r: Vec<Node>)
    ensures
        nodes_view(r@) == group(
            Seq::new(children@.len(), |i: int| spec_transform(nodes_view(children@)[i])),
        ),
    decreases children,
{
    let ghost views = nodes_view(children@);
    let mut borrowed: Vec<Node> = Vec::new();
    let mut index: usize = 0;
    while index < children.len()
        invariant
            index <= children.len(),
            views == nodes_view(children@),
            borrowed@.len() == index,
            forall|i: int| 0 <= i < index ==> #[trigger] node_view(borrowed@[i]) == spec_transform(views[i]),
        decreases children.len() - index,
    {
        let child = transform_node(&children[index]);
        borrowed.push(child);
        proof {
            assert(node_view(borrowed@[index as int]) == spec_transform(views[index as int]));
        }
        index += 1;
    }
    proof {
        assert(nodes_view(borrowed@) =~= Seq::new(
            children@.len(),
            |i: int| spec_transform(nodes_view(children@)[i]),
        ));
    }
    transform_children(&mut borrowed);
    borrowed
}

/// The nodes of `v`, in order, as a queue.
fn into_queue(v: Vec<Node>) -> (r: VecDeque<Node>)
    ensures
        nodes_view(r@) == nodes_view(v@),
{
    let ghost initial = v@;
    let mut v = v;
    let mut r: VecDeque<Node> = VecDeque::new();
    while v.len() > 0
        invariant
            initial == v@ + r@,
        decreases v.len(),
    {
        let ghost before = v@;
        let last = v.pop().unwrap();
        proof {
            assert(before =~= v@.push(last));
        }
        r.push_front(last);
        proof {
            assert(initial =~= v@ + r@);
        }
    }
    proof {
        assert(initial =~= r@);
    }
    r
}

/// The nodes of `q`, in order, as a vector.
fn into_vec(q: VecDeque<Node>) -> (r: Vec<Node>)
    ensures
        r@ == q@,
{
    let ghost initial = q@;
    let mut q = q;
    let mut r: Vec<Node> = Vec::new();
    while q.len() > 0
        invariant
            initial == r@ + q@,
        decreases q.len(),
    {
        let first = q.pop_front().unwrap();
        r.push(first);
        proof {
            assert(initial =~= r@ + q@);
        }
    }
    proof {
        assert(initial =~= r@);
    }
    r
}

/// One step of grouping, as the definition of `group` gives it.
proof fn lemma_group_step(nodes: Seq<NodeView>)
    requires
        nodes.len() > 0,
    ensures
        group(nodes) == match heading_decoration(nodes[0]) {
            Some(d) => {
                let k = section_len(nodes.subrange(1, nodes.len() as int), nodes[0].depth);
                seq![heading_block(nodes[0], d, group(nodes.subrange(1, 1 + k as int)))]
                    + group(nodes.subrange(1 + k as int, nodes.len() as int))
            },
            None => seq![leaf(nodes[0])] + group(nodes.subrange(1, nodes.len() as int)),
        },
{
    reveal(group);
}

/// What a node that starts no block becomes, as `leaf` defines it.
proof fn lemma_leaf_cases(node: NodeView)
    ensures
        leaf(node) == match image_leaf(node) {
            Some(l) => l,
            None => match code_leaf(node) {
                Some(l) => l,
                None => match paragraph_leaf(node) {
                    Some(l) => l,
                    None => node,
                },
            },
        },
{
    reveal(leaf);
}

/// Transform a flat list of siblings: decorated headings group the
/// siblings that follow them, decorated leaves are replaced one for one.
fn transform_children(children: &mut Vec<Node>)
    ensures
        nodes_view(final(children)@) == group(nodes_view(old(children)@)),
    decreases old(children)@.len(), 1int,
{
    let mut source: Vec<Node> = Vec::new();
    std::mem::swap(&mut source, children);
    let ghost src = nodes_view(source@);
    let mut queue = into_queue(source);
    let mut out: Vec<Node> = Vec::new();
    proof {
        assert(nodes_view(out@) + group(src) =~= group(src));
    }
    while queue.len() > 0
        invariant
            queue@.len() <= src.len(),
            src.len() == old(children)@.len(),
            group(src) == nodes_view(out@) + group(nodes_view(queue@)),
        decreases queue.len(),
    {
        let ghost remaining = nodes_view(queue@);
        let current = queue.pop_front().unwrap();
        let ghost rest = nodes_view(queue@);
        proof {
            assert(remaining[0] == current@);
            assert(remaining.subrange(1, remaining.len() as int) =~= rest);
            lemma_group_step(remaining);
        }
        let block = try_heading_block(&current, &mut queue);
        match block {
            Some(block) => {
                proof {
                    let k = section_len(rest, current@.depth);
                    lemma_section_len_bound(rest, current@.depth);
                    assert(remaining.subrange(1, 1 + k as int) =~= rest.subrange(0, k as int));
                    assert(remaining.subrange(1 + k as int, remaining.len() as int)
                        =~= rest.subrange(k as int, rest.len() as int));
                }
                out.push(block);
            },
            None => {
                proof {
                    lemma_leaf_cases(current@);
                }
                let leaf_node = match try_image_leaf(&current) {
                    Some(l) => l,
                    None => match try_code_leaf(&current) {
                        Some(l) => l,
                        None => match try_paragraph_leaf(&current) {
                            Some(l) => l,
                            None => current,
                        },
                    },
                };
                out.push(leaf_node);
            },
        }
        proof {
            assert(group(src) =~= nodes_view(out@) + group(nodes_view(queue@)));
        }
    }
    proof {
        reveal(group);
        assert(nodes_view(queue@) =~= Seq::<NodeView>::empty());
        assert(nodes_view(out@) + Seq::<NodeView>::empty() =~= nodes_view(out@));
    }
    *children = out;
}

/// Whether `node` ends the section of a decorated heading of rank `depth`.
fn ends_section(node: &Node, depth: u8) -> (r: bool)
    ensures
        r == (node@.kind == NodeKind::Heading && node@.depth <= depth),
{
    proof {
        reveal(node_view);
    }
    match node {
        Node::Heading(h) => h.depth <= depth,
        _ => false,
    }
}

/// If `node` is a decorated heading, build its block from the siblings that
/// follow it (`rest`) up to a heading of the same or a higher rank, and take
/// those siblings off `rest`.
fn try_heading_block(node: &Node, rest: &mut VecDeque<Node>) -> (r: Option<Node>)
    ensures
        ({
            let siblings = nodes_view(old(rest)@);
            match heading_decoration(node@) {
                Some(d) => {
                    let k = section_len(siblings, node@.depth);
                    &&& r is Some
                    &&& r->0@ == heading_block(node@, d, group(siblings.subrange(0, k as int)))
                    &&& nodes_view(final(rest)@) == siblings.subrange(k as int, siblings.len() as int)
                },
                None => r is None && final(rest)@ == old(rest)@,
            }
        }),
    decreases old(rest)@.len() + 1, 0int,
{
    let ghost siblings = nodes_view(rest@);
    let heading = match node.as_heading() {
        Some(h) => h,
        None => return None,
    };
    if heading.children.len() == 0 {
        return None;
    }
    proof {
        lemma_nodes_view_index(heading.children@, 0);
    }
    let first_text = match heading.children[0].as_text() {
        Some(t) => t,
        None => return None,
    };
    let deco = match parse_decoration(first_text.value.as_str()) {
        Some(d) => d,
        None => return None,
    };
    let title = heading_title(heading, deco.consumed);
    let depth = heading.depth;
    let ghost total = section_len(siblings, depth);

    // Count the following siblings up to a heading of rank <= `depth`.
    let mut consumed: usize = 0;
    proof {
        assert forall|i: int| 0 <= i < rest@.len() implies #[trigger] siblings[i] == rest@[i]@ by {
            lemma_nodes_view_index(rest@, i);
        }
        assert(siblings.subrange(0, siblings.len() as int) =~= siblings);
    }
    while consumed < rest.len() && !ends_section(&rest[consumed], depth)
        invariant
            forall|i: int| 0 <= i < rest@.len() ==> #[trigger] siblings[i] == rest@[i]@,
            siblings == nodes_view(rest@),
            consumed <= rest@.len(),
            total == section_len(siblings, depth),
            total == consumed + section_len(siblings.subrange(consumed as int, siblings.len() as int), depth),
        decreases rest.len() - consumed,
    {
        proof {
            let tail = siblings.subrange(consumed as int, siblings.len() as int);
            assert(tail[0] == siblings[consumed as int]);
            assert(tail.subrange(1, tail.len() as int) =~= siblings.subrange(consumed + 1, siblings.len() as int));
        }
        consumed += 1;
    }
    proof {
        let tail = siblings.subrange(consumed as int, siblings.len() as int);
        if consumed < rest.len() {
            assert(tail[0] == siblings[consumed as int]);
        }
        assert(total == consumed);
    }

    // Take them off `rest`, in document order.
    let after = rest.split_off(consumed);
    let mut section: VecDeque<Node> = after;
    std::mem::swap(&mut section, rest);
    let mut collected = into_vec(section);
    proof {
        assert(nodes_view(collected@) =~= siblings.subrange(0, consumed as int));
        assert(nodes_view(rest@) =~= siblings.subrange(consumed as int, siblings.len() as int));
    }

    transform_children(&mut collected);

    let position = match heading.position {
        Some(start_pos) => if collected.len() == 0 {
            Some(start_pos)
        } else {
            match collected[collected.len() - 1].position() {
                Some(end_pos) => Some(Position { start: start_pos.start, end: end_pos.end }),
                None => None,
            }
        },
        None => None,
    };

    let block = CodeHikeBlock {
        children: collected,
        position,
        name: deco.name,
        title,
        list: deco.list,
        depth,
    };
    proof {
        lemma_code_hike_block_view(block);
    }
    Some(Node::CodeHikeBlock(block))
}

/// Text of `children` with the decoration prefix (`consumed` bytes) taken
/// off the first, text, child.
#[verifier::rlimit(80)]
fn text_after_decoration(children: &Vec<Node>, consumed: usize) -> (r: String)
    requires
        children@.len() > 0,
        children@[0]@.kind == NodeKind::Text,
        consumed <= encode_utf8(children@[0]@.value).len(),
        is_char_boundary(encode_utf8(children@[0]@.value), consumed as int),
    ensures
        r@ == decode_utf8(
            encode_utf8(children@[0]@.value).subrange(
                consumed as int,
                encode_utf8(children@[0]@.value).len() as int,
            ),
        ) + views_text(nodes_view(children@).subrange(1, children@.len() as int)),
{
    let ghost views = nodes_view(children@);
    let mut text = String::new();
    let mut index: usize = 0;
    while index < children.len()
        invariant
            0 <= index <= children@.len(),
            views == nodes_view(children@),
            children@.len() > 0,
            children@[0]@.kind == NodeKind::Text,
            consumed <= encode_utf8(children@[0]@.value).len(),
            is_char_boundary(encode_utf8(children@[0]@.value), consumed as int),
            index == 0 ==> text@ == Seq::<char>::empty(),
            index > 0 ==> text@ == decode_utf8(
                encode_utf8(children@[0]@.value).subrange(
                    consumed as int,
                    encode_utf8(children@[0]@.value).len() as int,
                ),
            ) + views_text(views.subrange(1, index as int)),
        decreases children.len() - index,
    {
        if index == 0 {
            match children[0].as_text() {
                Some(t) => {
                    let value = t.value.as_str();
                    proof {
                        is_char_boundary_start_end_of_seq(value.spec_bytes());
                    }
                    let part = substring(value, consumed, value.as_bytes().len());
                    text.append(part);
                },
                None => {
                    let part = children[0].to_string();
                    text.append(part.as_str());
                },
            }
            proof {
                assert(views.subrange(1, 1) =~= Seq::<NodeView>::empty());
                assert(views_text(views.subrange(1, 1)) == Seq::<char>::empty());
                assert(text@ =~= text@ + views_text(views.subrange(1, 1)));
            }
        } else {
            let part = children[index].to_string();
            proof {
                lemma_nodes_view_index(children@, index as int);
                lemma_views_text_push(views.subrange(1, index as int), views[index as int]);
                assert(views.subrange(1, index as int).push(views[index as int]) =~= views.subrange(1, index + 1));
            }
            text.append(part.as_str());
        }
        index += 1;
    }
    text
}

/// Text of a sequence followed by one more node.
proof fn lemma_views_text_push(nodes: Seq<NodeView>, last: NodeView)
    ensures
        views_text(nodes.push(last)) == views_text(nodes) + view_text(last),
    decreases nodes.len(),
{
    if nodes.len() == 0 {
        let single = nodes.push(last);
        assert(single[0] == last);
        assert(single.subrange(1, 1) =~= Seq::<NodeView>::empty());
        assert(views_text(Seq::<NodeView>::empty()) == Seq::<char>::empty());
        assert(views_text(single) == view_text(last) + views_text(single.subrange(1, 1)));
        assert(views_text(single) =~= view_text(last));
        assert(nodes =~= Seq::<NodeView>::empty());
    } else {
        let rest = nodes.subrange(1, nodes.len() as int);
        lemma_views_text_push(rest, last);
        assert(nodes.push(last).subrange(1, nodes.len() as int + 1) =~= rest.push(last));
        assert(views_text(nodes.push(last)) =~= views_text(nodes) + view_text(last));
    }
}

/// Title of a decorated heading: its full text with the decoration prefix
/// (`consumed` bytes of the first, text, child) stripped.
fn heading_title(heading: &Heading, consumed: usize) -> (r: String)
    requires
        heading.children@.len() > 0,
        heading.children@[0]@.kind == NodeKind::Text,
        consumed <= encode_utf8(heading.children@[0]@.value).len(),
        is_char_boundary(encode_utf8(heading.children@[0]@.value), consumed as int),
    ensures
        r@ == decode_utf8(
            encode_utf8(heading.children@[0]@.value).subrange(
                consumed as int,
                encode_utf8(heading.children@[0]@.value).len() as int,
            ),
        ) + views_text(nodes_view(heading.children@).subrange(1, heading.children@.len() as int)),
{
    text_after_decoration(&heading.children, consumed)
}

/// A paragraph holding exactly one image whose `alt` is decorated becomes a
/// decorated image.
fn try_image_leaf(node: &Node) -> (r: Option<Node>)
    ensures
        match r {
            Some(l) => image_leaf(node@) == Some(l@),
            None => image_leaf(node@) is None,
        },
{
    let paragraph = match node.as_paragraph() {
        Some(p) => p,
        None => return None,
    };
    if paragraph.children.len() != 1 {
        return None;
    }
    proof {
        lemma_nodes_view_index(paragraph.children@, 0);
    }
    let image = match paragraph.children[0].as_image() {
        Some(i) => i,
        None => return None,
    };
    let deco = match parse_decoration(image.alt.as_str()) {
        Some(d) => d,
        None => return None,
    };
    let position = if paragraph.position.is_some() { paragraph.position } else { image.position };
    let leaf_image = CodeHikeImage {
        position,
        name: deco.name,
        list: deco.list,
        alt: deco.rest,
        url: image.url.clone(),
        title: copy_opt_string(&image.title),
    };
    proof {
        lemma_code_hike_image_view(leaf_image);
    }
    Some(Node::CodeHikeImage(leaf_image))
}

/// Code whose `meta` is decorated becomes decorated code; an empty rest
/// leaves no meta.
fn try_code_leaf(node: &Node) -> (r: Option<Node>)
    ensures
        match r {
            Some(l) => code_leaf(node@) == Some(l@),
            None => code_leaf(node@) is None,
        },
{
    let code = match node.as_code() {
        Some(c) => c,
        None => return None,
    };
    let meta = match &code.meta {
        Some(m) => m,
        None => return None,
    };
    let deco = match parse_decoration(meta.as_str()) {
        Some(d) => d,
        None => return None,
    };
    let new_meta = if deco.rest.as_str().is_empty() { None } else { Some(deco.rest) };
    let leaf_code = CodeHikeCode {
        value: code.value.clone(),
        position: code.position,
        name: deco.name,
        list: deco.list,
        lang: copy_opt_string(&code.lang),
        meta: new_meta,
    };
    proof {
        lemma_code_hike_code_view(leaf_code);
    }
    Some(Node::CodeHikeCode(leaf_code))
}

/// A paragraph (other than a lone image) whose first child is decorated
/// text becomes decorated text.
#[verifier::rlimit(80)]
fn try_paragraph_leaf(node: &Node) -> (r: Option<Node>)
    ensures
        match r {
            Some(l) => paragraph_leaf(node@) == Some(l@),
            None => paragraph_leaf(node@) is None,
        },
{
    let paragraph = match node.as_paragraph() {
        Some(p) => p,
        None => return None,
    };
    if paragraph.children.len() == 0 {
        return None;
    }
    proof {
        lemma_nodes_view_index(paragraph.children@, 0);
    }
    if paragraph.children.len() == 1 && paragraph.children[0].kind() == NodeKind::Image {
        return None;
    }
    let first_text = match paragraph.children[0].as_text() {
        Some(t) => t,
        None => return None,
    };
    let deco = match parse_decoration(first_text.value.as_str()) {
        Some(d) => d,
        None => return None,
    };
    let value = text_after_decoration(&paragraph.children, deco.consumed);
    let leaf_text = CodeHikeText {
        value,
        position: paragraph.position,
        name: deco.name,
        list: deco.list,
    };
    proof {
        lemma_code_hike_text_view(leaf_text);
    }
    Some(Node::CodeHikeText(leaf_text))
}

} // verus!
