//! Top-level blocks from a syntax tree: their class, fingerprint and the
//! definitions and references they hold.

use vstd::prelude::*;
use crate::incremental::blocks::{Block, BlockKind, defs_view};
use crate::incremental::definitions::strings_view;
use crate::incremental::fingerprint::{fingerprint, spec_fingerprint};
use crate::mdast::{Node, NodeKind, NodeView, is_parent, nodes_view, lemma_nodes_view_index, lemma_nodes_view_len};
use crate::util::text::{chars_of, option_debug, option_debug_text, push_char};
use vstd::string::StringSliceAdditionalSpecFns;
use vstd::utf8::encode_utf8;

verus! {

/// The block class of a node of `kind`.
pub open spec fn kind_code(kind: NodeKind) -> u8 {
    match kind {
        NodeKind::Root => 0,
        NodeKind::Blockquote => 1,
        NodeKind::FootnoteDefinition => 2,
        NodeKind::MdxJsxFlowElement => 3,
        NodeKind::List => 4,
        NodeKind::MdxjsEsm => 5,
        NodeKind::Toml => 6,
        NodeKind::Yaml => 7,
        NodeKind::Break => 8,
        NodeKind::InlineCode => 9,
        NodeKind::InlineMath => 10,
        NodeKind::Delete => 11,
        NodeKind::Emphasis => 12,
        NodeKind::MdxTextExpression => 13,
        NodeKind::FootnoteReference => 14,
        NodeKind::Html => 15,
        NodeKind::Image => 16,
        NodeKind::ImageReference => 17,
        NodeKind::MdxJsxTextElement => 18,
        NodeKind::Link => 19,
        NodeKind::LinkReference => 20,
        NodeKind::Strong => 21,
        NodeKind::Text => 22,
        NodeKind::Code => 23,
        NodeKind::Math => 24,
        NodeKind::MdxFlowExpression => 25,
        NodeKind::Heading => 26,
        NodeKind::Table => 27,
        NodeKind::ThematicBreak => 28,
        NodeKind::TableRow => 29,
        NodeKind::TableCell => 30,
        NodeKind::ListItem => 31,
        NodeKind::Definition => 32,
        NodeKind::Paragraph => 33,
        NodeKind::ObsidianWikilink => 34,
        NodeKind::ObsidianEmbed => 35,
        NodeKind::ObsidianComment => 36,
        NodeKind::ObsidianBlockId => 37,
        NodeKind::ObsidianHighlight => 38,
        NodeKind::ObsidianCallout => 39,
        NodeKind::CodeHikeBlock => 40,
        NodeKind::CodeHikeText => 41,
        NodeKind::CodeHikeImage => 42,
        NodeKind::CodeHikeCode => 43,
    }
}

/// The block class of `node`.
pub fn node_kind(node: &Node) -> (r: BlockKind)
    ensures
        r.0 == kind_code(node@.kind),
{
    BlockKind(match node.kind() {
        NodeKind::Root => 0,
        NodeKind::Blockquote => 1,
        NodeKind::FootnoteDefinition => 2,
        NodeKind::MdxJsxFlowElement => 3,
        NodeKind::List => 4,
        NodeKind::MdxjsEsm => 5,
        NodeKind::Toml => 6,
        NodeKind::Yaml => 7,
        NodeKind::Break => 8,
        NodeKind::InlineCode => 9,
        NodeKind::InlineMath => 10,
        NodeKind::Delete => 11,
        NodeKind::Emphasis => 12,
        NodeKind::MdxTextExpression => 13,
        NodeKind::FootnoteReference => 14,
        NodeKind::Html => 15,
        NodeKind::Image => 16,
        NodeKind::ImageReference => 17,
        NodeKind::MdxJsxTextElement => 18,
        NodeKind::Link => 19,
        NodeKind::LinkReference => 20,
        NodeKind::Strong => 21,
        NodeKind::Text => 22,
        NodeKind::Code => 23,
        NodeKind::Math => 24,
        NodeKind::MdxFlowExpression => 25,
        NodeKind::Heading => 26,
        NodeKind::Table => 27,
        NodeKind::ThematicBreak => 28,
        NodeKind::TableRow => 29,
        NodeKind::TableCell => 30,
        NodeKind::ListItem => 31,
        NodeKind::Definition => 32,
        NodeKind::Paragraph => 33,
        NodeKind::ObsidianWikilink => 34,
        NodeKind::ObsidianEmbed => 35,
        NodeKind::ObsidianComment => 36,
        NodeKind::ObsidianBlockId => 37,
        NodeKind::ObsidianHighlight => 38,
        NodeKind::ObsidianCallout => 39,
        NodeKind::CodeHikeBlock => 40,
        NodeKind::CodeHikeText => 41,
        NodeKind::CodeHikeImage => 42,
        NodeKind::CodeHikeCode => 43,
    })
}

/// The value fingerprint of a definition with `url` and `title`.
pub open spec fn definition_value(url: Seq<char>, title: Option<Seq<char>>) -> u64 {
    spec_fingerprint(0, encode_utf8(url + seq!['\0'] + option_debug_text(title)))
}

/// What a subtree contributes to its block: definitions, references, and
/// whether it has a footnote.
pub open spec fn node_deps(node: NodeView) -> (Seq<(Seq<char>, u64)>, Seq<Seq<char>>, bool)
    decreases node, 0int,
{
    let own_definitions = if node.kind == NodeKind::Definition {
        seq![(node.identifier, definition_value(node.url, node.title))]
    } else {
        Seq::empty()
    };
    let own_references = if node.kind == NodeKind::LinkReference || node.kind == NodeKind::ImageReference {
        seq![node.identifier]
    } else {
        Seq::empty()
    };
    let own_footnote = node.kind == NodeKind::FootnoteDefinition || node.kind == NodeKind::FootnoteReference;
    if is_parent(node.kind) {
        let inner = nodes_deps(node.children);
        (own_definitions + inner.0, own_references + inner.1, own_footnote || inner.2)
    } else {
        (own_definitions, own_references, own_footnote)
    }
}

/// What a sequence of subtrees contributes, in order.
pub open spec fn nodes_deps(nodes: Seq<NodeView>) -> (Seq<(Seq<char>, u64)>, Seq<Seq<char>>, bool)
    decreases nodes, 1int,
{
    if nodes.len() == 0 {
        (Seq::empty(), Seq::empty(), false)
    } else {
        let first = node_deps(nodes[0]);
        let rest = nodes_deps(nodes.subrange(1, nodes.len() as int));
        (first.0 + rest.0, first.1 + rest.1, first.2 || rest.2)
    }
}

/// Collect the definitions, references and footnotes of `node` and its
/// descendants, in document order.
pub fn collect_dependencies(
    node: &Node,
    definitions: &mut Vec<(String, u64)>,
    references: &mut Vec<String>,
    footnote: &mut bool,
)
    ensures
        defs_view(final(definitions)@) == defs_view(old(definitions)@) + node_deps(node@).0,
        strings_view(final(references)@) == strings_view(old(references)@) + node_deps(node@).1,
        *final(footnote) == (*old(footnote) || node_deps(node@).2),
    decreases node,
{
    let ghost d0 = defs_view(definitions@);
    let ghost r0 = strings_view(references@);
    match node.as_definition() {
        Some(definition) => {
            let mut text = definition.url.clone();
            push_char(&mut text, '\0');
            let debug = option_debug(&definition.title);
            text.append(debug.as_str());
            proof {
                assert(text@ =~= node@.url + seq!['\0'] + option_debug_text(node@.title));
            }
            let value = fingerprint(0, text.as_str().as_bytes());
            assert(value == definition_value(node@.url, node@.title));
            definitions.push((definition.identifier.clone(), value));
            proof {
                assert(defs_view(definitions@) =~= d0 + seq![(node@.identifier, definition_value(node@.url, node@.title))]);
            }
        },
        None => {
            proof {
                assert(defs_view(definitions@) =~= d0 + Seq::<(Seq<char>, u64)>::empty());
            }
        },
    }
    match node.reference_identifier() {
        Some(identifier) => {
            references.push(identifier.clone());
            proof {
                assert(strings_view(references@) =~= r0 + seq![node@.identifier]);
            }
        },
        None => {
            proof {
                assert(strings_view(references@) =~= r0 + Seq::<Seq<char>>::empty());
            }
        },
    }
    let kind = node.kind();
    if kind == NodeKind::FootnoteDefinition || kind == NodeKind::FootnoteReference {
        *footnote = true;
    }
    if let Some(children) = node.children() {
        collect_list(children, definitions, references, footnote);
        proof {
            assert(defs_view(definitions@) =~= d0 + node_deps(node@).0);
            assert(strings_view(references@) =~= r0 + node_deps(node@).1);
        }
    }
}

/// Collect the definitions, references and footnotes of `nodes` and their
/// descendants, in document order.
fn collect_list(
    nodes: &Vec<Node>,
    definitions: &mut Vec<(String, u64)>,
    references: &mut Vec<String>,
    footnote: &mut bool,
)
    ensures
        defs_view(final(definitions)@) == defs_view(old(definitions)@) + nodes_deps(nodes_view(nodes@)).0,
        strings_view(final(references)@) == strings_view(old(references)@) + nodes_deps(nodes_view(nodes@)).1,
        *final(footnote) == (*old(footnote) || nodes_deps(nodes_view(nodes@)).2),
    decreases nodes,
{
    let ghost views = nodes_view(nodes@);
    let ghost d0 = defs_view(definitions@);
    let ghost r0 = strings_view(references@);
    let ghost f0 = *footnote;
    let mut index: usize = 0;
    proof {
        lemma_nodes_view_len(nodes@);
        lemma_deps_split(views, 0);
    }
    while index < nodes.len()
        invariant
            index <= nodes@.len(),
            views == nodes_view(nodes@),
            views.len() == nodes@.len(),
            nodes_deps(views) == ({
                let head = nodes_deps(views.take(index as int));
                let tail = nodes_deps(views.subrange(index as int, views.len() as int));
                (head.0 + tail.0, head.1 + tail.1, head.2 || tail.2)
            }),
            defs_view(definitions@) == d0 + nodes_deps(views.take(index as int)).0,
            strings_view(references@) == r0 + nodes_deps(views.take(index as int)).1,
            *footnote == (f0 || nodes_deps(views.take(index as int)).2),
        decreases nodes.len() - index,
    {
        proof {
            lemma_nodes_view_index(nodes@, index as int);
            lemma_deps_split(views, index as int + 1);
            lemma_deps_take_step(views, index as int);
        }
        collect_dependencies(&nodes[index], definitions, references, footnote);
        proof {
            assert(defs_view(definitions@) =~= d0 + nodes_deps(views.take(index + 1)).0);
            assert(strings_view(references@) =~= r0 + nodes_deps(views.take(index + 1)).1);
        }
        index += 1;
    }
    proof {
        assert(views.take(views.len() as int) =~= views);
    }
}

/// Splitting a sequence of subtrees splits what they contribute.
proof fn lemma_deps_split(nodes: Seq<NodeView>, k: int)
    requires
        0 <= k <= nodes.len(),
    ensures
        nodes_deps(nodes) == ({
            let head = nodes_deps(nodes.take(k));
            let tail = nodes_deps(nodes.subrange(k, nodes.len() as int));
            (head.0 + tail.0, head.1 + tail.1, head.2 || tail.2)
        }),
    decreases k,
{
    if k == 0 {
        assert(nodes.take(0) =~= Seq::<NodeView>::empty());
        assert(nodes.subrange(0, nodes.len() as int) =~= nodes);
        assert(nodes_deps(nodes).0 =~= Seq::<(Seq<char>, u64)>::empty() + nodes_deps(nodes).0);
        assert(nodes_deps(nodes).1 =~= Seq::<Seq<char>>::empty() + nodes_deps(nodes).1);
    } else {
        let rest = nodes.subrange(1, nodes.len() as int);
        lemma_deps_split(rest, k - 1);
        assert(nodes.take(k).subrange(1, k) =~= rest.take(k - 1));
        assert(rest.subrange(k - 1, rest.len() as int) =~= nodes.subrange(k, nodes.len() as int));
        assert(nodes.take(k)[0] == nodes[0]);
        let head = nodes_deps(nodes.take(k));
        let tail = nodes_deps(nodes.subrange(k, nodes.len() as int));
        assert(nodes_deps(nodes).0 =~= head.0 + tail.0);
        assert(nodes_deps(nodes).1 =~= head.1 + tail.1);
    }
}

/// What the first `k + 1` subtrees contribute: the first `k`, then subtree
/// `k`.
proof fn lemma_deps_take_step(nodes: Seq<NodeView>, k: int)
    requires
        0 <= k < nodes.len(),
    ensures
        nodes_deps(nodes.take(k + 1)) == ({
            let head = nodes_deps(nodes.take(k));
            let last = node_deps(nodes[k]);
            (head.0 + last.0, head.1 + last.1, head.2 || last.2)
        }),
{
    let s = nodes.take(k + 1);
    lemma_deps_split(s, k);
    assert(s.take(k) =~= nodes.take(k));
    let one = s.subrange(k, k + 1);
    assert(one[0] == nodes[k]);
    assert(one.subrange(1, 1) =~= Seq::<NodeView>::empty());
    let last = node_deps(nodes[k]);
    let none = one.subrange(1, one.len() as int);
    assert(none.len() == 0);
    assert(nodes_deps(none).0 =~= Seq::<(Seq<char>, u64)>::empty());
    assert(nodes_deps(none).1 =~= Seq::<Seq<char>>::empty());
    assert(nodes_deps(one).0 =~= last.0);
    assert(nodes_deps(one).1 =~= last.1);
}

/// Whether `a` comes before `b` in code point order.
pub open spec fn text_lt(a: Seq<char>, b: Seq<char>) -> bool
    decreases a.len(),
{
    if a.len() == 0 {
        b.len() > 0
    } else if b.len() == 0 {
        false
    } else if a[0] != b[0] {
        (a[0] as u32) < (b[0] as u32)
    } else {
        text_lt(a.drop_first(), b.drop_first())
    }
}

/// Of two different texts, one comes first.
proof fn lemma_text_lt_total(a: Seq<char>, b: Seq<char>)
    requires
        a != b,
    ensures
        text_lt(a, b) || text_lt(b, a),
    decreases a.len(),
{
    if a.len() > 0 && b.len() > 0 && a[0] == b[0] {
        if a.drop_first() == b.drop_first() {
            assert(a =~= seq![a[0]] + a.drop_first());
            assert(b =~= seq![b[0]] + b.drop_first());
        }
        lemma_text_lt_total(a.drop_first(), b.drop_first());
    } else if a.len() > 0 && b.len() > 0 {
        vstd::utf8::char_u32_cast(a[0], a[0] as u32);
        vstd::utf8::char_u32_cast(b[0], b[0] as u32);
        assert((a[0] as u32) != (b[0] as u32));
    } else if a.len() == 0 && b.len() == 0 {
        assert(a =~= b);
    }
}

/// Whether `a` comes before `b` in code point order.
pub fn string_lt(a: &String, b: &String) -> (r: bool)
    ensures
        r == text_lt(a@, b@),
{
    let x = chars_of(a.as_str());
    let y = chars_of(b.as_str());
    let mut i: usize = 0;
    proof {
        assert(x@.subrange(0, x@.len() as int) =~= x@);
        assert(y@.subrange(0, y@.len() as int) =~= y@);
    }
    while i < x.len() && i < y.len() && x[i] == y[i]
        invariant
            x@ == a@,
            y@ == b@,
            i <= x@.len(),
            i <= y@.len(),
            text_lt(a@, b@) == text_lt(x@.subrange(i as int, x@.len() as int), y@.subrange(i as int, y@.len() as int)),
        decreases x.len() - i,
    {
        proof {
            let xs = x@.subrange(i as int, x@.len() as int);
            let ys = y@.subrange(i as int, y@.len() as int);
            assert(xs.drop_first() =~= x@.subrange(i + 1, x@.len() as int));
            assert(ys.drop_first() =~= y@.subrange(i + 1, y@.len() as int));
        }
        i += 1;
    }
    if i == x.len() {
        i < y.len()
    } else if i == y.len() {
        false
    } else {
        (x[i] as u32) < (y[i] as u32)
    }
}

/// Whether `s` is in strictly increasing code point order.
pub open spec fn strictly_sorted(s: Seq<Seq<char>>) -> bool {
    forall|i: int| 0 < i < s.len() ==> text_lt(#[trigger] s[i - 1], s[i])
}

/// `strings` sorted in code point order, each once.
pub fn sort_unique(strings: Vec<String>) -> (r: Vec<String>)
    ensures
        strictly_sorted(strings_view(r@)),
        strings_view(r@).no_duplicates(),
        forall|t: Seq<char>| strings_view(r@).contains(t) <==> strings_view(strings@).contains(t),
{
    let mut result: Vec<String> = Vec::new();
    let mut index: usize = 0;
    while index < strings.len()
        invariant
            index <= strings@.len(),
            strictly_sorted(strings_view(result@)),
            strings_view(result@).no_duplicates(),
            forall|t: Seq<char>| strings_view(result@).contains(t)
                <==> strings_view(strings@).take(index as int).contains(t),
        decreases strings.len() - index,
    {
        let item = &strings[index];
        let ghost before = strings_view(result@);
        let ghost upto = strings_view(strings@).take(index + 1);
        let ghost sofar = strings_view(strings@).take(index as int);
        proof {
            assert(upto =~= sofar.push(item@));
        }
        if !crate::incremental::definitions::contains_string(&result, item) {
            let mut p: usize = 0;
            while p < result.len() && string_lt(&result[p], item)
                invariant
                    p <= result@.len(),
                    before == strings_view(result@),
                    forall|j: int| 0 <= j < p ==> text_lt(#[trigger] before[j], item@),
                decreases result.len() - p,
            {
                p += 1;
            }
            proof {
                if p < before.len() {
                    assert(!text_lt(before[p as int], item@));
                    assert(before[p as int] != item@);
                    lemma_text_lt_total(before[p as int], item@);
                }
            }
            result.insert(p, item.clone());
            proof {
                let after = strings_view(result@);
                assert(after =~= before.insert(p as int, item@));
                assert(after[p as int] == item@);
                assert forall|i: int| 0 < i < after.len() implies text_lt(#[trigger] after[i - 1], after[i]) by {
                    if i < p {
                        assert(after[i - 1] == before[i - 1] && after[i] == before[i]);
                        assert(text_lt(before[i - 1], before[i]));
                    } else if i == p {
                        assert(after[i - 1] == before[i - 1]);
                        assert(text_lt(before[i - 1], item@));
                    } else if i == p + 1 {
                        assert(after[i] == before[p as int]);
                        assert(text_lt(item@, before[p as int]));
                    } else {
                        assert(after[i - 1] == before[i - 2] && after[i] == before[i - 1]);
                        let m = i - 1;
                        assert(text_lt(before[m - 1], before[m]));
                    }
                }
                assert forall|a: int, b: int| 0 <= a < b < after.len() implies after[a] != after[b] by {
                    if a == p {
                        assert(after[b] == before[b - 1]);
                    } else if b == p {
                        assert(after[a] == before[a]);
                    } else {
                        let a0 = if a < p { a } else { a - 1 };
                        let b0 = if b < p { b } else { b - 1 };
                        assert(after[a] == before[a0] && after[b] == before[b0]);
                    }
                }
                assert forall|t: Seq<char>| after.contains(t)
                    <==> upto.contains(t) by {
                    if after.contains(t) {
                        let k = choose|k: int| 0 <= k < after.len() && after[k] == t;
                        if k != p {
                            let k0 = if k < p { k } else { k - 1 };
                            assert(before[k0] == t);
                            assert(before.contains(t));
                            let w = choose|w: int| 0 <= w < index && sofar[w] == t;
                            assert(upto[w] == t);
                        } else {
                            assert(upto[index as int] == t);
                        }
                    }
                    if upto.contains(t) {
                        let w = choose|w: int| 0 <= w < index + 1 && upto[w] == t;
                        if w < index {
                            assert(sofar[w] == t);
                            assert(before.contains(t));
                            let k = choose|k: int| 0 <= k < before.len() && before[k] == t;
                            let k1 = if k < p { k } else { k + 1 };
                            assert(after[k1] == t);
                        } else {
                            assert(after[p as int] == t);
                        }
                    }
                }
            }
        } else {
            proof {
                assert forall|t: Seq<char>| before.contains(t)
                    <==> upto.contains(t) by {
                    if upto.contains(t) {
                        let w = choose|w: int| 0 <= w < index + 1 && upto[w] == t;
                        if w < index {
                            assert(sofar[w] == t);
                        }
                    }
                    if before.contains(t) {
                        let w = choose|w: int| 0 <= w < index && sofar[w] == t;
                        assert(upto[w] == t);
                    }
                }
            }
        }
        index += 1;
    }
    proof {
        assert(strings_view(strings@).take(strings@.len() as int) =~= strings_view(strings@));
    }
    result
}

/// Whether every node has a position inside `len` bytes, and offsets moved by
/// `base` stay in range.
pub open spec fn positions_valid(len: nat, base: usize, nodes: Seq<NodeView>) -> bool {
    forall|i: int| 0 <= i < nodes.len() ==> {
        let p = (#[trigger] nodes[i]).position;
        &&& p is Some
        &&& p->0.start.offset <= p->0.end.offset <= len
        &&& base + p->0.end.offset <= usize::MAX
    }
}

/// Whether `b` is the block made from the top-level node `node` of a region
/// at `base` with bytes `bytes`, with identity `id`.
pub open spec fn block_from_node(b: Block, bytes: Seq<u8>, base: usize, node: NodeView, id: u64) -> bool {
    let p = node.position->0;
    let deps = node_deps(node);
    &&& b.start == base + p.start.offset
    &&& b.end == base + p.end.offset
    &&& b.id == id
    &&& b.kind.0 == kind_code(node.kind)
    &&& b.fingerprint == spec_fingerprint(kind_code(node.kind), bytes.subrange(p.start.offset as int, p.end.offset as int))
    &&& b.html@.len() == 0
    &&& defs_view(b.definitions@) == deps.0
    &&& strictly_sorted(strings_view(b.references@))
    &&& strings_view(b.references@).no_duplicates()
    &&& (forall|t: Seq<char>| strings_view(b.references@).contains(t) <==> deps.1.contains(t))
    &&& b.footnote == deps.2
}

/// One block per top-level node of `tree`, which was parsed from `value`
/// found at byte `base` of the document; identities are taken from `next_id`.
pub fn blocks_from_tree(value: &str, base: usize, tree: &Node, next_id: &mut u64) -> (r: Vec<Block>)
    requires
        is_parent(tree@.kind) ==> positions_valid(value.spec_bytes().len(), base, tree@.children),
        is_parent(tree@.kind) ==> *old(next_id) + tree@.children.len() <= u64::MAX,
    ensures
        !is_parent(tree@.kind) ==> r@.len() == 0 && *final(next_id) == *old(next_id),
        is_parent(tree@.kind) ==> {
            &&& r@.len() == tree@.children.len()
            &&& *final(next_id) == *old(next_id) + tree@.children.len()
            &&& forall|i: int| 0 <= i < r@.len() ==> block_from_node(#[trigger] r@[i], value.spec_bytes(), base,
                tree@.children[i], (*old(next_id) + i) as u64)
        },
{
    let ghost first_id = *next_id;
    let mut result: Vec<Block> = Vec::new();
    match tree.children() {
        None => {},
        Some(children) => {
            let ghost views = nodes_view(children@);
            proof {
                lemma_nodes_view_len(children@);
            }
            let bytes = value.as_bytes();
            let mut index: usize = 0;
            while index < children.len()
                invariant
                    views == nodes_view(children@),
                    views == tree@.children,
                    views.len() == children@.len(),
                    bytes@ == value.spec_bytes(),
                    positions_valid(bytes@.len(), base, views),
                    first_id + views.len() <= u64::MAX,
                    index <= children@.len(),
                    *next_id == first_id + index,
                    result@.len() == index,
                    forall|i: int| 0 <= i < index ==> block_from_node(#[trigger] result@[i], bytes@, base, views[i], (first_id + i) as u64),
                decreases children.len() - index,
            {
                let node = &children[index];
                proof {
                    lemma_nodes_view_index(children@, index as int);
                    assert(views[index as int] == node@);
                }
                let position = node.position().unwrap();
                let start = base + position.start.offset;
                let end = base + position.end.offset;
                let mut definitions: Vec<(String, u64)> = Vec::new();
                let mut gathered: Vec<String> = Vec::new();
                let mut footnote = false;
                collect_dependencies(node, &mut definitions, &mut gathered, &mut footnote);
                proof {
                    assert(defs_view(definitions@) =~= node_deps(node@).0);
                    assert(strings_view(gathered@) =~= node_deps(node@).1);
                }
                let references = sort_unique(gathered);
                let kind = node_kind(node);
                let text = vstd::slice::slice_subrange(bytes, position.start.offset, position.end.offset);
                let id = *next_id;
                *next_id = *next_id + 1;
                let block = Block {
                    start,
                    end,
                    id,
                    fingerprint: fingerprint(kind.0, text),
                    kind,
                    html: String::new(),
                    definitions,
                    references,
                    footnote,
                };
                result.push(block);
                proof {
                    assert(block_from_node(result@[index as int], bytes@, base, views[index as int], (first_id + index) as u64));
                }
                index += 1;
            }
        },
    }
    result
}

} // verus!
