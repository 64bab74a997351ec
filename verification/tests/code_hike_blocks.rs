use markdown_blocks::code_hike_blocks::{parse_decoration, transform};
use markdown_blocks::mdast::{Code, Heading, Image, Literal, Node, Parent};

#[test]
fn parse_decoration_basic() {
    let d = parse_decoration("!author Tolkien").unwrap();
    assert_eq!(d.name, "author");
    assert!(!d.list);
    assert_eq!(d.rest, "Tolkien");
}

#[test]
fn parse_decoration_list() {
    let d = parse_decoration("!!breakfasts first").unwrap();
    assert_eq!(d.name, "breakfasts");
    assert!(d.list);
    assert_eq!(d.rest, "first");
}

#[test]
fn parse_decoration_no_rest() {
    let d = parse_decoration("!author").unwrap();
    assert_eq!(d.name, "author");
    assert_eq!(d.rest, "");
}

#[test]
fn parse_decoration_invalid() {
    assert!(parse_decoration("! invalid").is_none());
    assert!(parse_decoration("!").is_none());
    assert!(parse_decoration("!!").is_none());
    assert!(parse_decoration("author").is_none());
    assert!(parse_decoration("!1abc").is_none());
    assert!(parse_decoration("!foo!bar").is_none());
}

#[test]
fn parse_decoration_name_chars() {
    let d = parse_decoration("!_under_score-1").unwrap();
    assert_eq!(d.name, "_under_score-1");
}

#[test]
fn parse_decoration_consumes_prefix_and_spaces() {
    let d = parse_decoration("!!cover   Gandalf").unwrap();
    assert_eq!(d.consumed, "!!cover   ".len());
    assert_eq!(d.rest, "Gandalf");
}

fn text(value: &str) -> Node {
    Node::Text(Literal { value: value.to_string(), position: None })
}

fn heading(depth: u8, children: Vec<Node>) -> Node {
    Node::Heading(Heading { children, position: None, depth })
}

fn paragraph(children: Vec<Node>) -> Node {
    Node::Paragraph(Parent { children, position: None })
}

#[test]
fn transform_leaves_undecorated_tree_unchanged() {
    let mut tree = Node::Root(Parent {
        children: vec![heading(2, vec![text("Plain")]), paragraph(vec![text("Body")])],
        position: None,
    });
    transform(&mut tree);
    match tree {
        Node::Root(root) => {
            assert_eq!(root.children.len(), 2);
            assert!(matches!(&root.children[0], Node::Heading(h) if h.depth == 2));
            assert!(matches!(&root.children[1], Node::Paragraph(_)));
        }
        _ => panic!("expected root"),
    }
}

#[test]
fn transform_groups_decorated_heading_section() {
    let mut tree = Node::Root(Parent {
        children: vec![
            heading(2, vec![text("!mordor Barad-dur")]),
            paragraph(vec![text("The Dark Tower")]),
            heading(2, vec![text("Normal")]),
        ],
        position: None,
    });
    transform(&mut tree);
    match tree {
        Node::Root(root) => {
            assert_eq!(root.children.len(), 2);
            match &root.children[0] {
                Node::CodeHikeBlock(block) => {
                    assert_eq!(block.name, "mordor");
                    assert_eq!(block.title, "Barad-dur");
                    assert!(!block.list);
                    assert_eq!(block.children.len(), 1);
                }
                _ => panic!("expected a block"),
            }
            assert!(matches!(&root.children[1], Node::Heading(_)));
        }
        _ => panic!("expected root"),
    }
}

#[test]
fn transform_paragraph_metadata() {
    let mut tree = Node::Root(Parent {
        children: vec![paragraph(vec![text("!author Tolkien")])],
        position: None,
    });
    transform(&mut tree);
    match tree {
        Node::Root(root) => match &root.children[0] {
            Node::CodeHikeText(t) => {
                assert_eq!(t.name, "author");
                assert_eq!(t.value, "Tolkien");
            }
            _ => panic!("expected text metadata"),
        },
        _ => panic!("expected root"),
    }
}

fn root(children: Vec<Node>) -> Node {
    Node::Root(Parent { children, position: None })
}

fn transformed_children(mut tree: Node) -> Vec<Node> {
    transform(&mut tree);
    match tree {
        Node::Root(root) => root.children,
        other => panic!("expected Root, got {:?}", other),
    }
}

fn image(alt: &str, url: &str, title: Option<&str>) -> Node {
    Node::Image(Image {
        position: None,
        alt: alt.to_string(),
        url: url.to_string(),
        title: title.map(|t| t.to_string()),
    })
}

fn code(lang: &str, meta: &str, value: &str) -> Node {
    Node::Code(Code {
        value: value.to_string(),
        position: None,
        lang: Some(lang.to_string()),
        meta: Some(meta.to_string()),
    })
}

#[test]
fn heading_block_basic() {
    // "## !mordor Barad-dur\nThe Dark Tower"
    let children = transformed_children(root(vec![
        heading(2, vec![text("!mordor Barad-dur")]),
        paragraph(vec![text("The Dark Tower")]),
    ]));
    assert_eq!(children.len(), 1, "should produce a single block");
    match &children[0] {
        Node::CodeHikeBlock(block) => {
            assert_eq!(block.name, "mordor");
            assert!(!block.list);
            assert_eq!(block.title, "Barad-dur");
            assert_eq!(block.depth, 2);
            assert_eq!(block.children.len(), 1, "should collect one paragraph");
            assert!(matches!(block.children.first(), Some(Node::Paragraph(_))), "child should be a paragraph");
        }
        other => panic!("expected CodeHikeBlock, got {:?}", other),
    }
}

#[test]
fn heading_block_title_uses_full_heading_text() {
    // "## !mordor Barad-*dur*"
    let children = transformed_children(root(vec![heading(
        2,
        vec![text("!mordor Barad-"), Node::Emphasis(Parent { children: vec![text("dur")], position: None })],
    )]));
    match &children[0] {
        Node::CodeHikeBlock(block) => assert_eq!(block.title, "Barad-dur"),
        other => panic!("expected CodeHikeBlock, got {:?}", other),
    }
}

#[test]
fn heading_block_stops_at_same_or_higher_heading() {
    // "## !a A\nx\n## Normal\ny"
    let children = transformed_children(root(vec![
        heading(2, vec![text("!a A")]),
        paragraph(vec![text("x")]),
        heading(2, vec![text("Normal")]),
        paragraph(vec![text("y")]),
    ]));
    assert_eq!(children.len(), 3, "should produce block, heading, paragraph; got {:?}", children);
    assert!(matches!(children[0], Node::CodeHikeBlock(_)));
    assert!(matches!(children[1], Node::Heading(_)));
    assert!(matches!(children[2], Node::Paragraph(_)));
}

#[test]
fn nested_headings() {
    // "## !master\nThe One Ring\n\n### !!rings Elves\nThree rings"
    let children = transformed_children(root(vec![
        heading(2, vec![text("!master")]),
        paragraph(vec![text("The One Ring")]),
        heading(3, vec![text("!!rings Elves")]),
        paragraph(vec![text("Three rings")]),
    ]));
    assert_eq!(children.len(), 1, "should produce a single top-level block");
    let outer = match &children[0] {
        Node::CodeHikeBlock(b) => b,
        other => panic!("expected outer CodeHikeBlock, got {:?}", other),
    };
    assert_eq!(outer.name, "master");
    assert!(!outer.list);
    assert_eq!(outer.depth, 2);
    assert_eq!(outer.children.len(), 2);
    let inner = match &outer.children[1] {
        Node::CodeHikeBlock(b) => b,
        other => panic!("expected nested CodeHikeBlock, got {:?}", other),
    };
    assert_eq!(inner.name, "rings");
    assert!(inner.list, "nested block should be a list block");
    assert_eq!(inner.title, "Elves");
    assert_eq!(inner.depth, 3);
    assert_eq!(inner.children.len(), 1);
}

#[test]
fn paragraph_metadata() {
    // "!author Tolkien"
    let children = transformed_children(root(vec![paragraph(vec![text("!author Tolkien")])]));
    assert_eq!(children.len(), 1);
    match &children[0] {
        Node::CodeHikeText(t) => {
            assert_eq!(t.name, "author");
            assert!(!t.list);
            assert_eq!(t.value, "Tolkien");
        }
        other => panic!("expected CodeHikeText, got {:?}", other),
    }
}

#[test]
fn image_metadata() {
    // "![!cover Gandalf](/gandalf.jpg \"a wizard\")"
    let children = transformed_children(root(vec![paragraph(vec![image(
        "!cover Gandalf",
        "/gandalf.jpg",
        Some("a wizard"),
    )])]));
    assert_eq!(children.len(), 1);
    match &children[0] {
        Node::CodeHikeImage(i) => {
            assert_eq!(i.name, "cover");
            assert!(!i.list);
            assert_eq!(i.alt, "Gandalf");
            assert_eq!(i.url, "/gandalf.jpg");
            assert_eq!(i.title.as_deref(), Some("a wizard"));
        }
        other => panic!("expected CodeHikeImage, got {:?}", other),
    }
}

#[test]
fn image_metadata_list_form() {
    // "![!!cover Gandalf](/gandalf.jpg)"
    let children = transformed_children(root(vec![paragraph(vec![image("!!cover Gandalf", "/gandalf.jpg", None)])]));
    assert_eq!(children.len(), 1);
    match &children[0] {
        Node::CodeHikeImage(i) => {
            assert_eq!(i.name, "cover");
            assert!(i.list);
        }
        other => panic!("expected CodeHikeImage, got {:?}", other),
    }
}

#[test]
fn code_metadata() {
    // "```js !riddle mellon.js\nspeak(\"friend\")\n```"
    let children = transformed_children(root(vec![code("js", "!riddle mellon.js", "speak(\"friend\")")]));
    assert_eq!(children.len(), 1);
    match &children[0] {
        Node::CodeHikeCode(c) => {
            assert_eq!(c.name, "riddle");
            assert!(!c.list);
            assert_eq!(c.lang.as_deref(), Some("js"));
            assert_eq!(c.meta.as_deref(), Some("mellon.js"));
            assert_eq!(c.value, "speak(\"friend\")");
        }
        other => panic!("expected CodeHikeCode, got {:?}", other),
    }
}

#[test]
fn code_metadata_no_rest() {
    // "```js !riddle\nspeak()\n```"
    let children = transformed_children(root(vec![code("js", "!riddle", "speak()")]));
    assert_eq!(children.len(), 1);
    match &children[0] {
        Node::CodeHikeCode(c) => {
            assert_eq!(c.name, "riddle");
            assert!(c.meta.is_none(), "meta should be None when rest is empty");
        }
        other => panic!("expected CodeHikeCode, got {:?}", other),
    }
}

#[test]
fn root_level_list_syntax() {
    // "## !!breakfasts first"
    let children = transformed_children(root(vec![heading(2, vec![text("!!breakfasts first")])]));
    assert_eq!(children.len(), 1);
    match &children[0] {
        Node::CodeHikeBlock(block) => {
            assert_eq!(block.name, "breakfasts");
            assert!(block.list, "should be a list block");
            assert_eq!(block.title, "first");
        }
        other => panic!("expected CodeHikeBlock, got {:?}", other),
    }
}

#[test]
fn mdx_component_children() {
    // "<MyComponent>\n\n## !mordor Barad-dur\nThe Dark Tower\n\n</MyComponent>"
    let children = transformed_children(root(vec![Node::MdxJsxFlowElement(Parent {
        children: vec![
            heading(2, vec![text("!mordor Barad-dur")]),
            paragraph(vec![text("The Dark Tower")]),
        ],
        position: None,
    })]));
    assert_eq!(children.len(), 1, "should produce a single JSX element");
    let jsx = match &children[0] {
        Node::MdxJsxFlowElement(e) => e,
        other => panic!("expected MdxJsxFlowElement, got {:?}", other),
    };
    assert!(
        jsx.children.iter().any(|c| matches!(c, Node::CodeHikeBlock(_))),
        "JSX children should contain a CodeHikeBlock, got {:?}",
        jsx.children
    );
}

#[test]
fn invalid_decorations_remain_markdown() {
    // "! invalid", "!!", "## ! invalid"
    let cases = vec![
        root(vec![paragraph(vec![text("! invalid")])]),
        root(vec![paragraph(vec![text("!!")])]),
        root(vec![heading(2, vec![text("! invalid")])]),
    ];
    for tree in cases {
        for child in transformed_children(tree) {
            assert!(
                !matches!(
                    child,
                    Node::CodeHikeBlock(_) | Node::CodeHikeText(_) | Node::CodeHikeImage(_) | Node::CodeHikeCode(_)
                ),
                "invalid decoration should not produce a CodeHike node, got {:?}",
                child
            );
        }
    }
}

fn decorated_document() -> Node {
    root(vec![
        heading(2, vec![text("!master")]),
        paragraph(vec![text("!author Tolkien")]),
        heading(3, vec![text("!!rings Elves")]),
        paragraph(vec![text("Three rings")]),
        code("js", "!riddle mellon.js", "speak()"),
        heading(2, vec![text("Plain")]),
    ])
}

#[test]
fn transform_twice_changes_nothing() {
    let mut once = decorated_document();
    transform(&mut once);
    let mut twice = decorated_document();
    transform(&mut twice);
    transform(&mut twice);
    assert_eq!(once, twice);
}
