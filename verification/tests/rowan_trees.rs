use rowan::{GreenNode, GreenNodeBuilder};
use taplo::kind::SyntaxKind;
use taplo::parser::parse;
use taplo::rowan_tree::{from_rowan, tree_from_walk, walk, WalkItem};
use taplo::syntax::Element;
use taplo::text::TextRange;

fn raw(kind: SyntaxKind) -> rowan::SyntaxKind {
    rowan::SyntaxKind(kind.code())
}

fn green_of(items: &[WalkItem]) -> GreenNode {
    let mut builder = GreenNodeBuilder::new();
    for item in items {
        match item {
            WalkItem::Enter(kind) => builder.start_node(rowan::SyntaxKind(*kind)),
            WalkItem::Token(kind, text) => builder.token(rowan::SyntaxKind(*kind), text),
            WalkItem::Leave => builder.finish_node(),
        }
    }
    builder.finish()
}

fn enter(kind: SyntaxKind) -> WalkItem {
    WalkItem::Enter(kind.code())
}

fn token(kind: SyntaxKind, text: &str) -> WalkItem {
    WalkItem::Token(kind.code(), text.to_string())
}

#[test]
fn hand_built_rowan_tree_is_read() {
    let mut b = GreenNodeBuilder::new();
    b.start_node(raw(SyntaxKind::Root));
    b.start_node(raw(SyntaxKind::Entry));
    b.start_node(raw(SyntaxKind::Key));
    b.token(raw(SyntaxKind::Ident), "a");
    b.finish_node();
    b.token(raw(SyntaxKind::Whitespace), " ");
    b.token(raw(SyntaxKind::Eq), "=");
    b.token(raw(SyntaxKind::Whitespace), " ");
    b.start_node(raw(SyntaxKind::Value));
    b.token(raw(SyntaxKind::Integer), "1");
    b.finish_node();
    b.finish_node();
    b.token(raw(SyntaxKind::Newline), "\n");
    b.finish_node();
    let root = rowan::cursor::SyntaxNode::new_root(b.finish());

    let tree = from_rowan(&root).unwrap();
    assert_eq!(tree.kind(), SyntaxKind::Root);
    assert_eq!(tree.render(), "a = 1\n");
    assert_eq!(tree.render(), root.to_string());
    assert_eq!(tree.text_range(), TextRange::new(0, 6));
    let parsed = parse("a = 1\n");
    assert_eq!(walk(&tree), walk(&parsed.root));
    assert_eq!(format!("{:?}", tree), format!("{:?}", parsed.root));
    let entry = &tree.children()[0];
    assert_eq!(entry.kind(), SyntaxKind::Entry);
    assert_eq!(entry.children()[4].text_range(), TextRange::new(4, 5));
    assert!(tree.clone_check());
}

trait CloneCheck {
    fn clone_check(&self) -> bool;
}

impl CloneCheck for Element {
    fn clone_check(&self) -> bool {
        let again = tree_from_walk(&walk(self)).unwrap();
        format!("{:?}", again) == format!("{:?}", self)
    }
}

#[test]
fn parsed_trees_survive_the_way_through_rowan() {
    let sources = [
        "",
        "a = 1\n",
        "[t]\nk = [1, { x = \"\u{e4}\" }] # c\n[[l]]\n",
        "broken = = [[\n",
    ];
    for src in sources {
        let parsed = parse(src);
        let items = walk(&parsed.root);
        let root = rowan::cursor::SyntaxNode::new_root(green_of(&items));
        assert_eq!(root.to_string(), src);
        let range = root.text_range();
        assert_eq!(usize::from(range.start()), 0);
        assert_eq!(usize::from(range.end()), src.len());
        let back = from_rowan(&root).unwrap();
        assert_eq!(walk(&back), items);
        assert_eq!(format!("{:?}", back), format!("{:?}", parsed.root));
    }
}

#[test]
fn rowan_trees_with_unknown_kinds_are_refused() {
    let mut b = GreenNodeBuilder::new();
    b.start_node(rowan::SyntaxKind(99));
    b.finish_node();
    assert!(from_rowan(&rowan::cursor::SyntaxNode::new_root(b.finish())).is_none());

    let mut b = GreenNodeBuilder::new();
    b.start_node(raw(SyntaxKind::Root));
    b.token(raw(SyntaxKind::Entry), "x");
    b.finish_node();
    assert!(from_rowan(&rowan::cursor::SyntaxNode::new_root(b.finish())).is_none());

    let mut b = GreenNodeBuilder::new();
    b.start_node(raw(SyntaxKind::Ident));
    b.finish_node();
    assert!(from_rowan(&rowan::cursor::SyntaxNode::new_root(b.finish())).is_none());
}

#[test]
fn walks_are_rebuilt_only_when_valid() {
    let good = vec![
        enter(SyntaxKind::Root),
        enter(SyntaxKind::Key),
        token(SyntaxKind::Ident, "ab"),
        WalkItem::Leave,
        token(SyntaxKind::Newline, "\n"),
        WalkItem::Leave,
    ];
    let tree = tree_from_walk(&good).unwrap();
    assert_eq!(walk(&tree), good);
    assert_eq!(tree.render(), "ab\n");
    assert_eq!(tree.children()[0].text_range(), TextRange::new(0, 2));
    assert_eq!(tree.children()[1].text_range(), TextRange::new(2, 3));

    let empty_root = vec![enter(SyntaxKind::Root), WalkItem::Leave];
    let tree = tree_from_walk(&empty_root).unwrap();
    assert_eq!(tree.text_range(), TextRange::new(0, 0));
    assert!(tree.children().is_empty());

    assert!(tree_from_walk(&vec![]).is_none());
    assert!(tree_from_walk(&vec![WalkItem::Leave]).is_none());
    assert!(tree_from_walk(&vec![token(SyntaxKind::Ident, "a")]).is_none());
    assert!(tree_from_walk(&vec![enter(SyntaxKind::Root)]).is_none());
    assert!(tree_from_walk(&vec![
        enter(SyntaxKind::Root),
        WalkItem::Leave,
        WalkItem::Leave
    ])
    .is_none());
    assert!(tree_from_walk(&vec![
        enter(SyntaxKind::Root),
        WalkItem::Leave,
        enter(SyntaxKind::Root),
        WalkItem::Leave
    ])
    .is_none());
    assert!(tree_from_walk(&vec![
        enter(SyntaxKind::Root),
        enter(SyntaxKind::Key),
        WalkItem::Leave
    ])
    .is_none());
    assert!(tree_from_walk(&vec![WalkItem::Enter(31), WalkItem::Leave]).is_none());
    assert!(tree_from_walk(&vec![
        enter(SyntaxKind::Root),
        WalkItem::Token(SyntaxKind::Root.code(), "x".to_string()),
        WalkItem::Leave
    ])
    .is_none());
}

#[test]
fn elements_are_made_only_from_fitting_parts() {
    assert!(Element::token(SyntaxKind::Root, 0, "x".to_string()).is_none());
    assert!(Element::token(SyntaxKind::Ident, usize::MAX, "x".to_string()).is_none());
    let a = Element::token(SyntaxKind::Ident, 3, "ab".to_string()).unwrap();
    assert_eq!(a.text_range(), TextRange::new(3, 5));
    assert_eq!(a.token_text(), "ab");
    let b = Element::token(SyntaxKind::Period, 5, ".".to_string()).unwrap();
    let gap = Element::token(SyntaxKind::Ident, 7, "c".to_string()).unwrap();
    assert!(Element::node(SyntaxKind::Ident, 3, vec![]).is_none());
    let key = Element::node(SyntaxKind::Key, 3, vec![a, b]).unwrap();
    assert_eq!(key.text_range(), TextRange::new(3, 6));
    assert_eq!(key.render(), "ab.");
    assert!(!key.is_token());
    assert!(Element::node(SyntaxKind::Root, 0, vec![key]).is_none());
    let a = Element::token(SyntaxKind::Ident, 3, "ab".to_string()).unwrap();
    assert!(Element::node(SyntaxKind::Key, 3, vec![a, gap]).is_none());
    let empty = Element::node(SyntaxKind::Array, 9, vec![]).unwrap();
    assert_eq!(empty.text_range(), TextRange::new(9, 9));
}
