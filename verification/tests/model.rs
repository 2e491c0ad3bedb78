use taplo::builder::{build, build_view, scalar_kind, segment_name_of};
use taplo::dom::{Dom, NodeKind, Origin, ScalarKind};
use taplo::error::Error;
use taplo::key::{Key, Segment};
use taplo::kind::SyntaxKind;
use taplo::parser::parse;
use taplo::text::TextRange;
use taplo::typed::{Shape, TypedView};

fn dom_of(src: &str) -> Dom {
    let parsed = parse(src);
    assert!(parsed.errors.is_empty(), "{:#?}", parsed.errors);
    parsed.into_dom()
}

fn name(text: &str) -> String {
    text.to_string()
}

fn path(dom: &Dom, names: &[&str]) -> Option<usize> {
    let mut at = 0;
    for n in names {
        at = dom.find_entry(at, &name(n))?;
    }
    Some(at)
}

fn error_names(dom: &Dom) -> Vec<(&'static str, String, String)> {
    dom.errors()
        .iter()
        .map(|e| match e {
            Error::DuplicateKey { first, second } => {
                ("duplicate", first.full_key(), second.full_key())
            }
            Error::ExpectedTable { target, key } => ("table", target.full_key(), key.full_key()),
            Error::ExpectedTableArray { target, key } => {
                ("array", target.full_key(), key.full_key())
            }
            Error::InlineTable { target, key } => ("inline", target.full_key(), key.full_key()),
            Error::Spanned { message, .. } => ("spanned", message.clone(), String::new()),
            Error::Generic(message) => ("generic", message.clone(), String::new()),
        })
        .collect()
}

#[test]
fn simple_document_builds_tables_and_scalars() {
    let dom = dom_of("a = 1\n[t]\nb = \"x\"\nc.d = true\n");
    assert!(dom.errors().is_empty());
    assert_eq!(dom.len(), 6);
    assert_eq!(dom.node(0).kind, NodeKind::Table(Origin::Header));
    assert!(dom.node(0).key.is_none());
    let a = path(&dom, &["a"]).unwrap();
    assert_eq!(dom.node(a).kind, NodeKind::Scalar(ScalarKind::Integer));
    assert_eq!(dom.node(a).range, TextRange::new(4, 5));
    let t = path(&dom, &["t"]).unwrap();
    assert_eq!(dom.node(t).kind, NodeKind::Table(Origin::Header));
    assert_eq!(dom.node(t).range, TextRange::new(6, 9));
    let b = path(&dom, &["t", "b"]).unwrap();
    assert_eq!(dom.node(b).kind, NodeKind::Scalar(ScalarKind::String));
    assert_eq!(dom.node(b).key.as_ref().unwrap().full_key(), "t.b");
    let c = path(&dom, &["t", "c"]).unwrap();
    assert_eq!(dom.node(c).kind, NodeKind::Table(Origin::Implicit));
    assert_eq!(dom.node(c).key.as_ref().unwrap().full_key(), "t.c");
    assert_eq!(dom.node(c).key.as_ref().unwrap().text_range(), TextRange::new(18, 19));
    let d = path(&dom, &["t", "c", "d"]).unwrap();
    assert_eq!(dom.node(d).kind, NodeKind::Scalar(ScalarKind::Bool));
    assert_eq!(dom.node(d).key.as_ref().unwrap().full_key(), "t.c.d");
    assert_eq!(dom.node(d).key.as_ref().unwrap().text_range(), TextRange::new(18, 21));
    assert_eq!(dom.children(0), vec![a, t]);
    assert_eq!(dom.children(t), vec![b, c]);
    assert_eq!(path(&dom, &["b"]), None);
}

#[test]
fn arrays_hold_their_items_in_order() {
    let dom = dom_of("a = [1, \"x\", [2.5], { k = 07:00:00 }]\n");
    let a = path(&dom, &["a"]).unwrap();
    assert_eq!(dom.node(a).kind, NodeKind::Array);
    let items = dom.children(a);
    let kinds: Vec<NodeKind> = items.iter().map(|i| dom.node(*i).kind).collect();
    assert_eq!(
        kinds,
        vec![
            NodeKind::Scalar(ScalarKind::Integer),
            NodeKind::Scalar(ScalarKind::String),
            NodeKind::Array,
            NodeKind::Table(Origin::Inline),
        ]
    );
    assert!(dom.node(items[0]).key.is_none());
    let nested = dom.children(items[2]);
    assert_eq!(nested.len(), 1);
    assert_eq!(dom.node(nested[0]).kind, NodeKind::Scalar(ScalarKind::Float));
    let k = dom.find_entry(items[3], &name("k")).unwrap();
    assert_eq!(dom.node(k).kind, NodeKind::Scalar(ScalarKind::Date));
    assert_eq!(dom.last_child(a), Some(items[3]));
}

#[test]
fn arrays_of_tables_append_entries() {
    let dom = dom_of("[[p]]\nn = 1\n[[p]]\nn = 2\n[p.sub]\nx = 1\n");
    assert!(dom.errors().is_empty());
    let p = path(&dom, &["p"]).unwrap();
    assert_eq!(dom.node(p).kind, NodeKind::TableArray);
    let tables = dom.children(p);
    assert_eq!(tables.len(), 2);
    for t in &tables {
        assert_eq!(dom.node(*t).kind, NodeKind::Table(Origin::Header));
        assert!(dom.find_entry(*t, &name("n")).is_some());
    }
    assert!(dom.find_entry(tables[0], &name("sub")).is_none());
    let sub = dom.find_entry(tables[1], &name("sub")).unwrap();
    assert_eq!(dom.node(sub).kind, NodeKind::Table(Origin::Header));
    assert_eq!(dom.node(sub).key.as_ref().unwrap().full_key(), "p.sub");
}

#[test]
fn implicit_tables_may_get_a_header_later() {
    let dom = dom_of("[a.b]\nx = 1\n[a]\ny = 2\n");
    assert!(dom.errors().is_empty());
    let a = path(&dom, &["a"]).unwrap();
    assert_eq!(dom.node(a).kind, NodeKind::Table(Origin::Header));
    assert_eq!(dom.node(a).range, TextRange::new(12, 15));
    assert!(path(&dom, &["a", "b", "x"]).is_some());
    assert!(path(&dom, &["a", "y"]).is_some());
}

#[test]
fn duplicate_keys_keep_both_places() {
    let dom = dom_of("a = 1\na = 2\n");
    assert_eq!(error_names(&dom), vec![("duplicate", name("a"), name("a"))]);
    match &dom.errors()[0] {
        Error::DuplicateKey { first, second } => {
            assert_eq!(first.text_range(), TextRange::new(0, 1));
            assert_eq!(second.text_range(), TextRange::new(6, 7));
        }
        other => panic!("{:?}", other),
    }
    assert_eq!(dom.len(), 2);
}

#[test]
fn quoted_and_bare_keys_are_the_same_key() {
    let dom = dom_of("a = 1\n\"a\" = 2\n'a' = 3\n");
    assert_eq!(
        error_names(&dom),
        vec![
            ("duplicate", name("a"), name("a")),
            ("duplicate", name("a"), name("a"))
        ]
    );
    let dom = dom_of("\"a b\".c = 1\n");
    let c = path(&dom, &["a b", "c"]).unwrap();
    assert_eq!(dom.node(c).key.as_ref().unwrap().full_key(), "a b.c");
}

#[test]
fn duplicate_headers_reopen_the_table() {
    let dom = dom_of("[t]\na = 1\n[t]\na = 2\nb = 3\n");
    assert_eq!(
        error_names(&dom),
        vec![
            ("duplicate", name("t"), name("t")),
            ("duplicate", name("t.a"), name("t.a"))
        ]
    );
    assert!(path(&dom, &["t", "b"]).is_some());
}

#[test]
fn inline_tables_are_closed() {
    let dom = dom_of("t = { a = 1 }\nt.b = 2\n");
    assert_eq!(error_names(&dom), vec![("inline", name("t"), name("t.b"))]);
    let t = path(&dom, &["t"]).unwrap();
    assert_eq!(dom.node(t).kind, NodeKind::Table(Origin::Inline));
    assert!(dom.find_entry(t, &name("a")).is_some());
    assert!(dom.find_entry(t, &name("b")).is_none());
    assert_eq!(dom.len(), 3);

    let dom = dom_of("t = { a = 1 }\n[t]\nb = 2\n[t.c]\n");
    assert_eq!(
        error_names(&dom),
        vec![
            ("inline", name("t"), name("t")),
            ("inline", name("t"), name("t.c"))
        ]
    );
    let t = path(&dom, &["t"]).unwrap();
    assert_eq!(dom.children(t).len(), 1);

    let dom = dom_of("t = { a = { x = 1 }, a.y = 2 }\n");
    assert_eq!(error_names(&dom), vec![("inline", name("t.a"), name("t.a.y"))]);
}

#[test]
fn dotted_keys_do_not_pass_through_values() {
    let dom = dom_of("a = 1\na.b = 2\n");
    assert_eq!(error_names(&dom), vec![("inline", name("a"), name("a.b"))]);
    let dom = dom_of("a = [1]\na.b = 2\n");
    assert_eq!(error_names(&dom), vec![("table", name("a"), name("a.b"))]);
    let dom = dom_of("[[a]]\n[t]\nx = 1\n");
    assert!(dom.errors().is_empty());
}

#[test]
fn headers_expect_tables() {
    let dom = dom_of("a = 1\n[a]\nx = 1\nx = 2\n[a.b]\n");
    assert_eq!(
        error_names(&dom),
        vec![
            ("table", name("a"), name("a")),
            ("duplicate", name("a.x"), name("a.x")),
            ("table", name("a"), name("a.b")),
        ]
    );
    let a = path(&dom, &["a"]).unwrap();
    assert_eq!(dom.node(a).kind, NodeKind::Scalar(ScalarKind::Integer));
    assert!(dom.children(a).is_empty());

    let dom = dom_of("[[a]]\n[a]\n");
    assert_eq!(error_names(&dom), vec![("table", name("a"), name("a"))]);
}

#[test]
fn arrays_conflict_with_arrays_of_tables() {
    let dom = dom_of("arr = [1,2]\n[[arr]]\n");
    assert_eq!(error_names(&dom), vec![("array", name("arr"), name("arr"))]);
    match &dom.errors()[0] {
        Error::ExpectedTableArray { target, key } => {
            assert_eq!(target.text_range(), TextRange::new(0, 3));
            assert_eq!(key.text_range(), TextRange::new(14, 17));
        }
        other => panic!("{:?}", other),
    }
    let dom = dom_of("[t]\n[[t]]\n");
    assert_eq!(error_names(&dom), vec![("array", name("t"), name("t"))]);
    let dom = dom_of("s = 1\n[[s]]\n");
    assert_eq!(error_names(&dom), vec![("table", name("s"), name("s"))]);
}

#[test]
fn errors_come_in_the_order_of_the_document() {
    let dom = dom_of("a = 1\na = 2\nt = {}\nt.x = 1\narr = []\n[[arr]]\n[a.b]\n");
    let kinds: Vec<&str> = error_names(&dom).into_iter().map(|e| e.0).collect();
    assert_eq!(kinds, vec!["duplicate", "inline", "array", "table"]);
}

#[test]
fn building_twice_gives_the_same_model() {
    let parsed = parse("a = 1\na = 2\n[t]\nx = { y = [1, 2] }\n[[t]]\nt.x.z = 1\n");
    let one = build(&parsed.root);
    let two = build(&parsed.root);
    assert_eq!(format!("{:?}", one), format!("{:?}", two));
    assert_eq!(error_names(&one), error_names(&two));
    assert_eq!(one.len(), two.len());
}

#[test]
fn segment_names_drop_their_quotes() {
    assert_eq!(segment_name_of("abc"), "abc");
    assert_eq!(segment_name_of("\"a b\""), "a b");
    assert_eq!(segment_name_of("'a.b'"), "a.b");
    assert_eq!(segment_name_of("\"\""), "");
    assert_eq!(segment_name_of("\""), "\"");
    assert_eq!(segment_name_of("\"a'"), "\"a'");
    assert_eq!(segment_name_of("\"\u{e4}\""), "\u{e4}");
    assert_eq!(segment_name_of(""), "");
}

#[test]
fn keys_join_scope_and_own_segments() {
    let seg = |n: &str, s: usize, e: usize| Segment { name: name(n), range: TextRange::new(s, e) };
    assert!(Key::under(None, vec![]).is_none());
    let scope = Key::under(None, vec![seg("a", 1, 2), seg("b", 3, 4)]).unwrap();
    assert_eq!(scope.full_key(), "a.b");
    assert_eq!(scope.text_range(), TextRange::new(1, 4));
    assert_eq!(scope.len(), 2);
    assert_eq!(scope.inherited(), 0);
    let key = Key::under(Some(&scope), vec![seg("c", 10, 11), seg("d", 12, 13)]).unwrap();
    assert_eq!(key.full_key(), "a.b.c.d");
    assert_eq!(key.text_range(), TextRange::new(10, 13));
    assert_eq!(key.inherited(), 2);
    assert_eq!(key.name(), "d");
    assert_eq!(key.segment(1).name, "b");
    let cut = key.prefix(3);
    assert_eq!(cut.full_key(), "a.b.c");
    assert_eq!(cut.text_range(), TextRange::new(10, 11));
    let copy = key.clone();
    assert_eq!(copy.full_key(), "a.b.c.d");
}

#[test]
fn cast_follows_the_kind_tag() {
    let parsed = parse("a = true\n[t]\n");
    let root = &parsed.root;
    let shapes = [
        Shape::Bool,
        Shape::Str,
        Shape::Integer,
        Shape::Float,
        Shape::Date,
        Shape::Ident,
        Shape::Key,
        Shape::Value,
        Shape::Entry,
        Shape::Array,
        Shape::InlineTable,
        Shape::TableHeader,
        Shape::TableArrayHeader,
        Shape::Root,
    ];
    let mut stack = vec![root];
    let mut seen = 0;
    while let Some(e) = stack.pop() {
        for shape in shapes {
            let view = TypedView::cast(shape, e);
            assert_eq!(view.is_some(), shape.accepts(e.kind()));
            if let Some(v) = view {
                assert_eq!(v.kind(), e.kind());
                assert_eq!(v.text_range(), e.text_range());
                assert_eq!(v.render(), e.render());
                assert_eq!(v.shape(), shape);
                assert_eq!(shape.token_backed(), e.is_token());
                seen += 1;
            }
        }
        stack.extend(e.children().iter());
    }
    assert_eq!(seen, 9);
    let entry = TypedView::cast(Shape::Entry, &root.children()[0]).unwrap();
    assert!(TypedView::cast(Shape::Root, &root.children()[0]).is_none());
    let value = entry.first_child(Shape::Value).unwrap();
    assert_eq!(value.render(), "true");
    assert_eq!(value.first_child(Shape::Bool).unwrap().kind(), SyntaxKind::Bool);
    assert!(value.first_child(Shape::Integer).is_none());
    let root_view = TypedView::cast(Shape::Root, root).unwrap();
    assert_eq!(root_view.children_of(Shape::Entry).len(), 1);
    assert_eq!(root_view.children_of(Shape::TableHeader).len(), 1);
    assert_eq!(root_view.children_of(Shape::Array).len(), 0);
}

#[test]
fn kind_codes_round_trip() {
    for code in 0..40u16 {
        match SyntaxKind::from_code(code) {
            Some(kind) => {
                assert!(code < 31);
                assert_eq!(kind.code(), code);
                assert_eq!(kind.is_token(), code <= 22);
            }
            None => assert!(code >= 31),
        }
    }
    assert_eq!(SyntaxKind::Root.code(), 30);
    assert!(SyntaxKind::Comment.is_trivia());
    assert!(!SyntaxKind::Ident.is_trivia());
}

#[test]
fn the_builder_takes_the_view_of_a_root_only() {
    let parsed = parse("a = 1\na = 2\n");
    let root = TypedView::cast(Shape::Root, &parsed.root).unwrap();
    let dom = build_view(&root).unwrap();
    assert_eq!(error_names(&dom), vec![("duplicate", name("a"), name("a"))]);
    let entry = TypedView::cast(Shape::Entry, &parsed.root.children()[0]).unwrap();
    assert!(build_view(&entry).is_none());
}

#[test]
fn tables_know_whether_they_are_closed() {
    let dom = dom_of("i = { a = 1 }\n[h]\nd.e = 1\n");
    let i = path(&dom, &["i"]).unwrap();
    let h = path(&dom, &["h"]).unwrap();
    let d = path(&dom, &["h", "d"]).unwrap();
    let e = path(&dom, &["h", "d", "e"]).unwrap();
    assert!(dom.node(i).kind.is_closed());
    assert!(!dom.node(i).kind.is_open_table());
    assert!(dom.node(h).kind.is_open_table());
    assert!(!dom.node(h).kind.is_closed());
    assert!(dom.node(d).kind.is_open_table());
    assert!(!dom.node(e).kind.is_open_table());
    assert!(!dom.node(e).kind.is_closed());
    assert_eq!(dom.declared(e).full_key(), "h.d.e");
}

#[test]
fn scalar_kinds_follow_the_token_kinds() {
    assert_eq!(scalar_kind(SyntaxKind::String), Some(ScalarKind::String));
    assert_eq!(scalar_kind(SyntaxKind::MultiLineStringLiteral), Some(ScalarKind::String));
    assert_eq!(scalar_kind(SyntaxKind::IntegerHex), Some(ScalarKind::Integer));
    assert_eq!(scalar_kind(SyntaxKind::Float), Some(ScalarKind::Float));
    assert_eq!(scalar_kind(SyntaxKind::Bool), Some(ScalarKind::Bool));
    assert_eq!(scalar_kind(SyntaxKind::Date), Some(ScalarKind::Date));
    assert_eq!(scalar_kind(SyntaxKind::Ident), None);
    assert_eq!(scalar_kind(SyntaxKind::Array), None);
}
