use lsp_types::Url;
use taplo::coords::{Mapper, Position, Range};
use taplo::diagnostics::{
    can_serve, collect_diagnostics, mappable, project_diagnostics, Diagnostic,
    DiagnosticSeverity,
};
use taplo::error::{Error, SyntaxError};
use taplo::key::{Key, Segment};
use taplo::parser::parse;
use taplo::text::TextRange;

fn uri() -> Url {
    Url::parse("file:///doc.toml").unwrap()
}

fn range(l0: u64, c0: u64, l1: u64, c1: u64) -> Range {
    Range {
        start: Position { line: l0, character: c0 },
        end: Position { line: l1, character: c1 },
    }
}

fn diagnostics(src: &str) -> Vec<Diagnostic> {
    let parsed = parse(src);
    let mapper = Mapper::new(src);
    assert!(can_serve(&mapper, &parsed));
    collect_diagnostics(&uri(), &parsed, &mapper)
}

fn check_pair(
    list: &[Diagnostic],
    message: &str,
    first: Range,
    first_note: &str,
    second: Range,
    second_note: &str,
) {
    assert_eq!(list.len(), 2);
    for d in list {
        assert_eq!(d.message, message);
        assert_eq!(d.severity, DiagnosticSeverity::Error);
        assert_eq!(d.source, "Even Better TOML");
        assert_eq!(d.related_information.as_ref().unwrap().len(), 1);
        assert_eq!(d.related_information.as_ref().unwrap()[0].location.uri, uri());
    }
    assert_eq!(list[0].range, first);
    assert_eq!(list[1].range, second);
    let r0 = &list[0].related_information.as_ref().unwrap()[0];
    let r1 = &list[1].related_information.as_ref().unwrap()[0];
    assert_eq!(r0.location.range, second);
    assert_eq!(r1.location.range, first);
    assert_eq!(r0.message, first_note);
    assert_eq!(r1.message, second_note);
}

#[test]
fn duplicate_key_gives_two_diagnostics() {
    let list = diagnostics("a = 1\na = 2\n");
    check_pair(
        &list,
        "duplicate key \"a\"",
        range(0, 0, 0, 1),
        "other declaration",
        range(1, 0, 1, 1),
        "first declaration",
    );
}

#[test]
fn array_conflict_gives_two_diagnostics() {
    let list = diagnostics("arr = [1,2]\n[[arr]]\n");
    check_pair(
        &list,
        "array conflicts with array of tables",
        range(0, 0, 0, 3),
        "array of tables declaration",
        range(1, 2, 1, 5),
        "array declaration",
    );
}

#[test]
fn inline_table_write_gives_two_diagnostics() {
    let list = diagnostics("t = { a = 1 }\nt.b = 2\n");
    check_pair(
        &list,
        "inline table cannot be modified",
        range(0, 0, 0, 1),
        "modified here by \"t.b\"",
        range(1, 0, 1, 3),
        "inline table \"t.b\" here",
    );
}

#[test]
fn expected_table_gives_one_diagnostic() {
    let list = diagnostics("a = 1\n[a.b]\n");
    assert_eq!(list.len(), 1);
    let d = &list[0];
    assert_eq!(d.range, range(0, 0, 0, 1));
    assert_eq!(d.message, "expected table for \"a\"");
    assert_eq!(d.severity, DiagnosticSeverity::Error);
    assert_eq!(d.source, "Even Better TOML");
    let related = d.related_information.as_ref().unwrap();
    assert_eq!(related.len(), 1);
    assert_eq!(related[0].location.range, range(1, 1, 1, 4));
    assert_eq!(related[0].location.uri, uri());
    assert_eq!(related[0].message, "required by \"a.b\"");
}

#[test]
fn clean_document_has_no_diagnostics() {
    assert!(diagnostics("").is_empty());
    assert!(diagnostics("a = 1\n[t]\nb.c = [1, 2]\n[[l]]\nx = { y = 1 }\n[[l]]\n").is_empty());
}

#[test]
fn syntax_errors_come_first_and_alone() {
    let list = diagnostics("a = 1\na = \nb = ]\na = 2\n");
    assert_eq!(list.len(), 5);
    assert_eq!(list[0].message, "expected a value");
    assert_eq!(list[0].range, range(1, 4, 1, 4));
    assert!(list[0].related_information.is_none());
    assert_eq!(list[0].severity, DiagnosticSeverity::Error);
    assert_eq!(list[0].source, "Even Better TOML");
    assert_eq!(list[1].message, "expected a value");
    assert_eq!(list[1].range, range(2, 4, 2, 4));
    assert_eq!(list[2].message, "unexpected token");
    assert_eq!(list[2].range, range(2, 4, 2, 5));
    assert_eq!(list[3].message, "duplicate key \"a\"");
    assert_eq!(list[3].range, range(0, 0, 0, 1));
    assert_eq!(list[4].message, "duplicate key \"a\"");
    assert_eq!(list[4].range, range(3, 0, 3, 1));
}

#[test]
fn diagnostics_follow_the_order_of_the_errors() {
    let list = diagnostics("a = 1\na = 2\nt = {}\nt.x = 1\n[a.b]\n");
    let messages: Vec<&str> = list.iter().map(|d| d.message.as_str()).collect();
    assert_eq!(
        messages,
        vec![
            "duplicate key \"a\"",
            "duplicate key \"a\"",
            "inline table cannot be modified",
            "inline table cannot be modified",
            "expected table for \"a\"",
        ]
    );
}

fn key(n: &str, start: usize, end: usize) -> Key {
    Key::under(None, vec![Segment { name: n.to_string(), range: TextRange::new(start, end) }])
        .unwrap()
}

#[test]
fn spanned_errors_are_shown_and_generic_ones_dropped() {
    let mapper = Mapper::new("ab\ncd\n");
    let syntax = vec![SyntaxError { range: TextRange::new(0, 2), message: "bad".to_string() }];
    let errors = vec![
        Error::Generic("nowhere".to_string()),
        Error::Spanned { range: TextRange::new(3, 5), message: "free form".to_string() },
        Error::Generic("still nowhere".to_string()),
        Error::ExpectedTable { target: key("ab", 0, 2), key: key("cd", 3, 5) },
    ];
    assert!(mappable(&syntax, &errors, &mapper));
    let list = project_diagnostics(&uri(), &syntax, &errors, &mapper);
    assert_eq!(list.len(), 3);
    assert_eq!(list[0].message, "bad");
    assert_eq!(list[0].range, range(0, 0, 0, 2));
    assert_eq!(list[1].message, "free form");
    assert_eq!(list[1].range, range(1, 0, 1, 2));
    assert!(list[1].related_information.is_none());
    assert_eq!(list[2].message, "expected table for \"ab\"");

    let only_generic = vec![Error::Generic("x".to_string())];
    assert!(project_diagnostics(&uri(), &vec![], &only_generic, &mapper).is_empty());
}

#[test]
fn unmappable_errors_are_detected() {
    let mapper = Mapper::new("ab");
    let far = vec![Error::Spanned { range: TextRange::new(1, 3), message: "x".to_string() }];
    assert!(!mappable(&vec![], &far, &mapper));
    let near = vec![Error::Spanned { range: TextRange::new(1, 2), message: "x".to_string() }];
    assert!(mappable(&vec![], &near, &mapper));
    let syntax = vec![SyntaxError { range: TextRange::new(3, 3), message: "x".to_string() }];
    assert!(!mappable(&syntax, &vec![], &mapper));
    let dup = vec![Error::DuplicateKey { first: key("a", 0, 1), second: key("a", 2, 9) }];
    assert!(!mappable(&vec![], &dup, &mapper));
    let parsed = parse("a = 1\n");
    assert!(can_serve(&mapper, &parsed));
    assert!(collect_diagnostics(&uri(), &parsed, &mapper).is_empty());
    let parsed = parse("a = 1\na = 2\n");
    assert!(!can_serve(&mapper, &parsed));
    assert!(can_serve(&Mapper::new("a = 1\na = 2\n"), &parsed));
    let parsed = parse("a = \n");
    assert!(!can_serve(&mapper, &parsed));
    assert!(can_serve(&Mapper::new("a = \n"), &parsed));
}

#[test]
fn mapper_counts_lines_and_characters() {
    let src = "ab\n\u{e4}\u{20ac}x\r\n\n\u{1f600}y";
    let mapper = Mapper::new(src);
    assert_eq!(mapper.len(), src.len());
    let at = |o: usize| mapper.position(o).unwrap();
    assert_eq!(at(0), Position { line: 0, character: 0 });
    assert_eq!(at(2), Position { line: 0, character: 2 });
    assert_eq!(at(3), Position { line: 1, character: 0 });
    assert_eq!(at(5), Position { line: 1, character: 1 });
    assert_eq!(at(8), Position { line: 1, character: 2 });
    assert_eq!(at(9), Position { line: 1, character: 3 });
    assert_eq!(at(10), Position { line: 1, character: 4 });
    assert_eq!(at(11), Position { line: 2, character: 0 });
    assert_eq!(at(12), Position { line: 3, character: 0 });
    assert_eq!(at(16), Position { line: 3, character: 1 });
    assert_eq!(at(17), Position { line: 3, character: 2 });
    assert_eq!(mapper.position(18), None);
    assert_eq!(
        mapper.range(TextRange::new(3, 9)),
        Some(range(1, 0, 1, 3))
    );
    assert_eq!(mapper.range_of(TextRange::new(0, 17)), range(0, 0, 3, 2));
    assert_eq!(mapper.range(TextRange::new(3, 18)), None);
    assert_eq!(mapper.range(TextRange::new(18, 3)), None);
    let empty = Mapper::new("");
    assert_eq!(empty.position(0), Some(Position { line: 0, character: 0 }));
    assert_eq!(empty.position(1), None);
}

#[test]
fn text_ranges_measure_and_contain() {
    let r = TextRange::new(2, 5);
    assert_eq!(r.len(), 3);
    assert_eq!(TextRange::new(5, 2).len(), 0);
    assert!(r.contains_range(TextRange::new(2, 5)));
    assert!(r.contains_range(TextRange::new(3, 4)));
    assert!(!r.contains_range(TextRange::new(1, 4)));
    assert!(!r.contains_range(TextRange::new(3, 6)));
}
