use taplo::kind::SyntaxKind;
use taplo::lexer::{byte_at, digits_at, lex, punctuation, run_end, ByteClass, Lexed};
use taplo::parser::parse;
use taplo::syntax::Element;
use taplo::text::{split_text, TextRange};

fn tokens(element: &Element, out: &mut Vec<(SyntaxKind, String)>) {
    if element.is_token() {
        out.push((element.kind(), element.token_text().to_string()));
    }
    for child in element.children() {
        tokens(child, out);
    }
}

fn token_list(src: &str) -> Vec<(SyntaxKind, String)> {
    let mut out = Vec::new();
    tokens(&parse(src).root, &mut out);
    out
}

fn value_kinds(src: &str) -> Vec<SyntaxKind> {
    token_list(src)
        .into_iter()
        .map(|(kind, _)| kind)
        .filter(|kind| {
            !kind.is_trivia()
                && !matches!(
                    kind,
                    SyntaxKind::Ident
                        | SyntaxKind::Eq
                        | SyntaxKind::Comma
                        | SyntaxKind::BracketStart
                        | SyntaxKind::BracketEnd
                )
        })
        .collect()
}

#[test]
fn time_in_arrays() {
    let src = r#"
    a = [00:00:01, 02:03:04]
    "#;

    let errors = parse(src).errors;

    assert!(errors.is_empty(), "{:#?}", errors);
}

#[test]
fn time_literals_are_dates() {
    assert_eq!(
        value_kinds("a = [00:00:01, 02:03:04]\n"),
        vec![SyntaxKind::Date, SyntaxKind::Date]
    );
    let list = token_list("a = [00:00:01, 02:03:04.5]\n");
    assert!(list.contains(&(SyntaxKind::Date, "00:00:01".to_string())));
    assert!(list.contains(&(SyntaxKind::Date, "02:03:04.5".to_string())));
}

#[test]
fn parse_keeps_every_byte() {
    let sources = [
        "",
        "a = 1",
        "a = 1\n",
        "# only a comment",
        "[table]\nkey = \"v\u{e4}lue\" # tr\u{e4}iling\n\n[[arr]]\nx = { y = [1, 2.5, true] }\n",
        "\u{e4}\u{f6} = = ]] [[ {{ \"unterminated\n'also\n\"\"\"never closed",
        "a.b . c = 1979-05-27T07:32:00Z\r\n",
        "\r x",
    ];
    for src in sources {
        let parsed = parse(src);
        assert_eq!(parsed.root.render(), src);
        assert_eq!(parsed.root.kind(), SyntaxKind::Root);
        assert_eq!(parsed.root.text_range(), TextRange::new(0, src.len()));
        let mut list = Vec::new();
        tokens(&parsed.root, &mut list);
        let joined: String = list.iter().map(|(_, text)| text.as_str()).collect();
        assert_eq!(joined, src);
    }
}

fn check_spans(root_text: &str, element: &Element) {
    let range = element.text_range();
    assert_eq!(element.render(), &root_text[range.start..range.end]);
    let mut at = range.start;
    for child in element.children() {
        assert_eq!(child.text_range().start, at);
        at = child.text_range().end;
        check_spans(root_text, child);
    }
    if !element.is_token() {
        assert_eq!(at, range.end);
    }
}

#[test]
fn every_span_renders_its_source() {
    let src = "# c\n[a.\"b c\"]\nk = [ 1, { x = 'y' } ] # t\n[[a.list]]\nn = 0x1F\n";
    let parsed = parse(src);
    assert!(parsed.errors.is_empty(), "{:#?}", parsed.errors);
    check_spans(src, &parsed.root);
}

#[test]
fn scalar_tokens_have_their_kinds() {
    assert_eq!(value_kinds("a = 1\n"), vec![SyntaxKind::Integer]);
    assert_eq!(value_kinds("a = +1_000\n"), vec![SyntaxKind::Integer]);
    assert_eq!(value_kinds("a = 0xDEAD_beef\n"), vec![SyntaxKind::IntegerHex]);
    assert_eq!(value_kinds("a = 0o755\n"), vec![SyntaxKind::IntegerOct]);
    assert_eq!(value_kinds("a = 0b1010\n"), vec![SyntaxKind::IntegerBin]);
    assert_eq!(value_kinds("a = 3.14\n"), vec![SyntaxKind::Float]);
    assert_eq!(value_kinds("a = -1e-5\n"), vec![SyntaxKind::Float]);
    assert_eq!(value_kinds("a = 6.02E23\n"), vec![SyntaxKind::Float]);
    assert_eq!(value_kinds("a = inf\n"), vec![SyntaxKind::Float]);
    assert_eq!(value_kinds("a = -nan\n"), vec![SyntaxKind::Float]);
    assert_eq!(value_kinds("a = true\n"), vec![SyntaxKind::Bool]);
    assert_eq!(value_kinds("a = false\n"), vec![SyntaxKind::Bool]);
    assert_eq!(value_kinds("a = 1979-05-27\n"), vec![SyntaxKind::Date]);
    assert_eq!(value_kinds("a = 1979-05-27T07:32:00Z\n"), vec![SyntaxKind::Date]);
    assert_eq!(value_kinds("a = 1979-05-27 07:32:00.999-07:00\n"), vec![SyntaxKind::Date]);
    assert_eq!(value_kinds("a = 07:32:00\n"), vec![SyntaxKind::Date]);
    assert_eq!(value_kinds("a = \"s\"\n"), vec![SyntaxKind::String]);
    assert_eq!(value_kinds("a = 'lit'\n"), vec![SyntaxKind::StringLiteral]);
    assert_eq!(value_kinds("a = \"\"\"m\nl\"\"\"\n"), vec![SyntaxKind::MultiLineString]);
    assert_eq!(
        value_kinds("a = '''m\nl'''\n"),
        vec![SyntaxKind::MultiLineStringLiteral]
    );
}

#[test]
fn string_escapes_do_not_end_a_string() {
    let list = token_list("a = \"x\\\"y\" # c\n");
    assert!(list.contains(&(SyntaxKind::String, "\"x\\\"y\"".to_string())));
    assert!(list.contains(&(SyntaxKind::Comment, "# c".to_string())));
    let list = token_list("a = 'x\\' \n");
    assert!(list.contains(&(SyntaxKind::StringLiteral, "'x\\'".to_string())));
}

#[test]
fn key_segments_are_identifiers() {
    let list = token_list("a.\"b\".'c'.1 = 1\n");
    let idents: Vec<&str> = list
        .iter()
        .filter(|(kind, _)| *kind == SyntaxKind::Ident)
        .map(|(_, text)| text.as_str())
        .collect();
    assert_eq!(idents, vec!["a", "\"b\"", "'c'", "1"]);
}

#[test]
fn tree_has_the_expected_shape() {
    let parsed = parse("a = 1\n");
    assert!(parsed.errors.is_empty());
    let root = &parsed.root;
    let kinds: Vec<SyntaxKind> = root.children().iter().map(|c| c.kind()).collect();
    assert_eq!(kinds, vec![SyntaxKind::Entry, SyntaxKind::Newline]);
    let entry = &root.children()[0];
    let kinds: Vec<SyntaxKind> = entry.children().iter().map(|c| c.kind()).collect();
    assert_eq!(
        kinds,
        vec![
            SyntaxKind::Key,
            SyntaxKind::Whitespace,
            SyntaxKind::Eq,
            SyntaxKind::Whitespace,
            SyntaxKind::Value
        ]
    );
    assert_eq!(entry.text_range(), TextRange::new(0, 5));
    assert_eq!(entry.children()[0].text_range(), TextRange::new(0, 1));
    assert_eq!(entry.children()[4].text_range(), TextRange::new(4, 5));
    assert_eq!(entry.children()[4].children()[0].kind(), SyntaxKind::Integer);
}

#[test]
fn headers_have_their_kinds() {
    let parsed = parse("[a]\n[[b.c]]\n");
    assert!(parsed.errors.is_empty(), "{:#?}", parsed.errors);
    let kinds: Vec<SyntaxKind> = parsed.root.children().iter().map(|c| c.kind()).collect();
    assert_eq!(
        kinds,
        vec![
            SyntaxKind::TableHeader,
            SyntaxKind::Newline,
            SyntaxKind::TableArrayHeader,
            SyntaxKind::Newline
        ]
    );
    assert_eq!(parsed.root.children()[2].render(), "[[b.c]]");
}

#[test]
fn syntax_errors_are_reported_in_place() {
    let parsed = parse("a = \n");
    assert_eq!(parsed.errors.len(), 1);
    assert_eq!(parsed.errors[0].range, TextRange::new(4, 4));
    assert_eq!(parsed.errors[0].message, "expected a value");

    let parsed = parse("a 1\n");
    assert_eq!(parsed.errors[0].range, TextRange::new(2, 2));
    assert_eq!(parsed.errors[0].message, "expected `=`");

    let parsed = parse("a = [1 2]\n");
    assert_eq!(parsed.errors.len(), 1);
    assert_eq!(parsed.errors[0].message, "expected `,`");
    assert_eq!(parsed.errors[0].range, TextRange::new(7, 7));

    let parsed = parse("[a\n");
    assert_eq!(parsed.errors.len(), 1);
    assert_eq!(parsed.errors[0].message, "expected `]`");

    let parsed = parse("a = 1 b = 2\n");
    assert_eq!(parsed.errors.len(), 1);
    assert_eq!(parsed.errors[0].message, "expected a line break");
    assert_eq!(parsed.errors[0].range, TextRange::new(6, 6));

    let parsed = parse("= 1\n");
    assert_eq!(parsed.errors[0].message, "unexpected token");
    assert_eq!(parsed.errors[0].range, TextRange::new(0, 1));

    let parsed = parse("a = { b = 1\n");
    assert_eq!(parsed.errors.len(), 1);
    assert_eq!(parsed.errors[0].message, "expected `}`");

    let parsed = parse("a = \"open\n");
    assert!(!parsed.errors.is_empty());

    let parsed = parse("a = 12ab\n");
    assert!(!parsed.errors.is_empty());
    assert_eq!(parsed.errors[0].message, "expected a value");
    assert_eq!(parsed.errors[0].range, TextRange::new(4, 4));
}

#[test]
fn valid_documents_have_no_syntax_errors() {
    let src = r#"
# This is a TOML document

title = "TOML Example"

[owner]
name = "Tom Preston-Werner"
dob = 1979-05-27T07:32:00-08:00

[database]
enabled = true
ports = [ 8000, 8001, 8002 ]
data = [ ["delta", "phi"], [3.14] ]
temp_targets = { cpu = 79.5, case = 72.0 }

[servers]

[servers.alpha]
ip = "10.0.0.1"
role = "frontend"

[[products]]
name = "Hammer"
sku = 738594937

[[products]]
"quoted key" = '''
literal'''
multi = [
  1, # one
  2,
]
"#;
    let parsed = parse(src);
    assert!(parsed.errors.is_empty(), "{:#?}", parsed.errors);
    assert_eq!(parsed.root.render(), src);
    assert!(parsed.into_dom().errors().is_empty());
}

#[test]
fn lexer_cuts_the_first_token() {
    let t = |text: &str, key: bool| lex(text.as_bytes(), key);
    assert_eq!(t("= 1", true), Lexed { kind: SyntaxKind::Eq, len: 1 });
    assert_eq!(t("  \t x", false), Lexed { kind: SyntaxKind::Whitespace, len: 4 });
    assert_eq!(t("\r\nx", true), Lexed { kind: SyntaxKind::Newline, len: 2 });
    assert_eq!(t("\nx", true), Lexed { kind: SyntaxKind::Newline, len: 1 });
    assert_eq!(t("\rx", true), Lexed { kind: SyntaxKind::Error, len: 1 });
    assert_eq!(t("# c \u{e4}\nx", true), Lexed { kind: SyntaxKind::Comment, len: 6 });
    assert_eq!(t("a-b_1.c", true), Lexed { kind: SyntaxKind::Ident, len: 5 });
    assert_eq!(t("123 = x", true), Lexed { kind: SyntaxKind::Ident, len: 3 });
    assert_eq!(t("123 = x", false), Lexed { kind: SyntaxKind::Integer, len: 3 });
    assert_eq!(t("1.5,", false), Lexed { kind: SyntaxKind::Float, len: 3 });
    assert_eq!(t("1.5", true), Lexed { kind: SyntaxKind::Ident, len: 1 });
    assert_eq!(t("00:00:01,", false), Lexed { kind: SyntaxKind::Date, len: 8 });
    assert_eq!(t("truex", false), Lexed { kind: SyntaxKind::Ident, len: 5 });
    assert_eq!(t("true]", false), Lexed { kind: SyntaxKind::Bool, len: 4 });
    assert_eq!(t("+x", false), Lexed { kind: SyntaxKind::Error, len: 2 });
    assert_eq!(t("\u{e4}\u{f6}=", true), Lexed { kind: SyntaxKind::Error, len: 4 });
    assert_eq!(t("\"a\" = 1", true), Lexed { kind: SyntaxKind::String, len: 3 });
    assert_eq!(t("\"a\nb", true), Lexed { kind: SyntaxKind::Error, len: 2 });
    assert_eq!(t("'''a'''''x", false), Lexed { kind: SyntaxKind::MultiLineStringLiteral, len: 9 });
    assert_eq!(t("\u{1}", false), Lexed { kind: SyntaxKind::Error, len: 1 });
}

#[test]
fn byte_helpers_scan_runs() {
    let bytes = "ab12 \t_x".as_bytes();
    assert_eq!(run_end(bytes, 0, ByteClass::Word), 4);
    assert_eq!(run_end(bytes, 2, ByteClass::Digit), 4);
    assert_eq!(run_end(bytes, 4, ByteClass::Blank), 6);
    assert_eq!(run_end(bytes, 4, ByteClass::Word), 4);
    assert_eq!(run_end(bytes, 0, ByteClass::Line), 8);
    assert_eq!(run_end(bytes, 8, ByteClass::Word), 8);
    assert_eq!(run_end("1_f g".as_bytes(), 0, ByteClass::Number), 2);
    assert_eq!(run_end("1_f g".as_bytes(), 0, ByteClass::Hex), 3);
    assert_eq!(run_end("\u{e4}a".as_bytes(), 0, ByteClass::High), 2);
    assert!(byte_at(bytes, 1, b'b'));
    assert!(!byte_at(bytes, 1, b'a'));
    assert!(!byte_at(bytes, 8, b'a'));
    assert!(digits_at(bytes, 2, 2));
    assert!(!digits_at(bytes, 2, 3));
    assert!(!digits_at(bytes, 7, 2));
    assert!(digits_at(bytes, 8, 0));
    assert!(!digits_at(bytes, 9, 0));
    assert_eq!(punctuation(b'.'), Some(SyntaxKind::Period));
    assert_eq!(punctuation(b','), Some(SyntaxKind::Comma));
    assert_eq!(punctuation(b'='), Some(SyntaxKind::Eq));
    assert_eq!(punctuation(b'['), Some(SyntaxKind::BracketStart));
    assert_eq!(punctuation(b']'), Some(SyntaxKind::BracketEnd));
    assert_eq!(punctuation(b'{'), Some(SyntaxKind::BraceStart));
    assert_eq!(punctuation(b'}'), Some(SyntaxKind::BraceEnd));
    assert_eq!(punctuation(b'a'), None);
}

#[test]
fn text_is_cut_at_byte_offsets() {
    assert_eq!(split_text("ab\u{e4}c", 2), ("ab", "\u{e4}c"));
    assert_eq!(split_text("ab\u{e4}c", 4), ("ab\u{e4}", "c"));
    assert_eq!(split_text("abc", 0), ("", "abc"));
    assert_eq!(split_text("abc", 3), ("abc", ""));
    assert_eq!(split_text("", 0), ("", ""));
}

fn may_hold(parent: SyntaxKind, child: SyntaxKind) -> bool {
    match parent {
        SyntaxKind::Root => child.is_trivia() || matches!(child, SyntaxKind::Entry | SyntaxKind::TableHeader | SyntaxKind::TableArrayHeader | SyntaxKind::Error),
        SyntaxKind::Entry => matches!(child, SyntaxKind::Key | SyntaxKind::Whitespace | SyntaxKind::Eq | SyntaxKind::Value),
        SyntaxKind::Key => matches!(child, SyntaxKind::Ident | SyntaxKind::Whitespace | SyntaxKind::Period),
        SyntaxKind::Value => matches!(
            child,
            SyntaxKind::Array
                | SyntaxKind::InlineTable
                | SyntaxKind::String
                | SyntaxKind::MultiLineString
                | SyntaxKind::StringLiteral
                | SyntaxKind::MultiLineStringLiteral
                | SyntaxKind::Integer
                | SyntaxKind::IntegerHex
                | SyntaxKind::IntegerOct
                | SyntaxKind::IntegerBin
                | SyntaxKind::Float
                | SyntaxKind::Bool
                | SyntaxKind::Date
        ),
        SyntaxKind::Array => {
            child.is_trivia() || matches!(child, SyntaxKind::BracketStart | SyntaxKind::BracketEnd | SyntaxKind::Comma | SyntaxKind::Value | SyntaxKind::Error)
        }
        SyntaxKind::InlineTable => {
            matches!(child, SyntaxKind::Whitespace | SyntaxKind::BraceStart | SyntaxKind::BraceEnd | SyntaxKind::Comma | SyntaxKind::Entry | SyntaxKind::Error)
        }
        SyntaxKind::TableHeader | SyntaxKind::TableArrayHeader => {
            matches!(child, SyntaxKind::Whitespace | SyntaxKind::BracketStart | SyntaxKind::BracketEnd | SyntaxKind::Key)
        }
        _ => false,
    }
}

fn check_shape(element: &Element) {
    if element.is_token() {
        assert!(element.children().is_empty());
        return;
    }
    for child in element.children() {
        assert!(
            may_hold(element.kind(), child.kind()),
            "{:?} in {:?}",
            child.kind(),
            element.kind()
        );
        check_shape(child);
    }
}

#[test]
fn trees_follow_the_grammar_even_for_broken_text() {
    let sources = [
        "a = 1\n[t]\nb.c = [1, [2], { x = 1 }]\n[[l]]\n",
        "a = = 1\n[[x]\n[y]]\n]] = {3, ,}\nk = [1 2 x,,\n",
        "\"x\" . 'y' = \"\"\"z\n[ a . b ] # c\n[[ ]]\n= = =\n",
        "a = { b = { c = [ { d = 1 } ] } }\nx = {\ny = 1 }\n",
        "\u{e4} = 1\na = \u{e4}\n[\u{e4}]\n",
    ];
    for src in sources {
        let parsed = parse(src);
        assert_eq!(parsed.root.render(), src);
        check_shape(&parsed.root);
        for e in &parsed.errors {
            assert!(e.range.start <= e.range.end && e.range.end <= src.len());
        }
        parsed.into_dom();
    }
}
