//! Turning text into the syntax tree.
//!
//! The parser never gives up: text that fits no rule becomes an error token
//! and an entry in the list of errors, and every byte of the text ends up in
//! exactly one token of the tree.

use vstd::prelude::*;
use vstd::string::*;
use crate::error::{syntax_error_models, SyntaxError, SyntaxErrorModel};
use crate::grammar::{
    eat, fail, kind_after, next, nothing, read_array, read_closers, read_constructs,
    read_document, read_entry, read_fill, read_header, read_inline, read_items, read_key,
    read_members, read_segments, read_value, text_of, then, wrapped, Read,
};
use crate::rowan_tree::{lemma_walk_push, walk_of, walk_through, WalkModel};
use crate::kind::SyntaxKind;
use crate::lexer::{lex, simple_token, token_of, Lexed};
use crate::lexer::{byte_at, lemma_run_to, run_to, spec_punctuation, ByteClass};
use crate::syntax::{chain_end, chained, concat_texts, lemma_max_height, max_height, Element};
use crate::text::{bytes_of, lemma_cut, split_text, TextRange};

verus! {

/// The text that is still to be read, and the offset at which it starts.
#[derive(Clone, Copy)]
pub struct Cursor<'a> {
    pub rest: &'a str,
    pub pos: usize,
}

impl<'a> Cursor<'a> {
    /// The cursor and what it has left add up to a text of `total` bytes.
    pub open spec fn ok(self, total: int) -> bool {
        self.pos + bytes_of(self.rest@).len() == total && total <= usize::MAX
    }

    /// Number of bytes that are left.
    pub open spec fn left(self) -> nat {
        bytes_of(self.rest@).len()
    }
}

/// Whether the grammar lets a node of kind `parent` hold an element of kind
/// `child` directly.
pub open spec fn allowed(parent: SyntaxKind, child: SyntaxKind) -> bool {
    match parent {
        SyntaxKind::Root => child.spec_is_trivia() || child == SyntaxKind::Entry || child
            == SyntaxKind::TableHeader || child == SyntaxKind::TableArrayHeader || child
            == SyntaxKind::Error,
        SyntaxKind::Entry => child == SyntaxKind::Key || child == SyntaxKind::Whitespace || child
            == SyntaxKind::Eq || child == SyntaxKind::Value,
        SyntaxKind::Key => child == SyntaxKind::Ident || child == SyntaxKind::Whitespace || child
            == SyntaxKind::Period,
        SyntaxKind::Value => child == SyntaxKind::Array || child == SyntaxKind::InlineTable
            || (spec_starts_value(child) && child.spec_is_token() && child
            != SyntaxKind::BracketStart && child != SyntaxKind::BraceStart),
        SyntaxKind::Array => child.spec_is_trivia() || child == SyntaxKind::BracketStart || child
            == SyntaxKind::BracketEnd || child == SyntaxKind::Comma || child == SyntaxKind::Value
            || child == SyntaxKind::Error,
        SyntaxKind::InlineTable => child == SyntaxKind::Whitespace || child
            == SyntaxKind::BraceStart || child == SyntaxKind::BraceEnd || child
            == SyntaxKind::Comma || child == SyntaxKind::Entry || child == SyntaxKind::Error,
        SyntaxKind::TableHeader => child == SyntaxKind::Whitespace || child
            == SyntaxKind::BracketStart || child == SyntaxKind::BracketEnd || child
            == SyntaxKind::Key,
        SyntaxKind::TableArrayHeader => child == SyntaxKind::Whitespace || child
            == SyntaxKind::BracketStart || child == SyntaxKind::BracketEnd || child
            == SyntaxKind::Key,
        _ => false,
    }
}

/// The tree below `e` follows the grammar: every node in it holds only what
/// the grammar lets a node of its kind hold.
pub open spec fn shaped(e: Element) -> bool
    decreases e.height(), 1int, 0int,
{
    e.spec_is_token() || {
        proof {
            e.lemma_height();
        }
        shaped_all(e.spec_children(), e.spec_kind(), e.spec_children().len() as int)
    }
}

/// The first `n` elements of `s` may stand in a node of kind `parent`, and
/// the tree below each follows the grammar.
pub open spec fn shaped_all(s: Seq<Element>, parent: SyntaxKind, n: int) -> bool
    decreases max_height(s, s.len() as int), 0int, n,
{
    if n <= 0 || n > s.len() {
        true
    } else {
        proof {
            lemma_max_height(s, s.len() as int, n - 1);
        }
        shaped_all(s, parent, n - 1) && allowed(parent, s[n - 1].spec_kind()) && shaped(s[n - 1])
    }
}

proof fn lemma_shaped_prefix(a: Seq<Element>, b: Seq<Element>, parent: SyntaxKind, n: int)
    requires
        0 <= n <= a.len(),
        n <= b.len(),
        forall|i: int| 0 <= i < n ==> a[i] == b[i],
    ensures
        shaped_all(a, parent, n) == shaped_all(b, parent, n),
    decreases n,
{
    if n > 0 {
        lemma_shaped_prefix(a, b, parent, n - 1);
    }
}

/// Reading went from `before` to `after` and made `e` of what lies between.
pub open spec fn advanced(before: Cursor, after: Cursor, e: Element, total: int) -> bool {
    &&& e.wf()
    &&& e.spec_start() == before.pos
    &&& e.spec_end() == after.pos
    &&& e.text() + after.rest@ == before.rest@
    &&& after.ok(total)
    &&& after.left() <= before.left()
    &&& shaped(e)
}

/// Both ends of the place of each error are offsets of a text of `total` bytes.
pub open spec fn placed(errors: Seq<SyntaxError>, total: int) -> bool {
    forall|i: int| 0 <= i < errors.len() ==> (#[trigger] errors[i]).range.fits(total)
}

/// A node under construction.
pub struct Open {
    pub kind: SyntaxKind,
    pub start: usize,
    pub end: usize,
    pub children: Vec<Element>,
}

impl Open {
    pub open spec fn inv(self) -> bool {
        &&& !self.kind.spec_is_token()
        &&& self.start <= self.end
        &&& forall|i: int| 0 <= i < self.children@.len() ==> (#[trigger] self.children@[i]).wf()
        &&& chained(self.children@, self.start as int)
        &&& self.end == chain_end(self.children@, self.start as int)
    }

    /// The text of the elements gathered so far.
    pub open spec fn text(self) -> Seq<char> {
        concat_texts(self.children@, self.children@.len() as int)
    }

    /// The node has gathered the text between where `origin` began and
    /// where `cur` stands.
    pub open spec fn at(self, cur: Cursor, origin: Seq<char>, total: int) -> bool {
        &&& self.inv()
        &&& shaped_all(self.children@, self.kind, self.children@.len() as int)
        &&& self.end == cur.pos
        &&& self.text() + cur.rest@ == origin
        &&& cur.ok(total)
    }

    pub fn new(kind: SyntaxKind, start: usize) -> (o: Open)
        requires
            !kind.spec_is_token(),
        ensures
            o.inv(),
            o.kind == kind,
            o.start == start,
            o.end == start,
            o.text() == Seq::<char>::empty(),
            o.children@.len() == 0,
    {
        Open { kind, start, end: start, children: Vec::new() }
    }

    /// Adds an element that starts where the node ends so far.
    pub fn add(self, e: Element) -> (o: Open)
        requires
            self.inv(),
            e.wf(),
            e.spec_start() == self.end,
        ensures
            o.inv(),
            o.kind == self.kind,
            o.start == self.start,
            o.end == e.spec_end(),
            o.children@ == self.children@.push(e),
    {
        let Open { kind, start, end, mut children } = self;
        let ghost old_children: Seq<Element> = children@;
        let at: usize = e.text_range().end;
        children.push(e);
        proof {
            let s: Seq<Element> = children@;
            assert forall|i: int| 0 < i < s.len() implies (#[trigger] s[i]).spec_start() == s[i
                - 1].spec_end() by {
                if i < old_children.len() {
                    assert(s[i] == old_children[i]);
                    assert(s[i - 1] == old_children[i - 1]);
                } else if old_children.len() > 0 {
                    assert(s[i - 1] == old_children.last());
                }
            }
            if old_children.len() > 0 {
                assert(s[0] == old_children[0]);
            }
            assert(s.last() == e);
            assert forall|i: int| 0 <= i < s.len() implies (#[trigger] s[i]).wf() by {
                if i < old_children.len() {
                    assert(s[i] == old_children[i]);
                }
            }
        }
        Open { kind, start, end: at, children }
    }

    /// Adds the element that reading made on the way from `before` to
    /// `after`.
    fn attach(
        self,
        e: Element,
        Ghost(before): Ghost<Cursor>,
        Ghost(after): Ghost<Cursor>,
        Ghost(origin): Ghost<Seq<char>>,
        Ghost(total): Ghost<int>,
    ) -> (o: Open)
        requires
            self.at(before, origin, total),
            advanced(before, after, e, total),
            allowed(self.kind, e.spec_kind()),
        ensures
            o.at(after, origin, total),
            o.kind == self.kind,
            o.start == self.start,
            o.children@ == self.children@.push(e),
    {
        proof {
            Element::lemma_concat_push(self.children@, e);
            assert((self.text() + e.text()) + after.rest@ =~= self.text() + (e.text()
                + after.rest@));
            lemma_shaped_prefix(
                self.children@.push(e),
                self.children@,
                self.kind,
                self.children@.len() as int,
            );
        }
        self.add(e)
    }

    /// Finishes the node.
    pub fn close(self) -> (e: Element)
        requires
            self.inv(),
        ensures
            shaped(e) == shaped_all(self.children@, self.kind, self.children@.len() as int),
            e.wf(),
            e.spec_kind() == self.kind,
            e.spec_start() == self.start,
            e.spec_end() == self.end,
            e.text() == self.text(),
            e.spec_children() == self.children@,
    {
        match Element::node(self.kind, self.start, self.children) {
            Some(e) => e,
            None => vstd::pervasive::unreached(),
        }
    }
}

/// What stays the same while one construct is read: the text that it
/// started from, the length of the whole document, and the errors that were
/// there before it.
pub struct Frame {
    pub origin: Seq<char>,
    pub total: int,
    pub base: Seq<SyntaxError>,
}

/// The node, the cursor and the errors are where reading `acc` has brought
/// them.
pub open spec fn tracks(
    node: Open,
    at: Cursor,
    errors: Seq<SyntaxError>,
    base: Seq<SyntaxError>,
    acc: Read,
) -> bool {
    &&& walk_through(node.children@, node.children@.len() as int) == acc.walk
    &&& bytes_of(at.rest@) == acc.rest
    &&& at.pos == acc.pos
    &&& syntax_error_models(errors) == syntax_error_models(base) + acc.errors
}

/// All that holds of a node under construction.
pub open spec fn follows(
    node: Open,
    at: Cursor,
    errors: Seq<SyntaxError>,
    frame: Frame,
    acc: Read,
) -> bool {
    &&& node.at(at, frame.origin, frame.total)
    &&& tracks(node, at, errors, frame.base, acc)
    &&& placed(errors, frame.total)
}

/// The element, the cursor and the errors are what reading `r` gives.
pub open spec fn gives(
    after: Cursor,
    e: Element,
    errors: Seq<SyntaxError>,
    base: Seq<SyntaxError>,
    r: Read,
) -> bool {
    &&& walk_of(e) == r.walk
    &&& bytes_of(after.rest@) == r.rest
    &&& after.pos == r.pos
    &&& syntax_error_models(errors) == syntax_error_models(base) + r.errors
}

/// The next token, if any text is left.
fn peek(cur: &Cursor, key: bool) -> (r: Option<Lexed>)
    ensures
        r == next(bytes_of(cur.rest@), key),
        r is None <==> cur.left() == 0,
        r matches Some(t) ==> token_of(bytes_of(cur.rest@), t) && simple_token(
            bytes_of(cur.rest@),
            key,
            t,
        ),
{
    let bytes: &[u8] = cur.rest.as_bytes();
    if bytes.len() == 0 {
        None
    } else {
        Some(lex(bytes, key))
    }
}

/// Reads the token `t` and makes an element of kind `kind` of it.
fn take<'a>(cur: Cursor<'a>, t: Lexed, kind: SyntaxKind, Ghost(total): Ghost<int>) -> (r: (
    Element,
    Cursor<'a>,
))
    requires
        cur.ok(total),
        token_of(bytes_of(cur.rest@), t),
        kind.spec_is_token(),
    ensures
        advanced(cur, r.1, r.0, total),
        r.0.spec_kind() == kind,
        r.1.pos == cur.pos + t.len,
        r.1.left() + t.len == cur.left(),
        r.0.spec_children().len() == 0,
        walk_of(r.0) == seq![
            WalkModel::Token(kind.spec_code(), text_of(bytes_of(cur.rest@), t.len as int)),
        ],
        bytes_of(r.1.rest@) == bytes_of(cur.rest@).subrange(
            t.len as int,
            bytes_of(cur.rest@).len() as int,
        ),
{
    proof {
        lemma_cut(cur.rest@, t.len as int);
    }
    let cut: (&str, &str) = split_text(cur.rest, t.len);
    let text: String = String::from_str(cut.0);
    proof {
        vstd::utf8::encode_utf8_decode_utf8(cut.0@);
    }
    let e: Element = match Element::token(kind, cur.pos, text) {
        Some(e) => e,
        None => vstd::pervasive::unreached(),
    };
    (e, Cursor { rest: cut.1, pos: cur.pos + t.len })
}

/// Starts a node at the cursor.
fn begin(kind: SyntaxKind, cur: &Cursor, Ghost(errors): Ghost<Seq<SyntaxError>>, Ghost(total): Ghost<
    int,
>) -> (node: Open)
    requires
        !kind.spec_is_token(),
        cur.ok(total),
        placed(errors, total),
    ensures
        follows(
            node,
            *cur,
            errors,
            Frame { origin: cur.rest@, total, base: errors },
            nothing(bytes_of(cur.rest@), cur.pos as int),
        ),
        node.kind == kind,
        node.start == cur.pos,
{
    let node: Open = Open::new(kind, cur.pos);
    proof {
        assert(node.text() + cur.rest@ =~= cur.rest@);
        assert(syntax_error_models(errors) + Seq::<SyntaxErrorModel>::empty()
            =~= syntax_error_models(errors));
    }
    node
}

/// Reads the token `t` into `node`, as a token of kind `kind`.
fn eat_into<'a>(
    node: Open,
    at: Cursor<'a>,
    t: Lexed,
    kind: SyntaxKind,
    Ghost(errors): Ghost<Seq<SyntaxError>>,
    Ghost(frame): Ghost<Frame>,
    Ghost(acc): Ghost<Read>,
) -> (r: (Open, Cursor<'a>))
    requires
        follows(node, at, errors, frame, acc),
        token_of(bytes_of(at.rest@), t),
        kind.spec_is_token(),
        allowed(node.kind, kind),
    ensures
        follows(r.0, r.1, errors, frame, eat(acc, t, kind)),
        r.0.kind == node.kind,
        r.0.start == node.start,
        r.1.left() + t.len == at.left(),
{
    let taken: (Element, Cursor<'a>) = take(at, t, kind, Ghost(frame.total));
    proof {
        lemma_walk_push(node.children@, taken.0);
        assert(acc.walk + walk_of(taken.0) =~= eat(acc, t, kind).walk);
    }
    let grown: Open = node.attach(
        taken.0,
        Ghost(at),
        Ghost(taken.1),
        Ghost(frame.origin),
        Ghost(frame.total),
    );
    (grown, taken.1)
}

/// Puts the element that a part of the grammar read into `node`.
fn sub_into(
    node: Open,
    e: Element,
    Ghost(before): Ghost<Cursor>,
    Ghost(after): Ghost<Cursor>,
    Ghost(old_errors): Ghost<Seq<SyntaxError>>,
    Ghost(errors): Ghost<Seq<SyntaxError>>,
    Ghost(frame): Ghost<Frame>,
    Ghost(acc): Ghost<Read>,
    Ghost(r): Ghost<Read>,
) -> (o: Open)
    requires
        follows(node, before, old_errors, frame, acc),
        advanced(before, after, e, frame.total),
        allowed(node.kind, e.spec_kind()),
        gives(after, e, errors, old_errors, r),
        placed(errors, frame.total),
    ensures
        follows(o, after, errors, frame, then(acc, r)),
        o.kind == node.kind,
        o.start == node.start,
{
    proof {
        lemma_walk_push(node.children@, e);
        assert((syntax_error_models(frame.base) + acc.errors) + r.errors =~= syntax_error_models(
            frame.base,
        ) + (acc.errors + r.errors));
    }
    node.attach(e, Ghost(before), Ghost(after), Ghost(frame.origin), Ghost(frame.total))
}

/// Records an error at `start..end`.
fn fail_at(
    errors: &mut Vec<SyntaxError>,
    start: usize,
    end: usize,
    message: &str,
    Ghost(node): Ghost<Open>,
    Ghost(at): Ghost<Cursor>,
    Ghost(frame): Ghost<Frame>,
    Ghost(acc): Ghost<Read>,
)
    requires
        follows(node, at, old(errors)@, frame, acc),
        start <= frame.total,
        end <= frame.total,
    ensures
        follows(node, at, final(errors)@, frame, fail(acc, start as int, end as int, message@)),
        final(errors)@.len() == old(errors)@.len() + 1,
{
    let ghost before: Seq<SyntaxError> = errors@;
    let error: SyntaxError = SyntaxError {
        range: TextRange { start, end },
        message: String::from_str(message),
    };
    errors.push(error);
    proof {
        assert(syntax_error_models(errors@) =~= syntax_error_models(before).push(error@));
        assert(syntax_error_models(errors@) =~= syntax_error_models(frame.base) + fail(
            acc,
            start as int,
            end as int,
            message@,
        ).errors);
    }
}

/// Whether a token of this kind can start a key.
pub open spec fn spec_starts_key(kind: SyntaxKind) -> bool {
    kind == SyntaxKind::Ident || kind == SyntaxKind::String || kind == SyntaxKind::StringLiteral
}

#[verifier::when_used_as_spec(spec_starts_key)]
pub fn starts_key(kind: SyntaxKind) -> (b: bool)
    ensures
        b == spec_starts_key(kind),
{
    matches!(kind, SyntaxKind::Ident | SyntaxKind::String | SyntaxKind::StringLiteral)
}

/// Whether a token of this kind can start a value.
pub open spec fn spec_starts_value(kind: SyntaxKind) -> bool {
    kind == SyntaxKind::String || kind == SyntaxKind::MultiLineString || kind
        == SyntaxKind::StringLiteral || kind == SyntaxKind::MultiLineStringLiteral || kind
        == SyntaxKind::Integer || kind == SyntaxKind::IntegerHex || kind == SyntaxKind::IntegerOct
        || kind == SyntaxKind::IntegerBin || kind == SyntaxKind::Float || kind == SyntaxKind::Bool
        || kind == SyntaxKind::Date || kind == SyntaxKind::BracketStart || kind
        == SyntaxKind::BraceStart
}

#[verifier::when_used_as_spec(spec_starts_value)]
pub fn starts_value(kind: SyntaxKind) -> (b: bool)
    ensures
        b == spec_starts_value(kind),
{
    matches!(
        kind,
        SyntaxKind::String | SyntaxKind::MultiLineString | SyntaxKind::StringLiteral
            | SyntaxKind::MultiLineStringLiteral | SyntaxKind::Integer | SyntaxKind::IntegerHex
            | SyntaxKind::IntegerOct | SyntaxKind::IntegerBin | SyntaxKind::Float
            | SyntaxKind::Bool | SyntaxKind::Date | SyntaxKind::BracketStart
            | SyntaxKind::BraceStart
    )
}

/// Gathers blanks into `node`, and line breaks and comments too where
/// `lines` is set.
fn fill<'a>(
    node: Open,
    cur: Cursor<'a>,
    lines: bool,
    Ghost(errors): Ghost<Seq<SyntaxError>>,
    Ghost(frame): Ghost<Frame>,
    Ghost(acc): Ghost<Read>,
) -> (r: (Open, Cursor<'a>))
    requires
        follows(node, cur, errors, frame, acc),
        allowed(node.kind, SyntaxKind::Whitespace),
        lines ==> allowed(node.kind, SyntaxKind::Newline) && allowed(
            node.kind,
            SyntaxKind::Comment,
        ),
    ensures
        follows(r.0, r.1, errors, frame, read_fill(acc, lines)),
        r.0.kind == node.kind,
        r.0.start == node.start,
        r.1.left() <= cur.left(),
{
    let mut node: Open = node;
    let mut at: Cursor<'a> = cur;
    let ghost kind: SyntaxKind = node.kind;
    let ghost start: usize = node.start;
    let ghost goal: Read = read_fill(acc, lines);
    let ghost mut a: Read = acc;
    loop
        invariant_except_break
            read_fill(a, lines) == goal,
        invariant
            follows(node, at, errors, frame, a),
            node.kind == kind,
            node.start == start,
            at.left() <= cur.left(),
            allowed(kind, SyntaxKind::Whitespace),
            lines ==> allowed(kind, SyntaxKind::Newline) && allowed(kind, SyntaxKind::Comment),
        ensures
            a == goal,
        decreases at.left(),
    {
        let found: Option<Lexed> = peek(&at, false);
        match found {
            Some(t) => {
                let trivia: bool = match t.kind {
                    SyntaxKind::Whitespace => true,
                    SyntaxKind::Newline | SyntaxKind::Comment => lines,
                    _ => false,
                };
                if !trivia {
                    break ;
                }
                let r: (Open, Cursor<'a>) = eat_into(
                    node,
                    at,
                    t,
                    t.kind,
                    Ghost(errors),
                    Ghost(frame),
                    Ghost(a),
                );
                proof {
                    a = eat(a, t, t.kind);
                }
                node = r.0;
                at = r.1;
            },
            None => {
                break ;
            },
        }
    }
    (node, at)
}

/// What is left of `bytes` after the blanks at its start.
pub open spec fn after_blanks(bytes: Seq<u8>) -> Seq<u8> {
    bytes.subrange(run_to(bytes, ByteClass::Blank, 0), bytes.len() as int)
}

/// The kind of the next token that is no blank: of the token that is cut,
/// where a key is expected, from what is left after the blanks at the start.
/// None where nothing is left. Where a punctuation byte comes first there,
/// the kind is that of its token.
fn kind_after_blank(cur: &Cursor) -> (r: Option<SyntaxKind>)
    ensures
        r == kind_after(bytes_of(cur.rest@)),
        r is None <==> after_blanks(bytes_of(cur.rest@)).len() == 0,
        r matches Some(k) ==> exists|t: Lexed|
            {
                &&& #[trigger] token_of(after_blanks(bytes_of(cur.rest@)), t)
                &&& simple_token(after_blanks(bytes_of(cur.rest@)), true, t)
                &&& t.kind == k
            },
        r matches Some(k) ==> k != SyntaxKind::Whitespace && (spec_punctuation(
            after_blanks(bytes_of(cur.rest@))[0],
        ) matches Some(p) ==> k == p),
{
    let ghost bytes: Seq<u8> = bytes_of(cur.rest@);
    match peek(cur, true) {
        Some(t) => {
            if t.kind == SyntaxKind::Whitespace {
                proof {
                    lemma_run_to(bytes, ByteClass::Blank, 0, t.len as int);
                    lemma_cut(cur.rest@, t.len as int);
                }
                let cut: (&str, &str) = split_text(cur.rest, t.len);
                assert(bytes_of(cut.1@) == after_blanks(bytes));
                match peek(&Cursor { rest: cut.1, pos: 0 }, true) {
                    Some(u) => {
                        assert(token_of(after_blanks(bytes), u));
                        Some(u.kind)
                    },
                    None => None,
                }
            } else {
                assert(after_blanks(bytes) =~= bytes);
                assert(token_of(after_blanks(bytes), t));
                Some(t.kind)
            }
        },
        None => {
            assert(after_blanks(bytes) =~= bytes);
            None
        },
    }
}

/// Reads a key: segments with periods between them. `first` is its first
/// token.
fn parse_key<'a>(
    cur: Cursor<'a>,
    first: Lexed,
    errors: &mut Vec<SyntaxError>,
    Ghost(total): Ghost<int>,
) -> (r: (Element, Cursor<'a>))
    requires
        cur.ok(total),
        token_of(bytes_of(cur.rest@), first),
        placed(old(errors)@, total),
    ensures
        advanced(cur, r.1, r.0, total),
        r.0.spec_kind() == SyntaxKind::Key,
        r.1.left() < cur.left(),
        placed(final(errors)@, total),
        gives(
            r.1,
            r.0,
            final(errors)@,
            old(errors)@,
            read_key(bytes_of(cur.rest@), cur.pos as int, first),
        ),
{
    let ghost frame: Frame = Frame { origin: cur.rest@, total, base: errors@ };
    let ghost start: Read = nothing(bytes_of(cur.rest@), cur.pos as int);
    let node: Open = begin(SyntaxKind::Key, &cur, Ghost(errors@), Ghost(total));
    let head: (Open, Cursor<'a>) = eat_into(
        node,
        cur,
        first,
        SyntaxKind::Ident,
        Ghost(errors@),
        Ghost(frame),
        Ghost(start),
    );
    let mut node: Open = head.0;
    let mut at: Cursor<'a> = head.1;
    let ghost mut acc: Read = eat(start, first, SyntaxKind::Ident);
    let ghost goal: Read = read_segments(acc);
    loop
        invariant_except_break
            read_segments(acc) == goal,
        invariant
            follows(node, at, errors@, frame, acc),
            node.kind == SyntaxKind::Key,
            node.start == cur.pos,
            at.left() < cur.left(),
            frame.total == total,
        ensures
            acc == goal,
        decreases at.left(),
    {
        let dotted: bool = match kind_after_blank(&at) {
            Some(k) => k == SyntaxKind::Period,
            None => false,
        };
        if !dotted {
            break ;
        }
        let ghost entry: Read = acc;
        let filled: (Open, Cursor<'a>) = fill(
            node,
            at,
            false,
            Ghost(errors@),
            Ghost(frame),
            Ghost(acc),
        );
        node = filled.0;
        at = filled.1;
        proof {
            acc = read_fill(acc, false);
        }
        let found: Option<Lexed> = peek(&at, true);
        match found {
            Some(t) => {
                if t.kind != SyntaxKind::Period {
                    break ;
                }
                let r: (Open, Cursor<'a>) = eat_into(
                    node,
                    at,
                    t,
                    t.kind,
                    Ghost(errors@),
                    Ghost(frame),
                    Ghost(acc),
                );
                node = r.0;
                at = r.1;
                proof {
                    acc = eat(acc, t, t.kind);
                }
            },
            None => {
                break ;
            },
        }
        let filled: (Open, Cursor<'a>) = fill(
            node,
            at,
            false,
            Ghost(errors@),
            Ghost(frame),
            Ghost(acc),
        );
        node = filled.0;
        at = filled.1;
        proof {
            acc = read_fill(acc, false);
        }
        let found: Option<Lexed> = peek(&at, true);
        let segment: Option<Lexed> = match found {
            Some(t) => if starts_key(t.kind) {
                Some(t)
            } else {
                None
            },
            None => None,
        };
        match segment {
            Some(t) => {
                let r: (Open, Cursor<'a>) = eat_into(
                    node,
                    at,
                    t,
                    SyntaxKind::Ident,
                    Ghost(errors@),
                    Ghost(frame),
                    Ghost(acc),
                );
                node = r.0;
                at = r.1;
                proof {
                    acc = eat(acc, t, SyntaxKind::Ident);
                    assert(acc.rest.len() < entry.rest.len());
                }
            },
            None => {
                fail_at(
                    errors,
                    at.pos,
                    at.pos,
                    "expected a key after `.`",
                    Ghost(node),
                    Ghost(at),
                    Ghost(frame),
                    Ghost(acc),
                );
                proof {
                    acc = fail(acc, at.pos as int, at.pos as int, "expected a key after `.`"@);
                }
                break ;
            },
        }
    }
    (node.close(), at)
}

/// Reads a value: a scalar, an array or an inline table. `first` is its
/// first token.
fn parse_value<'a>(
    cur: Cursor<'a>,
    first: Lexed,
    errors: &mut Vec<SyntaxError>,
    Ghost(total): Ghost<int>,
) -> (r: (Element, Cursor<'a>))
    requires
        cur.ok(total),
        token_of(bytes_of(cur.rest@), first),
        spec_starts_value(first.kind),
        placed(old(errors)@, total),
    ensures
        advanced(cur, r.1, r.0, total),
        r.0.spec_kind() == SyntaxKind::Value,
        r.1.left() < cur.left(),
        placed(final(errors)@, total),
        gives(
            r.1,
            r.0,
            final(errors)@,
            old(errors)@,
            read_value(bytes_of(cur.rest@), cur.pos as int, first),
        ),
    decreases cur.left(), 2int,
{
    let ghost frame: Frame = Frame { origin: cur.rest@, total, base: errors@ };
    let ghost start: Read = nothing(bytes_of(cur.rest@), cur.pos as int);
    let ghost bytes: Seq<u8> = bytes_of(cur.rest@);
    let node: Open = begin(SyntaxKind::Value, &cur, Ghost(errors@), Ghost(total));
    match first.kind {
        SyntaxKind::BracketStart => {
            let inner: (Element, Cursor<'a>) = parse_array(cur, first, errors, Ghost(total));
            let node: Open = sub_into(
                node,
                inner.0,
                Ghost(cur),
                Ghost(inner.1),
                Ghost(frame.base),
                Ghost(errors@),
                Ghost(frame),
                Ghost(start),
                Ghost(read_array(bytes, cur.pos as int, first)),
            );
            (node.close(), inner.1)
        },
        SyntaxKind::BraceStart => {
            let inner: (Element, Cursor<'a>) = parse_inline_table(cur, first, errors, Ghost(total));
            let node: Open = sub_into(
                node,
                inner.0,
                Ghost(cur),
                Ghost(inner.1),
                Ghost(frame.base),
                Ghost(errors@),
                Ghost(frame),
                Ghost(start),
                Ghost(read_inline(bytes, cur.pos as int, first)),
            );
            (node.close(), inner.1)
        },
        _ => {
            let r: (Open, Cursor<'a>) = eat_into(
                node,
                cur,
                first,
                first.kind,
                Ghost(errors@),
                Ghost(frame),
                Ghost(start),
            );
            (r.0.close(), r.1)
        },
    }
}

/// Reads an array. `first` is its opening bracket.
fn parse_array<'a>(
    cur: Cursor<'a>,
    first: Lexed,
    errors: &mut Vec<SyntaxError>,
    Ghost(total): Ghost<int>,
) -> (r: (Element, Cursor<'a>))
    requires
        cur.ok(total),
        token_of(bytes_of(cur.rest@), first),
        placed(old(errors)@, total),
    ensures
        advanced(cur, r.1, r.0, total),
        r.0.spec_kind() == SyntaxKind::Array,
        r.1.left() < cur.left(),
        placed(final(errors)@, total),
        gives(
            r.1,
            r.0,
            final(errors)@,
            old(errors)@,
            read_array(bytes_of(cur.rest@), cur.pos as int, first),
        ),
    decreases cur.left(), 1int,
{
    let ghost frame: Frame = Frame { origin: cur.rest@, total, base: errors@ };
    let ghost start: Read = nothing(bytes_of(cur.rest@), cur.pos as int);
    let node: Open = begin(SyntaxKind::Array, &cur, Ghost(errors@), Ghost(total));
    let head: (Open, Cursor<'a>) = eat_into(
        node,
        cur,
        first,
        SyntaxKind::BracketStart,
        Ghost(errors@),
        Ghost(frame),
        Ghost(start),
    );
    let mut node: Open = head.0;
    let mut at: Cursor<'a> = head.1;
    let mut separated: bool = true;
    let ghost mut acc: Read = eat(start, first, SyntaxKind::BracketStart);
    let ghost goal: Read = read_items(acc, true);
    loop
        invariant_except_break
            read_items(acc, separated) == goal,
        invariant
            follows(node, at, errors@, frame, acc),
            node.kind == SyntaxKind::Array,
            node.start == cur.pos,
            at.left() < cur.left(),
            frame.total == total,
        ensures
            acc == goal,
        decreases at.left(),
    {
        let ghost entry: Read = acc;
        let filled: (Open, Cursor<'a>) = fill(
            node,
            at,
            true,
            Ghost(errors@),
            Ghost(frame),
            Ghost(acc),
        );
        node = filled.0;
        at = filled.1;
        proof {
            acc = read_fill(acc, true);
        }
        let ghost f: Read = acc;
        let found: Option<Lexed> = peek(&at, false);
        match found {
            None => {
                fail_at(
                    errors,
                    at.pos,
                    at.pos,
                    "expected `]`",
                    Ghost(node),
                    Ghost(at),
                    Ghost(frame),
                    Ghost(acc),
                );
                proof {
                    acc = fail(acc, at.pos as int, at.pos as int, "expected `]`"@);
                }
                break ;
            },
            Some(t) => {
                if t.kind == SyntaxKind::BracketEnd {
                    let r: (Open, Cursor<'a>) = eat_into(
                        node,
                        at,
                        t,
                        t.kind,
                        Ghost(errors@),
                        Ghost(frame),
                        Ghost(acc),
                    );
                    node = r.0;
                    at = r.1;
                    proof {
                        acc = eat(acc, t, t.kind);
                    }
                    break ;
                } else if t.kind == SyntaxKind::Comma {
                    if separated {
                        fail_at(
                            errors,
                            at.pos,
                            at.pos + t.len,
                            "unexpected `,`",
                            Ghost(node),
                            Ghost(at),
                            Ghost(frame),
                            Ghost(acc),
                        );
                        proof {
                            acc = fail(acc, at.pos as int, at.pos + t.len, "unexpected `,`"@);
                        }
                    }
                    separated = true;
                    let r: (Open, Cursor<'a>) = eat_into(
                        node,
                        at,
                        t,
                        t.kind,
                        Ghost(errors@),
                        Ghost(frame),
                        Ghost(acc),
                    );
                    node = r.0;
                    at = r.1;
                    proof {
                        acc = eat(acc, t, t.kind);
                    }
                } else if starts_value(t.kind) {
                    if !separated {
                        fail_at(
                            errors,
                            at.pos,
                            at.pos,
                            "expected `,`",
                            Ghost(node),
                            Ghost(at),
                            Ghost(frame),
                            Ghost(acc),
                        );
                        proof {
                            acc = fail(acc, at.pos as int, at.pos as int, "expected `,`"@);
                        }
                    }
                    separated = false;
                    let ghost before: Seq<SyntaxError> = errors@;
                    let r: (Element, Cursor<'a>) = parse_value(at, t, errors, Ghost(total));
                    let ghost read: Read = read_value(f.rest, f.pos, t);
                    node = sub_into(
                        node,
                        r.0,
                        Ghost(at),
                        Ghost(r.1),
                        Ghost(before),
                        Ghost(errors@),
                        Ghost(frame),
                        Ghost(acc),
                        Ghost(read),
                    );
                    at = r.1;
                    proof {
                        acc = then(acc, read);
                    }
                } else {
                    fail_at(
                        errors,
                        at.pos,
                        at.pos + t.len,
                        "expected a value",
                        Ghost(node),
                        Ghost(at),
                        Ghost(frame),
                        Ghost(acc),
                    );
                    proof {
                        acc = fail(acc, at.pos as int, at.pos + t.len, "expected a value"@);
                    }
                    let r: (Open, Cursor<'a>) = eat_into(
                        node,
                        at,
                        t,
                        SyntaxKind::Error,
                        Ghost(errors@),
                        Ghost(frame),
                        Ghost(acc),
                    );
                    node = r.0;
                    at = r.1;
                    proof {
                        acc = eat(acc, t, SyntaxKind::Error);
                    }
                }
            },
        }
    }
    (node.close(), at)
}

/// Reads an inline table. `first` is its opening brace.
fn parse_inline_table<'a>(
    cur: Cursor<'a>,
    first: Lexed,
    errors: &mut Vec<SyntaxError>,
    Ghost(total): Ghost<int>,
) -> (r: (Element, Cursor<'a>))
    requires
        cur.ok(total),
        token_of(bytes_of(cur.rest@), first),
        placed(old(errors)@, total),
    ensures
        advanced(cur, r.1, r.0, total),
        r.0.spec_kind() == SyntaxKind::InlineTable,
        r.1.left() < cur.left(),
        placed(final(errors)@, total),
        gives(
            r.1,
            r.0,
            final(errors)@,
            old(errors)@,
            read_inline(bytes_of(cur.rest@), cur.pos as int, first),
        ),
    decreases cur.left(), 1int,
{
    let ghost frame: Frame = Frame { origin: cur.rest@, total, base: errors@ };
    let ghost start: Read = nothing(bytes_of(cur.rest@), cur.pos as int);
    let node: Open = begin(SyntaxKind::InlineTable, &cur, Ghost(errors@), Ghost(total));
    let head: (Open, Cursor<'a>) = eat_into(
        node,
        cur,
        first,
        SyntaxKind::BraceStart,
        Ghost(errors@),
        Ghost(frame),
        Ghost(start),
    );
    let mut node: Open = head.0;
    let mut at: Cursor<'a> = head.1;
    let mut separated: bool = true;
    let ghost mut acc: Read = eat(start, first, SyntaxKind::BraceStart);
    let ghost goal: Read = read_members(acc, true);
    loop
        invariant_except_break
            read_members(acc, separated) == goal,
        invariant
            follows(node, at, errors@, frame, acc),
            node.kind == SyntaxKind::InlineTable,
            node.start == cur.pos,
            at.left() < cur.left(),
            frame.total == total,
        ensures
            acc == goal,
        decreases at.left(),
    {
        let filled: (Open, Cursor<'a>) = fill(
            node,
            at,
            false,
            Ghost(errors@),
            Ghost(frame),
            Ghost(acc),
        );
        node = filled.0;
        at = filled.1;
        proof {
            acc = read_fill(acc, false);
        }
        let ghost f: Read = acc;
        let found: Option<Lexed> = peek(&at, true);
        match found {
            None => {
                fail_at(
                    errors,
                    at.pos,
                    at.pos,
                    "expected `}`",
                    Ghost(node),
                    Ghost(at),
                    Ghost(frame),
                    Ghost(acc),
                );
                proof {
                    acc = fail(acc, at.pos as int, at.pos as int, "expected `}`"@);
                }
                break ;
            },
            Some(t) => {
                if t.kind == SyntaxKind::BraceEnd {
                    let r: (Open, Cursor<'a>) = eat_into(
                        node,
                        at,
                        t,
                        t.kind,
                        Ghost(errors@),
                        Ghost(frame),
                        Ghost(acc),
                    );
                    node = r.0;
                    at = r.1;
                    proof {
                        acc = eat(acc, t, t.kind);
                    }
                    break ;
                } else if t.kind == SyntaxKind::Newline {
                    fail_at(
                        errors,
                        at.pos,
                        at.pos,
                        "expected `}`",
                        Ghost(node),
                        Ghost(at),
                        Ghost(frame),
                        Ghost(acc),
                    );
                    proof {
                        acc = fail(acc, at.pos as int, at.pos as int, "expected `}`"@);
                    }
                    break ;
                } else if t.kind == SyntaxKind::Comma {
                    if separated {
                        fail_at(
                            errors,
                            at.pos,
                            at.pos + t.len,
                            "unexpected `,`",
                            Ghost(node),
                            Ghost(at),
                            Ghost(frame),
                            Ghost(acc),
                        );
                        proof {
                            acc = fail(acc, at.pos as int, at.pos + t.len, "unexpected `,`"@);
                        }
                    }
                    separated = true;
                    let r: (Open, Cursor<'a>) = eat_into(
                        node,
                        at,
                        t,
                        t.kind,
                        Ghost(errors@),
                        Ghost(frame),
                        Ghost(acc),
                    );
                    node = r.0;
                    at = r.1;
                    proof {
                        acc = eat(acc, t, t.kind);
                    }
                } else if starts_key(t.kind) {
                    if !separated {
                        fail_at(
                            errors,
                            at.pos,
                            at.pos,
                            "expected `,`",
                            Ghost(node),
                            Ghost(at),
                            Ghost(frame),
                            Ghost(acc),
                        );
                        proof {
                            acc = fail(acc, at.pos as int, at.pos as int, "expected `,`"@);
                        }
                    }
                    separated = false;
                    let ghost before: Seq<SyntaxError> = errors@;
                    let r: (Element, Cursor<'a>) = parse_entry(at, t, errors, Ghost(total));
                    let ghost read: Read = read_entry(f.rest, f.pos, t);
                    node = sub_into(
                        node,
                        r.0,
                        Ghost(at),
                        Ghost(r.1),
                        Ghost(before),
                        Ghost(errors@),
                        Ghost(frame),
                        Ghost(acc),
                        Ghost(read),
                    );
                    at = r.1;
                    proof {
                        acc = then(acc, read);
                    }
                } else {
                    fail_at(
                        errors,
                        at.pos,
                        at.pos + t.len,
                        "expected a key",
                        Ghost(node),
                        Ghost(at),
                        Ghost(frame),
                        Ghost(acc),
                    );
                    proof {
                        acc = fail(acc, at.pos as int, at.pos + t.len, "expected a key"@);
                    }
                    let r: (Open, Cursor<'a>) = eat_into(
                        node,
                        at,
                        t,
                        SyntaxKind::Error,
                        Ghost(errors@),
                        Ghost(frame),
                        Ghost(acc),
                    );
                    node = r.0;
                    at = r.1;
                    proof {
                        acc = eat(acc, t, SyntaxKind::Error);
                    }
                }
            },
        }
    }
    (node.close(), at)
}

/// Reads a key-value pair. `first` is the first token of its key.
fn parse_entry<'a>(
    cur: Cursor<'a>,
    first: Lexed,
    errors: &mut Vec<SyntaxError>,
    Ghost(total): Ghost<int>,
) -> (r: (Element, Cursor<'a>))
    requires
        cur.ok(total),
        token_of(bytes_of(cur.rest@), first),
        placed(old(errors)@, total),
    ensures
        advanced(cur, r.1, r.0, total),
        r.0.spec_kind() == SyntaxKind::Entry,
        r.1.left() < cur.left(),
        placed(final(errors)@, total),
        gives(
            r.1,
            r.0,
            final(errors)@,
            old(errors)@,
            read_entry(bytes_of(cur.rest@), cur.pos as int, first),
        ),
    decreases cur.left(), 3int,
{
    let ghost frame: Frame = Frame { origin: cur.rest@, total, base: errors@ };
    let ghost bytes: Seq<u8> = bytes_of(cur.rest@);
    let ghost mut acc: Read = nothing(bytes, cur.pos as int);
    let node: Open = begin(SyntaxKind::Entry, &cur, Ghost(errors@), Ghost(total));
    let key: (Element, Cursor<'a>) = parse_key(cur, first, errors, Ghost(total));
    let ghost read: Read = read_key(bytes, cur.pos as int, first);
    let node: Open = sub_into(
        node,
        key.0,
        Ghost(cur),
        Ghost(key.1),
        Ghost(frame.base),
        Ghost(errors@),
        Ghost(frame),
        Ghost(acc),
        Ghost(read),
    );
    proof {
        acc = then(acc, read);
    }
    let filled: (Open, Cursor<'a>) = fill(
        node,
        key.1,
        false,
        Ghost(errors@),
        Ghost(frame),
        Ghost(acc),
    );
    let mut node: Open = filled.0;
    let mut at: Cursor<'a> = filled.1;
    proof {
        acc = read_fill(acc, false);
    }
    let found: Option<Lexed> = peek(&at, false);
    let eq: Option<Lexed> = match found {
        Some(t) => if t.kind == SyntaxKind::Eq {
            Some(t)
        } else {
            None
        },
        None => None,
    };
    match eq {
        Some(t) => {
            let r: (Open, Cursor<'a>) = eat_into(
                node,
                at,
                t,
                t.kind,
                Ghost(errors@),
                Ghost(frame),
                Ghost(acc),
            );
            node = r.0;
            at = r.1;
            proof {
                acc = eat(acc, t, t.kind);
            }
        },
        None => {
            fail_at(
                errors,
                at.pos,
                at.pos,
                "expected `=`",
                Ghost(node),
                Ghost(at),
                Ghost(frame),
                Ghost(acc),
            );
            return (node.close(), at);
        },
    }
    let filled: (Open, Cursor<'a>) = fill(node, at, false, Ghost(errors@), Ghost(frame), Ghost(acc));
    node = filled.0;
    at = filled.1;
    proof {
        acc = read_fill(acc, false);
    }
    let found: Option<Lexed> = peek(&at, false);
    let value: Option<Lexed> = match found {
        Some(t) => if starts_value(t.kind) {
            Some(t)
        } else {
            None
        },
        None => None,
    };
    match value {
        Some(t) => {
            let ghost before: Seq<SyntaxError> = errors@;
            let r: (Element, Cursor<'a>) = parse_value(at, t, errors, Ghost(total));
            let ghost read: Read = read_value(acc.rest, acc.pos, t);
            node = sub_into(
                node,
                r.0,
                Ghost(at),
                Ghost(r.1),
                Ghost(before),
                Ghost(errors@),
                Ghost(frame),
                Ghost(acc),
                Ghost(read),
            );
            at = r.1;
        },
        None => {
            fail_at(
                errors,
                at.pos,
                at.pos,
                "expected a value",
                Ghost(node),
                Ghost(at),
                Ghost(frame),
                Ghost(acc),
            );
        },
    }
    (node.close(), at)
}

/// Reads the header of a table or of an array of tables. `first` is its
/// opening bracket.
fn parse_header<'a>(
    cur: Cursor<'a>,
    first: Lexed,
    errors: &mut Vec<SyntaxError>,
    Ghost(total): Ghost<int>,
) -> (r: (Element, Cursor<'a>))
    requires
        cur.ok(total),
        token_of(bytes_of(cur.rest@), first),
        placed(old(errors)@, total),
    ensures
        advanced(cur, r.1, r.0, total),
        r.0.spec_kind() == SyntaxKind::TableHeader || r.0.spec_kind()
            == SyntaxKind::TableArrayHeader,
        r.1.left() < cur.left(),
        placed(final(errors)@, total),
        gives(
            r.1,
            r.0,
            final(errors)@,
            old(errors)@,
            read_header(bytes_of(cur.rest@), cur.pos as int, first),
        ),
{
    let ghost frame: Frame = Frame { origin: cur.rest@, total, base: errors@ };
    let ghost bytes: Seq<u8> = bytes_of(cur.rest@);
    let ghost mut acc: Read = nothing(bytes, cur.pos as int);
    proof {
        lemma_cut(cur.rest@, first.len as int);
    }
    let ahead: (&str, &str) = split_text(cur.rest, first.len);
    let array: bool = byte_at(ahead.1.as_bytes(), 0, 0x5b);
    let kind: SyntaxKind = if array {
        SyntaxKind::TableArrayHeader
    } else {
        SyntaxKind::TableHeader
    };
    let node: Open = begin(kind, &cur, Ghost(errors@), Ghost(total));
    let head: (Open, Cursor<'a>) = eat_into(
        node,
        cur,
        first,
        SyntaxKind::BracketStart,
        Ghost(errors@),
        Ghost(frame),
        Ghost(acc),
    );
    let mut node: Open = head.0;
    let mut at: Cursor<'a> = head.1;
    proof {
        acc = eat(acc, first, SyntaxKind::BracketStart);
    }
    let found: Option<Lexed> = peek(&at, true);
    let second: Option<Lexed> = match found {
        Some(t) => if array && t.kind == SyntaxKind::BracketStart {
            Some(t)
        } else {
            None
        },
        None => None,
    };
    match second {
        Some(t) => {
            let r: (Open, Cursor<'a>) = eat_into(
                node,
                at,
                t,
                t.kind,
                Ghost(errors@),
                Ghost(frame),
                Ghost(acc),
            );
            node = r.0;
            at = r.1;
            proof {
                acc = eat(acc, t, t.kind);
            }
        },
        None => {},
    }
    let filled: (Open, Cursor<'a>) = fill(node, at, false, Ghost(errors@), Ghost(frame), Ghost(acc));
    node = filled.0;
    at = filled.1;
    proof {
        acc = read_fill(acc, false);
    }
    let found: Option<Lexed> = peek(&at, true);
    let key: Option<Lexed> = match found {
        Some(t) => if starts_key(t.kind) {
            Some(t)
        } else {
            None
        },
        None => None,
    };
    match key {
        Some(t) => {
            let ghost before: Seq<SyntaxError> = errors@;
            let r: (Element, Cursor<'a>) = parse_key(at, t, errors, Ghost(total));
            let ghost read: Read = read_key(acc.rest, acc.pos, t);
            node = sub_into(
                node,
                r.0,
                Ghost(at),
                Ghost(r.1),
                Ghost(before),
                Ghost(errors@),
                Ghost(frame),
                Ghost(acc),
                Ghost(read),
            );
            at = r.1;
            proof {
                acc = then(acc, read);
            }
        },
        None => {
            fail_at(
                errors,
                at.pos,
                at.pos,
                "expected a key",
                Ghost(node),
                Ghost(at),
                Ghost(frame),
                Ghost(acc),
            );
            proof {
                acc = fail(acc, at.pos as int, at.pos as int, "expected a key"@);
            }
        },
    }
    let filled: (Open, Cursor<'a>) = fill(node, at, false, Ghost(errors@), Ghost(frame), Ghost(acc));
    node = filled.0;
    at = filled.1;
    proof {
        acc = read_fill(acc, false);
    }
    let mut wanted: usize = if array {
        2
    } else {
        1
    };
    let ghost goal: Read = read_closers(acc, wanted as int);
    while wanted > 0
        invariant_except_break
            read_closers(acc, wanted as int) == goal,
        invariant
            follows(node, at, errors@, frame, acc),
            node.kind == kind,
            kind == SyntaxKind::TableHeader || kind == SyntaxKind::TableArrayHeader,
            node.start == cur.pos,
            at.left() < cur.left(),
            frame.total == total,
        ensures
            acc == goal,
        decreases wanted,
    {
        let found: Option<Lexed> = peek(&at, true);
        let close: Option<Lexed> = match found {
            Some(t) => if t.kind == SyntaxKind::BracketEnd {
                Some(t)
            } else {
                None
            },
            None => None,
        };
        match close {
            Some(t) => {
                let r: (Open, Cursor<'a>) = eat_into(
                    node,
                    at,
                    t,
                    t.kind,
                    Ghost(errors@),
                    Ghost(frame),
                    Ghost(acc),
                );
                node = r.0;
                at = r.1;
                proof {
                    acc = eat(acc, t, t.kind);
                }
                wanted -= 1;
            },
            None => {
                fail_at(
                    errors,
                    at.pos,
                    at.pos,
                    "expected `]`",
                    Ghost(node),
                    Ghost(at),
                    Ghost(frame),
                    Ghost(acc),
                );
                proof {
                    acc = fail(acc, at.pos as int, at.pos as int, "expected `]`"@);
                }
                break ;
            },
        }
    }
    (node.close(), at)
}

/// A syntax tree with the errors found while it was made.
#[derive(Debug)]
pub struct Parse {
    /// The root of the tree, which spans the whole text.
    pub root: Element,
    /// The syntax errors, in the order in which they were found.
    pub errors: Vec<SyntaxError>,
}

impl Parse {
    /// Builds the document model of the tree.
    pub fn into_dom(self) -> (dom: crate::dom::Dom)
        ensures
            dom@ == crate::builder::build_model(self.root),
            dom@.wf(),
            dom@.within(self.root.spec_end() as int),
    {
        crate::builder::build(&self.root)
    }
}

/// Only the empty text has no bytes.
pub proof fn lemma_no_bytes(text: Seq<char>)
    requires
        bytes_of(text).len() == 0,
    ensures
        text == Seq::<char>::empty(),
{
    vstd::utf8::encode_utf8_decode_utf8(text);
    assert(bytes_of(text) =~= Seq::<u8>::empty());
    assert(text =~= Seq::<char>::empty());
}

/// The walk through the syntax tree of a document with the given bytes.
pub open spec fn syntax_walk(bytes: Seq<u8>) -> Seq<WalkModel> {
    read_document(bytes).walk
}

/// The syntax errors of a document with the given bytes, in the order in
/// which reading finds them.
pub open spec fn syntax_errors(bytes: Seq<u8>) -> Seq<SyntaxErrorModel> {
    read_document(bytes).errors
}

/// Parses a document. The tree and the errors that come back are those
/// that the grammar gives for the bytes of `source`: the walk through the
/// tree is `syntax_walk`, and the errors are `syntax_errors`. Whatever the
/// text is, the tree holds every byte of it, in order: its root spans the
/// text from its first byte to its last, and the text of the root is
/// `source`. The tree follows the grammar in what each node holds, and each
/// error lies within the text.
pub fn parse(source: &str) -> (p: Parse)
    ensures
        walk_of(p.root) == syntax_walk(bytes_of(source@)),
        syntax_error_models(p.errors@) == syntax_errors(bytes_of(source@)),
        p.root.wf(),
        p.root.spec_kind() == SyntaxKind::Root,
        p.root.spec_start() == 0,
        p.root.spec_end() == bytes_of(source@).len(),
        p.root.text() == source@,
        shaped(p.root),
        placed(p.errors@, p.root.spec_end() as int),
{
    let total: usize = source.as_bytes().len();
    let start: Cursor = Cursor { rest: source, pos: 0 };
    let mut errors: Vec<SyntaxError> = Vec::new();
    let ghost frame: Frame = Frame { origin: source@, total: total as int, base: errors@ };
    let ghost mut acc: Read = nothing(bytes_of(source@), 0);
    let ghost goal: Read = read_constructs(acc, true);
    let mut node: Open = begin(SyntaxKind::Root, &start, Ghost(errors@), Ghost(total as int));
    let mut at: Cursor = start;
    let mut fresh: bool = true;
    loop
        invariant_except_break
            read_constructs(acc, fresh) == goal,
        invariant
            follows(node, at, errors@, frame, acc),
            node.kind == SyntaxKind::Root,
            node.start == 0,
            frame.total == total,
            frame.base.len() == 0,
        ensures
            acc == goal,
            at.left() == 0,
        decreases at.left(),
    {
        let found: Option<Lexed> = peek(&at, true);
        match found {
            None => {
                break ;
            },
            Some(t) => {
                if t.kind == SyntaxKind::Newline {
                    fresh = true;
                }
                if t.kind.is_trivia() {
                    let r: (Open, Cursor) = eat_into(
                        node,
                        at,
                        t,
                        t.kind,
                        Ghost(errors@),
                        Ghost(frame),
                        Ghost(acc),
                    );
                    node = r.0;
                    at = r.1;
                    proof {
                        acc = eat(acc, t, t.kind);
                    }
                } else if t.kind == SyntaxKind::BracketStart || starts_key(t.kind) {
                    let ghost entry: Read = acc;
                    if !fresh {
                        fail_at(
                            &mut errors,
                            at.pos,
                            at.pos,
                            "expected a line break",
                            Ghost(node),
                            Ghost(at),
                            Ghost(frame),
                            Ghost(acc),
                        );
                        proof {
                            acc = fail(acc, at.pos as int, at.pos as int, "expected a line break"@);
                        }
                    }
                    fresh = false;
                    let ghost before: Seq<SyntaxError> = errors@;
                    let header: bool = t.kind == SyntaxKind::BracketStart;
                    let r: (Element, Cursor) = if header {
                        parse_header(at, t, &mut errors, Ghost(total as int))
                    } else {
                        parse_entry(at, t, &mut errors, Ghost(total as int))
                    };
                    let ghost read: Read = if header {
                        read_header(entry.rest, entry.pos, t)
                    } else {
                        read_entry(entry.rest, entry.pos, t)
                    };
                    node = sub_into(
                        node,
                        r.0,
                        Ghost(at),
                        Ghost(r.1),
                        Ghost(before),
                        Ghost(errors@),
                        Ghost(frame),
                        Ghost(acc),
                        Ghost(read),
                    );
                    at = r.1;
                    proof {
                        acc = then(acc, read);
                    }
                } else {
                    fail_at(
                        &mut errors,
                        at.pos,
                        at.pos + t.len,
                        "unexpected token",
                        Ghost(node),
                        Ghost(at),
                        Ghost(frame),
                        Ghost(acc),
                    );
                    proof {
                        acc = fail(acc, at.pos as int, at.pos + t.len, "unexpected token"@);
                    }
                    let r: (Open, Cursor) = eat_into(
                        node,
                        at,
                        t,
                        SyntaxKind::Error,
                        Ghost(errors@),
                        Ghost(frame),
                        Ghost(acc),
                    );
                    node = r.0;
                    at = r.1;
                    proof {
                        acc = eat(acc, t, SyntaxKind::Error);
                    }
                }
            },
        }
    }
    proof {
        lemma_no_bytes(at.rest@);
        assert(node.text() + at.rest@ =~= node.text());
        assert(syntax_error_models(frame.base) + acc.errors =~= acc.errors);
    }
    Parse { root: node.close(), errors }
}

} // verus!
