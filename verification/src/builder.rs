//! Building the document model from the syntax tree.
//!
//! The document is read from top to bottom, one construct after the other.
//! Each construct changes the model and, where it breaks a rule, adds an
//! error; none of them stops the traversal.

use vstd::prelude::*;
use vstd::string::*;
use vstd::utf8::*;
use crate::dom::{
    lemma_add_error_within, lemma_add_node_within, lemma_promote_within, Dom, DomModel, DomNode,
    NodeKind, NodeModel, Origin, ScalarKind,
};
use crate::error::{Error, ErrorModel};
use crate::key::{
    lemma_bounded, lemma_under_bounded, segment_models, Key, KeyModel, Segment, SegmentModel,
};
use crate::kind::SyntaxKind;
use crate::syntax::Element;
use crate::text::{bytes_of, lemma_cut, split_text, TextRange};
use crate::typed::{first_match, lemma_first_match_height, Shape, TypedView};

verus! {

/// A double or a single quote.
pub open spec fn is_quote(b: u8) -> bool {
    b == 0x22 || b == 0x27
}

/// The bytes of a segment's name: those between the quotes where the
/// segment is quoted, all of them where it is not.
pub open spec fn name_bytes(b: Seq<u8>) -> Seq<u8> {
    if b.len() >= 2 && is_quote(b[0]) && b[b.len() - 1] == b[0] {
        b.subrange(1, b.len() - 1)
    } else {
        b
    }
}

/// The name of the segment that is written as `text`.
pub open spec fn segment_name(text: Seq<char>) -> Seq<char> {
    decode_utf8(name_bytes(bytes_of(text)))
}

/// The segment that an identifier token spells.
pub open spec fn segment_of(ident: Element) -> SegmentModel {
    SegmentModel { name: segment_name(ident.spec_token_text()), range: ident.spec_text_range() }
}

/// The segments spelled by the identifier tokens among the first `n`
/// elements of `s`.
pub open spec fn segments_of(s: Seq<Element>, n: int) -> Seq<SegmentModel>
    decreases n,
{
    if n <= 0 || n > s.len() {
        Seq::<SegmentModel>::empty()
    } else if s[n - 1].spec_kind() == SyntaxKind::Ident {
        segments_of(s, n - 1).push(segment_of(s[n - 1]))
    } else {
        segments_of(s, n - 1)
    }
}

/// The segments of the key that an entry or a header is written with; none
/// where it has no key.
pub open spec fn key_segments(holder: Element) -> Seq<SegmentModel> {
    match first_match(holder.spec_children(), Shape::Key, 0) {
        Some(k) => segments_of(k.spec_children(), k.spec_children().len() as int),
        None => Seq::<SegmentModel>::empty(),
    }
}

/// The type of the scalar that a token of the given kind stands for.
pub open spec fn spec_scalar_kind(kind: SyntaxKind) -> Option<ScalarKind> {
    match kind {
        SyntaxKind::String => Some(ScalarKind::String),
        SyntaxKind::MultiLineString => Some(ScalarKind::String),
        SyntaxKind::StringLiteral => Some(ScalarKind::String),
        SyntaxKind::MultiLineStringLiteral => Some(ScalarKind::String),
        SyntaxKind::Integer => Some(ScalarKind::Integer),
        SyntaxKind::IntegerHex => Some(ScalarKind::Integer),
        SyntaxKind::IntegerOct => Some(ScalarKind::Integer),
        SyntaxKind::IntegerBin => Some(ScalarKind::Integer),
        SyntaxKind::Float => Some(ScalarKind::Float),
        SyntaxKind::Bool => Some(ScalarKind::Bool),
        SyntaxKind::Date => Some(ScalarKind::Date),
        _ => None,
    }
}

/// Whether an element of the given kind can be what a value consists of.
pub open spec fn is_content(kind: SyntaxKind) -> bool {
    spec_scalar_kind(kind) is Some || kind == SyntaxKind::Array || kind == SyntaxKind::InlineTable
}

/// The index, from `from` on, of the first element of `s` that a value can
/// consist of; the length of `s` where there is none.
pub open spec fn content_index(s: Seq<Element>, from: int) -> int
    decreases s.len() - from,
{
    if from < 0 || from >= s.len() {
        s.len() as int
    } else if is_content(s[from].spec_kind()) {
        from
    } else {
        content_index(s, from + 1)
    }
}

/// The key under which node `id` was declared.
pub open spec fn declared(d: DomModel, id: int) -> KeyModel {
    d.nodes[id].key.unwrap()
}

/// A table made on the way along `key`, for its first `n` segments.
pub open spec fn implicit_table(key: KeyModel, n: int, parent: int) -> NodeModel {
    NodeModel {
        kind: NodeKind::Table(Origin::Implicit),
        key: Some(key.prefix(n)),
        range: key.prefix(n).text_range(),
        parent: Some(parent),
    }
}

/// A table that a header declares.
pub open spec fn header_table(key: Option<KeyModel>, range: TextRange, parent: Option<int>) -> NodeModel {
    NodeModel { kind: NodeKind::Table(Origin::Header), key, range, parent }
}

/// Walks from table `cur` along the segments of `key`, from the one at `at`
/// up to the one before the last, and makes the tables that are missing on
/// the way. Gives the table that is to hold the last segment, or none where
/// the walk met something that it cannot enter, which is then an error:
/// an inline table is closed; a path of a header that meets an array or a
/// scalar expects a table; a dotted key that meets a scalar is turned away
/// as from an inline table, and one that meets an array or an array of
/// tables expects a table. A header path enters the last table of an array
/// of tables.
pub open spec fn descend(d: DomModel, cur: int, key: KeyModel, at: int, header: bool) -> (
    DomModel,
    Option<int>,
)
    decreases key.segments.len() - at,
{
    if at < 0 || at >= key.segments.len() - 1 {
        (d, Some(cur))
    } else {
        match d.find_entry(cur, key.segments[at].name) {
            None => descend(
                d.add_node(implicit_table(key, at + 1, cur)),
                d.nodes.len() as int,
                key,
                at + 1,
                header,
            ),
            Some(c) => {
                let kind: NodeKind = d.nodes[c].kind;
                let target: KeyModel = declared(d, c);
                if kind.spec_is_open_table() {
                    descend(d, c, key, at + 1, header)
                } else if kind == NodeKind::Table(Origin::Inline) {
                    (d.add_error(ErrorModel::InlineTable { target, key }), None)
                } else if header && kind == NodeKind::TableArray && d.last_child(c) is Some {
                    descend(d, d.last_child(c).unwrap(), key, at + 1, header)
                } else if !header && kind is Scalar {
                    (d.add_error(ErrorModel::InlineTable { target, key }), None)
                } else {
                    (d.add_error(ErrorModel::ExpectedTable { target, key }), None)
                }
            },
        }
    }
}

/// Enters `value` under `key` in `table`, or reports the key as a duplicate
/// where the table holds the name already.
pub open spec fn insert_value(d: DomModel, table: int, key: KeyModel, value: Element) -> DomModel
    decreases value.height(), 3int, 0int,
{
    match d.find_entry(table, key.name()) {
        Some(c) => d.add_error(ErrorModel::DuplicateKey { first: declared(d, c), second: key }),
        None => build_value(d, Some(table), Some(key), value),
    }
}

/// Adds the node of a value, with all that the value holds. A value without
/// content adds nothing.
pub open spec fn build_value(
    d: DomModel,
    parent: Option<int>,
    key: Option<KeyModel>,
    value: Element,
) -> DomModel
    decreases value.height(), 2int, 0int,
{
    let s: Seq<Element> = value.spec_children();
    let i: int = content_index(s, 0);
    if 0 <= i < s.len() {
        let c: Element = s[i];
        let range: TextRange = c.spec_text_range();
        let id: int = d.nodes.len() as int;
        match spec_scalar_kind(c.spec_kind()) {
            Some(k) => d.add_node(NodeModel { kind: NodeKind::Scalar(k), key, range, parent }),
            None => {
                proof {
                    value.lemma_child_height(i);
                }
                if c.spec_kind() == SyntaxKind::Array {
                    build_items(
                        d.add_node(NodeModel { kind: NodeKind::Array, key, range, parent }),
                        id,
                        c,
                        c.spec_children().len() as int,
                    )
                } else {
                    build_members(
                        d.add_node(
                            NodeModel { kind: NodeKind::Table(Origin::Inline), key, range, parent },
                        ),
                        id,
                        c,
                        c.spec_children().len() as int,
                    )
                }
            },
        }
    } else {
        d
    }
}

/// Adds the values among the first `n` elements of an array, as its items.
pub open spec fn build_items(d: DomModel, array: int, holder: Element, n: int) -> DomModel
    decreases holder.height(), 1int, n,
{
    if n <= 0 || n > holder.spec_children().len() {
        d
    } else {
        let prev: DomModel = build_items(d, array, holder, n - 1);
        let e: Element = holder.spec_children()[n - 1];
        if e.spec_kind() == SyntaxKind::Value {
            proof {
                holder.lemma_child_height(n - 1);
            }
            build_value(prev, Some(array), None, e)
        } else {
            prev
        }
    }
}

/// Applies the entries among the first `n` elements of an inline table.
pub open spec fn build_members(d: DomModel, table: int, holder: Element, n: int) -> DomModel
    decreases holder.height(), 1int, n,
{
    if n <= 0 || n > holder.spec_children().len() {
        d
    } else {
        let prev: DomModel = build_members(d, table, holder, n - 1);
        let e: Element = holder.spec_children()[n - 1];
        if e.spec_kind() == SyntaxKind::Entry {
            proof {
                holder.lemma_child_height(n - 1);
            }
            apply_entry(prev, table, e)
        } else {
            prev
        }
    }
}

/// Applies one key-value pair in the table `scope`. An entry without a key
/// or without a value changes nothing.
pub open spec fn apply_entry(d: DomModel, scope: int, entry: Element) -> DomModel
    decreases entry.height(), 4int, 0int,
{
    let segments: Seq<SegmentModel> = key_segments(entry);
    match first_match(entry.spec_children(), Shape::Value, 0) {
        Some(value) => {
            if segments.len() == 0 {
                d
            } else {
                proof {
                    lemma_first_match_height(entry, Shape::Value);
                }
                let key: KeyModel = KeyModel::under(d.nodes[scope].key, segments);
                let walk: (DomModel, Option<int>) = descend(
                    d,
                    scope,
                    key,
                    key.inherited as int,
                    false,
                );
                match walk.1 {
                    Some(table) => insert_value(walk.0, table, key, value),
                    None => walk.0,
                }
            }
        },
        None => d,
    }
}

/// A table that stands apart from the document: the scope after a header
/// that could not be entered.
pub open spec fn detach(d: DomModel, key: Option<KeyModel>, range: TextRange) -> (DomModel, int) {
    (d.add_node(header_table(key, range, None)), d.nodes.len() as int)
}

/// Opens the table that a header names by the last segment of `key`, in
/// `table`. A table made on the way of an earlier path becomes the header's
/// own. A table that a header declared before is a duplicate, and is opened
/// again. An inline table is closed, and anything else is no table: both
/// leave a table apart as the scope.
pub open spec fn open_table(d: DomModel, table: int, key: KeyModel, range: TextRange) -> (
    DomModel,
    int,
) {
    match d.find_entry(table, key.name()) {
        None => (d.add_node(header_table(Some(key), range, Some(table))), d.nodes.len() as int),
        Some(c) => {
            let kind: NodeKind = d.nodes[c].kind;
            let target: KeyModel = declared(d, c);
            if kind == NodeKind::Table(Origin::Implicit) {
                (d.promote(c, key, range), c)
            } else if kind == NodeKind::Table(Origin::Header) {
                (d.add_error(ErrorModel::DuplicateKey { first: target, second: key }), c)
            } else if kind == NodeKind::Table(Origin::Inline) {
                detach(d.add_error(ErrorModel::InlineTable { target, key }), Some(key), range)
            } else {
                detach(d.add_error(ErrorModel::ExpectedTable { target, key }), Some(key), range)
            }
        },
    }
}

/// Appends a table to the array of tables that a header names by the last
/// segment of `key`, in `table`, and makes the array on first use. A table
/// or an array under that name conflicts with the array of tables, and a
/// scalar is no table: both leave a table apart as the scope.
pub open spec fn open_array_entry(d: DomModel, table: int, key: KeyModel, range: TextRange) -> (
    DomModel,
    int,
) {
    let id: int = d.nodes.len() as int;
    match d.find_entry(table, key.name()) {
        None => (
            d.add_node(
                NodeModel { kind: NodeKind::TableArray, key: Some(key), range, parent: Some(table) },
            ).add_node(header_table(Some(key), range, Some(id))),
            id + 1,
        ),
        Some(c) => {
            let kind: NodeKind = d.nodes[c].kind;
            let target: KeyModel = declared(d, c);
            if kind == NodeKind::TableArray {
                (d.add_node(header_table(Some(key), range, Some(c))), id)
            } else if kind is Scalar {
                detach(d.add_error(ErrorModel::ExpectedTable { target, key }), Some(key), range)
            } else {
                detach(
                    d.add_error(ErrorModel::ExpectedTableArray { target, key }),
                    Some(key),
                    range,
                )
            }
        },
    }
}

/// Applies a table header, or the header of an array of tables: walks its
/// path from the root and opens what its last segment names. Gives the model
/// and the table that is the scope of the entries that follow.
pub open spec fn apply_header(d: DomModel, header: Element, array: bool) -> (DomModel, int) {
    let segments: Seq<SegmentModel> = key_segments(header);
    let range: TextRange = header.spec_text_range();
    if segments.len() == 0 {
        detach(d, None, range)
    } else {
        let key: KeyModel = KeyModel::under(None, segments);
        let walk: (DomModel, Option<int>) = descend(d, 0, key, 0, true);
        match walk.1 {
            Some(table) => if array {
                open_array_entry(walk.0, table, key, range)
            } else {
                open_table(walk.0, table, key, range)
            },
            None => detach(walk.0, Some(key), range),
        }
    }
}

/// Applies the first `n` elements of the root, in order, to a model and a
/// scope.
pub open spec fn build_constructs(state: (DomModel, int), root: Element, n: int) -> (DomModel, int)
    decreases n,
{
    if n <= 0 || n > root.spec_children().len() {
        state
    } else {
        let prev: (DomModel, int) = build_constructs(state, root, n - 1);
        let e: Element = root.spec_children()[n - 1];
        if e.spec_kind() == SyntaxKind::Entry {
            (apply_entry(prev.0, prev.1, e), prev.1)
        } else if e.spec_kind() == SyntaxKind::TableHeader {
            apply_header(prev.0, e, false)
        } else if e.spec_kind() == SyntaxKind::TableArrayHeader {
            apply_header(prev.0, e, true)
        } else {
            prev
        }
    }
}

/// The model that holds the root table only.
pub open spec fn empty_model(range: TextRange) -> DomModel {
    DomModel { nodes: seq![header_table(None, range, None)], errors: Seq::<ErrorModel>::empty() }
}

/// The document model of a syntax tree.
pub open spec fn build_model(root: Element) -> DomModel {
    build_constructs(
        (empty_model(root.spec_text_range()), 0),
        root,
        root.spec_children().len() as int,
    ).0
}

/// The type of the scalar that a token of the given kind stands for.
#[verifier::when_used_as_spec(spec_scalar_kind)]
pub fn scalar_kind(kind: SyntaxKind) -> (r: Option<ScalarKind>)
    ensures
        r == spec_scalar_kind(kind),
{
    match kind {
        SyntaxKind::String => Some(ScalarKind::String),
        SyntaxKind::MultiLineString => Some(ScalarKind::String),
        SyntaxKind::StringLiteral => Some(ScalarKind::String),
        SyntaxKind::MultiLineStringLiteral => Some(ScalarKind::String),
        SyntaxKind::Integer => Some(ScalarKind::Integer),
        SyntaxKind::IntegerHex => Some(ScalarKind::Integer),
        SyntaxKind::IntegerOct => Some(ScalarKind::Integer),
        SyntaxKind::IntegerBin => Some(ScalarKind::Integer),
        SyntaxKind::Float => Some(ScalarKind::Float),
        SyntaxKind::Bool => Some(ScalarKind::Bool),
        SyntaxKind::Date => Some(ScalarKind::Date),
        _ => None,
    }
}

/// The name of the segment that is written as `text`.
pub fn segment_name_of(text: &str) -> (name: String)
    ensures
        name@ == segment_name(text@),
{
    let bytes: &[u8] = text.as_bytes();
    let n: usize = bytes.len();
    proof {
        encode_utf8_decode_utf8(text@);
    }
    if n >= 2 && (bytes[0] == 0x22 || bytes[0] == 0x27) && bytes[n - 1] == bytes[0] {
        proof {
            lemma_cut(text@, 1);
        }
        let cut: (&str, &str) = split_text(text, 1);
        let rest: &str = cut.1;
        assert(bytes_of(rest@)[n - 2] == bytes@[n - 1]);
        proof {
            lemma_cut(rest@, n - 2);
        }
        let inner: (&str, &str) = split_text(rest, n - 2);
        proof {
            encode_utf8_decode_utf8(inner.0@);
            assert(bytes_of(inner.0@) =~= bytes@.subrange(1, n - 1));
        }
        String::from_str(inner.0)
    } else {
        String::from_str(text)
    }
}

/// The segments of the key that an entry or a header is written with; none
/// where it has no key.
fn key_segments_of(holder: &Element, Ghost(limit): Ghost<int>) -> (r: Vec<Segment>)
    requires
        holder.spec_end() <= limit,
    ensures
        segment_models(r@) == key_segments(*holder),
        forall|i: int| 0 <= i < r@.len() ==> (#[trigger] segment_models(r@)[i]).range.fits(limit),
{
    let mut out: Vec<Segment> = Vec::new();
    let holder_children: &Vec<Element> = holder.children();
    let mut h: usize = 0;
    while h < holder_children.len() && !Shape::Key.accepts(holder_children[h].kind())
        invariant
            h <= holder_children.len(),
            holder_children@ == holder.spec_children(),
            first_match(holder_children@, Shape::Key, 0) == first_match(
                holder_children@,
                Shape::Key,
                h as int,
            ),
        decreases holder_children.len() - h,
    {
        h += 1;
    }
    if h >= holder_children.len() {
        assert(segment_models(out@) =~= Seq::<SegmentModel>::empty());
        return out;
    }
    let key: &Element = &holder_children[h];
    proof {
        holder.lemma_child_span(h as int);
    }
    let children: &Vec<Element> = key.children();
    let mut i: usize = 0;
    assert(segment_models(out@) =~= segments_of(children@, 0));
    while i < children.len()
        invariant
            i <= children.len(),
            children@ == key.spec_children(),
            key.wf(),
            key.spec_end() <= limit,
            segment_models(out@) == segments_of(children@, i as int),
            forall|j: int|
                0 <= j < out@.len() ==> (#[trigger] segment_models(out@)[j]).range.fits(limit),
        decreases children.len() - i,
    {
        let e: &Element = &children[i];
        if Shape::Ident.accepts(e.kind()) {
            proof {
                key.lemma_child_span(i as int);
            }
            let segment: Segment = Segment {
                name: segment_name_of(e.token_text()),
                range: e.text_range(),
            };
            let ghost before: Seq<Segment> = out@;
            out.push(segment);
            proof {
                assert(segment@ == segment_of(*e));
                assert(segment_models(out@) =~= segment_models(before).push(segment@));
            }
        }
        i += 1;
    }
    out
}

/// The index of the first element that a value can consist of; the number
/// of elements where there is none.
fn content_index_of(children: &Vec<Element>) -> (i: usize)
    ensures
        i == content_index(children@, 0),
        i <= children@.len(),
        i < children@.len() ==> is_content(children@[i as int].spec_kind()),
{
    let mut i: usize = 0;
    while i < children.len()
        invariant
            i <= children.len(),
            content_index(children@, 0) == content_index(children@, i as int),
        decreases children.len() - i,
    {
        let kind: SyntaxKind = children[i].kind();
        let found: bool = match kind {
            SyntaxKind::Array | SyntaxKind::InlineTable => true,
            _ => scalar_kind(kind).is_some(),
        };
        if found {
            return i;
        }
        i += 1;
    }
    i
}

/// An optional id as the model holds it.
pub open spec fn as_int(id: Option<usize>) -> Option<int> {
    match id {
        Some(i) => Some(i as int),
        None => None,
    }
}

/// The model of an optional key.
pub open spec fn key_model(key: Option<Key>) -> Option<KeyModel> {
    match key {
        Some(k) => Some(k@),
        None => None,
    }
}

fn fail(dom: Dom, error: Error, Ghost(limit): Ghost<int>) -> (r: Dom)
    requires
        dom@.within(limit),
        error@.wf(),
        error@.within(limit),
    ensures
        r@ == dom@.add_error(error@),
        r@.within(limit),
        r@.wf(),
{
    proof {
        lemma_add_error_within(dom@, error@, limit);
    }
    dom.add_error(error)
}

fn grow(dom: Dom, node: DomNode, Ghost(limit): Ghost<int>) -> (r: (Dom, usize))
    requires
        dom@.within(limit),
        node.parent matches Some(p) ==> p < dom@.nodes.len(),
        node@.key matches Some(k) ==> k.wf() && k.bounded(limit),
    ensures
        r.0@ == dom@.add_node(node@),
        r.1 == dom@.nodes.len(),
        r.0@.within(limit),
        r.0@.wf(),
{
    proof {
        lemma_add_node_within(dom@, node@, limit);
    }
    dom.add_node(node)
}

/// Walks from table `cur` along the segments of `key` up to the one before
/// the last; see the function of the same name on models.
fn walk(dom: Dom, cur: usize, key: &Key, header: bool, Ghost(limit): Ghost<int>) -> (r: (
    Dom,
    Option<usize>,
))
    requires
        cur < dom@.nodes.len(),
        dom@.wf(),
        dom@.within(limit),
        key@.bounded(limit),
    ensures
        (r.0@, as_int(r.1)) == descend(dom@, cur as int, key@, key@.inherited as int, header),
        r.1 matches Some(t) ==> t < r.0@.nodes.len(),
        r.0@.nodes.len() >= dom@.nodes.len(),
        r.0@.wf(),
        r.0@.within(limit),
{
    let mut d: Dom = dom;
    let mut table: usize = cur;
    let mut at: usize = key.inherited();
    let last: usize = key.len() - 1;
    let ghost goal: (DomModel, Option<int>) = descend(
        dom@,
        cur as int,
        key@,
        key@.inherited as int,
        header,
    );
    let ghost floor: nat = dom@.nodes.len();
    proof {
        lemma_bounded(key@, limit);
    }
    while at < last
        invariant
            key@.inherited <= at <= last,
            last == key@.segments.len() - 1,
            key@.wf(),
            key@.bounded(limit),
            table < d@.nodes.len(),
            floor == dom@.nodes.len(),
            floor <= d@.nodes.len(),
            goal == descend(dom@, cur as int, key@, key@.inherited as int, header),
            d@.wf(),
            d@.within(limit),
            descend(d@, table as int, key@, at as int, header) == goal,
        decreases last - at,
    {
        proof {
            lemma_bounded(key@, limit);
        }
        let found: Option<usize> = d.find_entry(table, &key.segment(at).name);
        match found {
            None => {
                let k: Key = key.prefix(at + 1);
                let range: TextRange = k.text_range();
                let node: DomNode = DomNode {
                    kind: NodeKind::Table(Origin::Implicit),
                    key: Some(k),
                    range,
                    parent: Some(table),
                };
                assert(node@ == implicit_table(key@, at + 1, table as int));
                let r: (Dom, usize) = grow(d, node, Ghost(limit));
                d = r.0;
                table = r.1;
                at += 1;
            },
            Some(c) => {
                let kind: NodeKind = d.node(c).kind;
                if kind.is_open_table() {
                    table = c;
                    at += 1;
                } else {
                    let enter: Option<usize> = if header && kind == NodeKind::TableArray {
                        d.last_child(c)
                    } else {
                        None
                    };
                    match enter {
                        Some(t) => {
                            table = t;
                            at += 1;
                        },
                        None => {
                            let target: Key = d.declared(c);
                            proof {
                                lemma_bounded(target@, limit);
                            }
                            let closed: bool = match kind {
                                NodeKind::Table(Origin::Inline) => true,
                                NodeKind::Scalar(_) => !header,
                                _ => false,
                            };
                            let error: Error = if closed {
                                Error::InlineTable { target, key: key.clone() }
                            } else {
                                Error::ExpectedTable { target, key: key.clone() }
                            };
                            let ghost before: DomModel = d@;
                            let r: Dom = fail(d, error, Ghost(limit));
                            proof {
                                assert(before.find_entry(table as int, key@.segments[at as int].name)
                                    == Some(c as int));
                                assert(before.nodes[c as int].kind == kind);
                                assert(target@ == declared(before, c as int));
                                assert(!kind.spec_is_open_table());
                                assert(descend(before, table as int, key@, at as int, header) == (
                                    r@,
                                    None::<int>,
                                ));
                            }
                            return (r, None);
                        },
                    }
                }
            },
        }
    }
    (d, Some(table))
}

/// The index of the first element whose kind `shape` accepts.
fn find_first(children: &Vec<Element>, shape: Shape) -> (r: Option<usize>)
    ensures
        match r {
            Some(i) => i < children@.len() && first_match(children@, shape, 0) == Some(
                children@[i as int],
            ),
            None => first_match(children@, shape, 0) is None,
        },
{
    let mut i: usize = 0;
    while i < children.len()
        invariant
            i <= children.len(),
            first_match(children@, shape, 0) == first_match(children@, shape, i as int),
        decreases children.len() - i,
    {
        if shape.accepts(children[i].kind()) {
            return Some(i);
        }
        i += 1;
    }
    None
}

/// Adds the node of a value, with all that the value holds.
fn add_value(
    dom: Dom,
    parent: Option<usize>,
    key: Option<Key>,
    value: &Element,
    Ghost(limit): Ghost<int>,
) -> (r: Dom)
    requires
        parent matches Some(p) ==> p < dom@.nodes.len(),
        dom@.wf(),
        dom@.within(limit),
        key matches Some(k) ==> k@.wf() && k@.bounded(limit),
        value.spec_end() <= limit,
    ensures
        r@ == build_value(dom@, as_int(parent), key_model(key), *value),
        r@.nodes.len() >= dom@.nodes.len(),
        r@.wf(),
        r@.within(limit),
    decreases value.height(), 2int, 0int,
{
    let children: &Vec<Element> = value.children();
    let i: usize = content_index_of(children);
    if i >= children.len() {
        return dom;
    }
    let c: &Element = &children[i];
    proof {
        value.lemma_child_span(i as int);
        value.lemma_child_height(i as int);
    }
    let range: TextRange = c.text_range();
    match scalar_kind(c.kind()) {
        Some(k) => {
            let node: DomNode = DomNode { kind: NodeKind::Scalar(k), key, range, parent };
            grow(dom, node, Ghost(limit)).0
        },
        None => {
            if c.kind() == SyntaxKind::Array {
                let node: DomNode = DomNode { kind: NodeKind::Array, key, range, parent };
                let r: (Dom, usize) = grow(dom, node, Ghost(limit));
                add_items(r.0, r.1, c, Ghost(limit))
            } else {
                let node: DomNode = DomNode {
                    kind: NodeKind::Table(Origin::Inline),
                    key,
                    range,
                    parent,
                };
                let r: (Dom, usize) = grow(dom, node, Ghost(limit));
                add_members(r.0, r.1, c, Ghost(limit))
            }
        },
    }
}

/// Adds the values of an array, as its items.
fn add_items(dom: Dom, array: usize, holder: &Element, Ghost(limit): Ghost<int>) -> (r: Dom)
    requires
        array < dom@.nodes.len(),
        dom@.wf(),
        dom@.within(limit),
        holder.spec_end() <= limit,
    ensures
        r@ == build_items(dom@, array as int, *holder, holder.spec_children().len() as int),
        r@.nodes.len() >= dom@.nodes.len(),
        r@.wf(),
        r@.within(limit),
    decreases holder.height(), 1int, 0int,
{
    let children: &Vec<Element> = holder.children();
    let mut d: Dom = dom;
    let mut i: usize = 0;
    while i < children.len()
        invariant
            i <= children.len(),
            children@ == holder.spec_children(),
            holder.wf(),
            holder.spec_end() <= limit,
            array < dom@.nodes.len() <= d@.nodes.len(),
            d@.wf(),
            d@.within(limit),
            d@ == build_items(dom@, array as int, *holder, i as int),
        decreases children.len() - i,
    {
        let e: &Element = &children[i];
        if e.kind() == SyntaxKind::Value {
            proof {
                holder.lemma_child_span(i as int);
                holder.lemma_child_height(i as int);
            }
            d = add_value(d, Some(array), None, e, Ghost(limit));
        }
        i += 1;
    }
    d
}

/// Applies the entries of an inline table.
fn add_members(dom: Dom, table: usize, holder: &Element, Ghost(limit): Ghost<int>) -> (r: Dom)
    requires
        table < dom@.nodes.len(),
        dom@.wf(),
        dom@.within(limit),
        holder.spec_end() <= limit,
    ensures
        r@ == build_members(dom@, table as int, *holder, holder.spec_children().len() as int),
        r@.nodes.len() >= dom@.nodes.len(),
        r@.wf(),
        r@.within(limit),
    decreases holder.height(), 1int, 0int,
{
    let children: &Vec<Element> = holder.children();
    let mut d: Dom = dom;
    let mut i: usize = 0;
    while i < children.len()
        invariant
            i <= children.len(),
            children@ == holder.spec_children(),
            holder.wf(),
            holder.spec_end() <= limit,
            table < dom@.nodes.len() <= d@.nodes.len(),
            d@.wf(),
            d@.within(limit),
            d@ == build_members(dom@, table as int, *holder, i as int),
        decreases children.len() - i,
    {
        let e: &Element = &children[i];
        if e.kind() == SyntaxKind::Entry {
            proof {
                holder.lemma_child_span(i as int);
                holder.lemma_child_height(i as int);
            }
            d = enter(d, table, e, Ghost(limit));
        }
        i += 1;
    }
    d
}

/// Enters `value` under `key` in `table`, or reports the key as a duplicate.
fn insert(dom: Dom, table: usize, key: Key, value: &Element, Ghost(limit): Ghost<int>) -> (r: Dom)
    requires
        table < dom@.nodes.len(),
        dom@.wf(),
        dom@.within(limit),
        key@.wf(),
        key@.bounded(limit),
        value.spec_end() <= limit,
    ensures
        r@ == insert_value(dom@, table as int, key@, *value),
        r@.nodes.len() >= dom@.nodes.len(),
        r@.wf(),
        r@.within(limit),
    decreases value.height(), 3int, 0int,
{
    let found: Option<usize> = dom.find_entry(table, key.name());
    match found {
        Some(c) => {
            let first: Key = dom.declared(c);
            proof {
                lemma_bounded(first@, limit);
                lemma_bounded(key@, limit);
            }
            fail(dom, Error::DuplicateKey { first, second: key }, Ghost(limit))
        },
        None => add_value(dom, Some(table), Some(key), value, Ghost(limit)),
    }
}

/// Applies one key-value pair in the table `scope`.
fn enter(dom: Dom, scope: usize, entry: &Element, Ghost(limit): Ghost<int>) -> (r: Dom)
    requires
        scope < dom@.nodes.len(),
        dom@.wf(),
        dom@.within(limit),
        entry.spec_end() <= limit,
    ensures
        r@ == apply_entry(dom@, scope as int, *entry),
        r@.nodes.len() >= dom@.nodes.len(),
        r@.wf(),
        r@.within(limit),
    decreases entry.height(), 4int, 0int,
{
    let segments: Vec<Segment> = key_segments_of(entry, Ghost(limit));
    let children: &Vec<Element> = entry.children();
    match find_first(children, Shape::Value) {
        None => dom,
        Some(vi) => {
            if segments.len() == 0 {
                return dom;
            }
            let value: &Element = &children[vi];
            proof {
                entry.lemma_child_span(vi as int);
                entry.lemma_child_height(vi as int);
                lemma_under_bounded(dom@.nodes[scope as int].key, segment_models(segments@), limit);
            }
            let made: Option<Key> = match &dom.node(scope).key {
                Some(k) => Key::under(Some(k), segments),
                None => Key::under(None, segments),
            };
            let key: Key = match made {
                Some(k) => k,
                None => vstd::pervasive::unreached(),
            };
            let r: (Dom, Option<usize>) = walk(dom, scope, &key, false, Ghost(limit));
            match r.1 {
                Some(table) => insert(r.0, table, key, value, Ghost(limit)),
                None => r.0,
            }
        },
    }
}

/// Adds a table that stands apart from the document.
fn set_apart(dom: Dom, key: Option<Key>, range: TextRange, Ghost(limit): Ghost<int>) -> (r: (
    Dom,
    usize,
))
    requires
        dom@.wf(),
        dom@.within(limit),
        key matches Some(k) ==> k@.wf() && k@.bounded(limit),
    ensures
        (r.0@, r.1 as int) == detach(dom@, key_model(key), range),
        r.1 < r.0@.nodes.len(),
        r.0@.wf(),
        r.0@.within(limit),
{
    let node: DomNode = DomNode {
        kind: NodeKind::Table(Origin::Header),
        key,
        range,
        parent: None,
    };
    grow(dom, node, Ghost(limit))
}

/// Opens the table that a header names by the last segment of `key`.
fn open_table_in(dom: Dom, table: usize, key: Key, range: TextRange, Ghost(limit): Ghost<int>) -> (r:
    (Dom, usize))
    requires
        table < dom@.nodes.len(),
        dom@.wf(),
        dom@.within(limit),
        key@.wf(),
        key@.bounded(limit),
    ensures
        (r.0@, r.1 as int) == open_table(dom@, table as int, key@, range),
        r.1 < r.0@.nodes.len(),
        r.0@.wf(),
        r.0@.within(limit),
{
    let found: Option<usize> = dom.find_entry(table, key.name());
    match found {
        None => {
            let node: DomNode = DomNode {
                kind: NodeKind::Table(Origin::Header),
                key: Some(key),
                range,
                parent: Some(table),
            };
            grow(dom, node, Ghost(limit))
        },
        Some(c) => {
            let kind: NodeKind = dom.node(c).kind;
            if kind == NodeKind::Table(Origin::Implicit) {
                proof {
                    lemma_promote_within(dom@, c as int, key@, range, limit);
                }
                (dom.promote(c, key, range), c)
            } else {
                let target: Key = dom.declared(c);
                proof {
                    lemma_bounded(target@, limit);
                    lemma_bounded(key@, limit);
                }
                if kind == NodeKind::Table(Origin::Header) {
                    let error: Error = Error::DuplicateKey { first: target, second: key };
                    (fail(dom, error, Ghost(limit)), c)
                } else if kind == NodeKind::Table(Origin::Inline) {
                    let error: Error = Error::InlineTable { target, key: key.clone() };
                    set_apart(fail(dom, error, Ghost(limit)), Some(key), range, Ghost(limit))
                } else {
                    let error: Error = Error::ExpectedTable { target, key: key.clone() };
                    set_apart(fail(dom, error, Ghost(limit)), Some(key), range, Ghost(limit))
                }
            }
        },
    }
}

/// Appends a table to the array of tables that a header names by the last
/// segment of `key`.
fn open_array_entry_in(
    dom: Dom,
    table: usize,
    key: Key,
    range: TextRange,
    Ghost(limit): Ghost<int>,
) -> (r: (Dom, usize))
    requires
        table < dom@.nodes.len(),
        dom@.wf(),
        dom@.within(limit),
        key@.wf(),
        key@.bounded(limit),
    ensures
        (r.0@, r.1 as int) == open_array_entry(dom@, table as int, key@, range),
        r.1 < r.0@.nodes.len(),
        r.0@.wf(),
        r.0@.within(limit),
{
    let found: Option<usize> = dom.find_entry(table, key.name());
    match found {
        None => {
            let array: DomNode = DomNode {
                kind: NodeKind::TableArray,
                key: Some(key.clone()),
                range,
                parent: Some(table),
            };
            let r: (Dom, usize) = grow(dom, array, Ghost(limit));
            let entry: DomNode = DomNode {
                kind: NodeKind::Table(Origin::Header),
                key: Some(key),
                range,
                parent: Some(r.1),
            };
            grow(r.0, entry, Ghost(limit))
        },
        Some(c) => {
            let kind: NodeKind = dom.node(c).kind;
            if kind == NodeKind::TableArray {
                let entry: DomNode = DomNode {
                    kind: NodeKind::Table(Origin::Header),
                    key: Some(key),
                    range,
                    parent: Some(c),
                };
                grow(dom, entry, Ghost(limit))
            } else {
                let target: Key = dom.declared(c);
                proof {
                    lemma_bounded(target@, limit);
                    lemma_bounded(key@, limit);
                }
                let scalar: bool = match kind {
                    NodeKind::Scalar(_) => true,
                    _ => false,
                };
                let error: Error = if scalar {
                    Error::ExpectedTable { target, key: key.clone() }
                } else {
                    Error::ExpectedTableArray { target, key: key.clone() }
                };
                set_apart(fail(dom, error, Ghost(limit)), Some(key), range, Ghost(limit))
            }
        },
    }
}

/// Applies a table header, or the header of an array of tables.
fn enter_header(dom: Dom, header: &Element, array: bool, Ghost(limit): Ghost<int>) -> (r: (
    Dom,
    usize,
))
    requires
        dom@.wf(),
        dom@.within(limit),
        header.spec_end() <= limit,
    ensures
        (r.0@, r.1 as int) == apply_header(dom@, *header, array),
        r.1 < r.0@.nodes.len(),
        r.0@.wf(),
        r.0@.within(limit),
{
    let segments: Vec<Segment> = key_segments_of(header, Ghost(limit));
    let range: TextRange = header.text_range();
    if segments.len() == 0 {
        return set_apart(dom, None, range, Ghost(limit));
    }
    proof {
        lemma_under_bounded(None, segment_models(segments@), limit);
    }
    let key: Key = match Key::under(None, segments) {
        Some(k) => k,
        None => vstd::pervasive::unreached(),
    };
    let r: (Dom, Option<usize>) = walk(dom, 0, &key, true, Ghost(limit));
    match r.1 {
        Some(table) => if array {
            open_array_entry_in(r.0, table, key, range, Ghost(limit))
        } else {
            open_table_in(r.0, table, key, range, Ghost(limit))
        },
        None => set_apart(r.0, Some(key), range, Ghost(limit)),
    }
}

/// Builds the document model of a syntax tree: reads the constructs below
/// `root` in source order, and collects every violation of the rules for
/// keys and tables on the way.
pub fn build(root: &Element) -> (dom: Dom)
    ensures
        dom@ == build_model(*root),
        dom@.wf(),
        dom@.within(root.spec_end() as int),
{
    let range: TextRange = root.text_range();
    let ghost limit: int = range.end as int;
    let children: &Vec<Element> = root.children();
    let mut d: Dom = Dom::new(range);
    let mut scope: usize = 0;
    let mut i: usize = 0;
    while i < children.len()
        invariant
            i <= children.len(),
            children@ == root.spec_children(),
            root.wf(),
            limit == root.spec_end(),
            scope < d@.nodes.len(),
            d@.wf(),
            d@.within(limit),
            (d@, scope as int) == build_constructs(
                (empty_model(root.spec_text_range()), 0),
                *root,
                i as int,
            ),
        decreases children.len() - i,
    {
        let e: &Element = &children[i];
        proof {
            root.lemma_child_span(i as int);
        }
        match e.kind() {
            SyntaxKind::Entry => {
                d = enter(d, scope, e, Ghost(limit));
            },
            SyntaxKind::TableHeader => {
                let r: (Dom, usize) = enter_header(d, e, false, Ghost(limit));
                d = r.0;
                scope = r.1;
            },
            SyntaxKind::TableArrayHeader => {
                let r: (Dom, usize) = enter_header(d, e, true, Ghost(limit));
                d = r.0;
                scope = r.1;
            },
            _ => {},
        }
        i += 1;
    }
    d
}

/// Builds the document model of the tree that `root` views; none where
/// the view is of another shape than the root of a document.
pub fn build_view(root: &TypedView) -> (r: Option<Dom>)
    ensures
        r is Some <==> root.spec_shape() == Shape::Root,
        r matches Some(dom) ==> dom@ == build_model(root.spec_syntax()) && dom@.wf()
            && dom@.within(root.spec_syntax().spec_end() as int),
{
    match root.shape() {
        Shape::Root => Some(build(root.syntax())),
        _ => None,
    }
}

} // verus!
