//! What holds of every document model that the builder makes.

use vstd::prelude::*;
use crate::builder::{
    apply_entry, apply_header, build_constructs, build_items, build_members, build_model,
    build_value, content_index, declared, descend, empty_model, header_table, implicit_table,
    insert_value, key_segments, spec_scalar_kind,
};
use crate::dom::{Dom, DomModel, NodeKind, NodeModel, Origin};
use crate::error::ErrorModel;
use crate::key::{KeyModel, SegmentModel};
use crate::kind::SyntaxKind;
use crate::syntax::Element;
use crate::text::TextRange;
use crate::typed::{first_match, lemma_first_match_height, Shape};

verus! {

/// Building is a function of the tree: two models that were built from one
/// tree have the same nodes and the same errors, in the same order.
pub proof fn lemma_build_again(root: Element, one: Dom, two: Dom)
    requires
        one@ == build_model(root),
        two@ == build_model(root),
    ensures
        one@ == two@,
        one@.nodes == two@.nodes,
        one@.errors == two@.errors,
{
}

/// The first `n` nodes of a model.
pub open spec fn kept(d: DomModel, n: int) -> Seq<NodeModel> {
    d.nodes.subrange(0, n)
}

/// A walk along a key changes nothing that is there. The nodes that were in
/// the model stay as they are, every node that the walk adds is a table made
/// on the way, and the errors stay as they are but for one more where the
/// walk is turned away.
pub proof fn lemma_walk_extends(d: DomModel, cur: int, key: KeyModel, at: int, header: bool)
    ensures
        ({
            let r: (DomModel, Option<int>) = descend(d, cur, key, at, header);
            &&& d.nodes.len() <= r.0.nodes.len()
            &&& kept(r.0, d.nodes.len() as int) == d.nodes
            &&& forall|i: int|
                d.nodes.len() <= i < r.0.nodes.len() ==> (#[trigger] r.0.nodes[i]).kind
                    == NodeKind::Table(Origin::Implicit)
            &&& r.1 is Some ==> r.0.errors == d.errors
            &&& r.1 is None ==> r.0.errors.len() == d.errors.len() + 1 && r.0.errors.drop_last()
                == d.errors
        }),
    decreases key.segments.len() - at,
{
    let r: (DomModel, Option<int>) = descend(d, cur, key, at, header);
    assert(d.nodes.subrange(0, d.nodes.len() as int) =~= d.nodes);
    if !(at < 0 || at >= key.segments.len() - 1) {
        match d.find_entry(cur, key.segments[at].name) {
            None => {
                let next: DomModel = d.add_node(implicit_table(key, at + 1, cur));
                lemma_walk_extends(next, d.nodes.len() as int, key, at + 1, header);
                assert(kept(r.0, d.nodes.len() as int) =~= kept(r.0, next.nodes.len() as int).subrange(
                    0,
                    d.nodes.len() as int,
                ));
                assert(next.nodes.subrange(0, d.nodes.len() as int) =~= d.nodes);
                assert forall|i: int| d.nodes.len() <= i < r.0.nodes.len() implies (
                #[trigger] r.0.nodes[i]).kind == NodeKind::Table(Origin::Implicit) by {
                    if i == d.nodes.len() {
                        assert(r.0.nodes[i] == kept(r.0, next.nodes.len() as int)[i]);
                    }
                }
            },
            Some(c) => {
                let kind: NodeKind = d.nodes[c].kind;
                if kind.spec_is_open_table() {
                    lemma_walk_extends(d, c, key, at + 1, header);
                } else if kind == NodeKind::Table(Origin::Inline) {
                    assert(r.0.errors.drop_last() =~= d.errors);
                } else if header && kind == NodeKind::TableArray && d.last_child(c) is Some {
                    lemma_walk_extends(d, d.last_child(c).unwrap(), key, at + 1, header);
                } else {
                    assert(r.0.errors.drop_last() =~= d.errors);
                }
            },
        }
    }
}

/// Every node comes after the node that holds it.
pub open spec fn ordered(d: DomModel) -> bool {
    forall|i: int|
        0 <= i < d.nodes.len() ==> ((#[trigger] d.nodes[i]).parent matches Some(p) ==> 0 <= p < i)
}

/// A walk that starts in a table that holds nothing is not turned away.
pub proof fn lemma_walk_through_fresh(d: DomModel, cur: int, key: KeyModel, at: int, header: bool)
    requires
        ordered(d),
        0 <= cur < d.nodes.len(),
        forall|i: int| 0 <= i < d.nodes.len() ==> (#[trigger] d.nodes[i]).parent != Some(cur),
    ensures
        descend(d, cur, key, at, header).1 is Some,
    decreases key.segments.len() - at,
{
    if !(at < 0 || at >= key.segments.len() - 1) {
        lemma_no_entry(d, cur, key.segments[at].name, 0);
        let node: NodeModel = implicit_table(key, at + 1, cur);
        let next: DomModel = d.add_node(node);
        assert forall|i: int| 0 <= i < next.nodes.len() implies (#[trigger] next.nodes[i]).parent
            != Some(d.nodes.len() as int) && (next.nodes[i].parent matches Some(p) ==> 0 <= p
            < i) by {
            if i < d.nodes.len() {
                assert(next.nodes[i] == d.nodes[i]);
            }
        }
        lemma_walk_through_fresh(next, d.nodes.len() as int, key, at + 1, header);
    }
}

proof fn lemma_no_entry(d: DomModel, cur: int, name: Seq<char>, from: int)
    requires
        forall|i: int| 0 <= i < d.nodes.len() ==> (#[trigger] d.nodes[i]).parent != Some(cur),
    ensures
        d.entry_from(cur, name, from) is None,
    decreases d.nodes.len() - from,
{
    if 0 <= from < d.nodes.len() {
        lemma_no_entry(d, cur, name, from + 1);
    }
}

proof fn lemma_entry_in_range(d: DomModel, cur: int, name: Seq<char>, from: int)
    ensures
        d.entry_from(cur, name, from) matches Some(c) ==> 0 <= c < d.nodes.len(),
    decreases d.nodes.len() - from,
{
    if 0 <= from < d.nodes.len() {
        lemma_entry_in_range(d, cur, name, from + 1);
    }
}

proof fn lemma_last_in_range(d: DomModel, parent: int, below: int)
    ensures
        d.last_child_below(parent, below) matches Some(c) ==> 0 <= c < d.nodes.len(),
    decreases below,
{
    if 0 < below <= d.nodes.len() {
        lemma_last_in_range(d, parent, below - 1);
    }
}

/// A key that is turned away leaves no trace in the tree: where a walk ends
/// in an error, the nodes of the model are those that it had before. So
/// nothing is ever entered into an inline table after it was made, nor
/// below a value that is no table.
pub proof fn lemma_turned_away_adds_nothing(
    d: DomModel,
    cur: int,
    key: KeyModel,
    at: int,
    header: bool,
)
    requires
        d.wf(),
        0 <= cur < d.nodes.len(),
    ensures
        descend(d, cur, key, at, header).1 is None ==> descend(d, cur, key, at, header).0.nodes
            == d.nodes,
    decreases key.segments.len() - at,
{
    if !(at < 0 || at >= key.segments.len() - 1) {
        match d.find_entry(cur, key.segments[at].name) {
            None => {
                let next: DomModel = d.add_node(implicit_table(key, at + 1, cur));
                assert forall|i: int| 0 <= i < next.nodes.len() implies (
                #[trigger] next.nodes[i]).parent != Some(d.nodes.len() as int) && (
                next.nodes[i].parent matches Some(p) ==> 0 <= p < i) by {
                    if i < d.nodes.len() {
                        assert(next.nodes[i] == d.nodes[i]);
                    }
                }
                lemma_walk_through_fresh(next, d.nodes.len() as int, key, at + 1, header);
            },
            Some(c) => {
                lemma_entry_in_range(d, cur, key.segments[at].name, 0);
                let kind: NodeKind = d.nodes[c].kind;
                if kind.spec_is_open_table() {
                    lemma_turned_away_adds_nothing(d, c, key, at + 1, header);
                } else if kind == NodeKind::Table(Origin::Inline) {
                } else if header && kind == NodeKind::TableArray && d.last_child(c) is Some {
                    lemma_last_in_range(d, c, d.nodes.len() as int);
                    lemma_turned_away_adds_nothing(
                        d,
                        d.last_child(c).unwrap(),
                        key,
                        at + 1,
                        header,
                    );
                }
            },
        }
    }
}

/// Nodes `i` and `j` stand under one name in one table.
pub open spec fn clash(d: DomModel, i: int, j: int) -> bool {
    &&& d.nodes[i].parent matches Some(p)
    &&& d.nodes[j].parent == Some(p)
    &&& 0 <= p < d.nodes.len()
    &&& d.nodes[p].kind is Table
    &&& d.nodes[i].key matches Some(a)
    &&& d.nodes[j].key matches Some(b)
    &&& a.name() == b.name()
}

/// No table holds two nodes under one name.
pub open spec fn unique(d: DomModel) -> bool {
    forall|i: int, j: int| 0 <= i < j < d.nodes.len() ==> !#[trigger] clash(d, i, j)
}

/// Every node comes after the one that holds it, and no table holds two
/// nodes under one name.
pub open spec fn sound(d: DomModel) -> bool {
    ordered(d) && unique(d)
}

/// What `entry_from` finds is an entry of the table under the name, and
/// where it finds nothing there is none.
pub proof fn lemma_entry_from(d: DomModel, parent: int, name: Seq<char>, from: int)
    requires
        0 <= from,
    ensures
        match d.entry_from(parent, name, from) {
            Some(c) => from <= c < d.nodes.len() && d.is_entry(c, parent, name),
            None => forall|i: int| from <= i < d.nodes.len() ==> !#[trigger] d.is_entry(i, parent, name),
        },
    decreases d.nodes.len() - from,
{
    if from < d.nodes.len() && !d.is_entry(from, parent, name) {
        lemma_entry_from(d, parent, name, from + 1);
        if d.entry_from(parent, name, from) is None {
            assert forall|i: int| from <= i < d.nodes.len() implies !#[trigger] d.is_entry(
                i,
                parent,
                name,
            ) by {
                if i > from {
                    assert(!d.is_entry(i, parent, name));
                }
            }
        }
    }
}

/// Whether `node` may be added: the node that is to hold it is there, and
/// if that is a table it holds nothing yet under the name of `node`.
pub open spec fn addable(d: DomModel, node: NodeModel) -> bool {
    node.parent matches Some(p) ==> {
        &&& 0 <= p < d.nodes.len()
        &&& (d.nodes[p].kind is Table && node.key is Some) ==> d.find_entry(
            p,
            node.key.unwrap().name(),
        ) is None
    }
}

/// Adding a node that may be added keeps a model sound.
pub proof fn lemma_add_sound(d: DomModel, node: NodeModel)
    requires
        sound(d),
        addable(d, node),
    ensures
        sound(d.add_node(node)),
{
    let r: DomModel = d.add_node(node);
    let n: int = d.nodes.len() as int;
    assert forall|i: int| 0 <= i < r.nodes.len() implies ((#[trigger] r.nodes[i]).parent matches Some(
        p,
    ) ==> 0 <= p < i) by {
        if i < n {
            assert(r.nodes[i] == d.nodes[i]);
        }
    }
    assert forall|i: int, j: int| 0 <= i < j < r.nodes.len() implies !#[trigger] clash(r, i, j) by {
        if clash(r, i, j) {
            let p: int = r.nodes[i].parent.unwrap();
            assert(r.nodes[i] == d.nodes[i]);
            assert(d.nodes[i].parent matches Some(q) ==> 0 <= q < i);
            assert(r.nodes[p] == d.nodes[p]);
            if j < n {
                assert(r.nodes[j] == d.nodes[j]);
                assert(clash(d, i, j));
            } else {
                lemma_entry_from(d, p, node.key.unwrap().name(), 0);
                assert(d.is_entry(i, p, node.key.unwrap().name()));
            }
        }
    }
}

/// Giving a table another key with the same name keeps a model sound.
pub proof fn lemma_promote_sound(d: DomModel, c: int, key: KeyModel, range: TextRange)
    requires
        sound(d),
        0 <= c < d.nodes.len(),
        d.nodes[c].kind is Table,
        d.nodes[c].key matches Some(k) && k.name() == key.name(),
    ensures
        sound(d.promote(c, key, range)),
{
    let r: DomModel = d.promote(c, key, range);
    assert forall|i: int| 0 <= i < r.nodes.len() implies ((#[trigger] r.nodes[i]).parent matches Some(
        p,
    ) ==> 0 <= p < i) by {
        assert(r.nodes[i].parent == d.nodes[i].parent);
    }
    assert forall|i: int, j: int| 0 <= i < j < r.nodes.len() implies !#[trigger] clash(r, i, j) by {
        if clash(r, i, j) {
            let p: int = r.nodes[i].parent.unwrap();
            assert(r.nodes[i].parent == d.nodes[i].parent);
            assert(r.nodes[j].parent == d.nodes[j].parent);
            assert(d.nodes[p].kind is Table);
            assert(d.nodes[i].key is Some && d.nodes[i].key.unwrap().name()
                == r.nodes[i].key.unwrap().name());
            assert(d.nodes[j].key is Some && d.nodes[j].key.unwrap().name()
                == r.nodes[j].key.unwrap().name());
            assert(clash(d, i, j));
        }
    }
}

/// An error more keeps a model sound.
pub proof fn lemma_error_sound(d: DomModel, error: ErrorModel)
    requires
        sound(d),
    ensures
        sound(d.add_error(error)),
{
    let r: DomModel = d.add_error(error);
    assert forall|i: int, j: int| 0 <= i < j < r.nodes.len() implies !#[trigger] clash(r, i, j) by {
        if clash(r, i, j) {
            assert(clash(d, i, j));
        }
    }
}

/// A walk keeps a model sound, and what it gives is a node of the model.
pub proof fn lemma_walk_sound(d: DomModel, cur: int, key: KeyModel, at: int, header: bool)
    requires
        sound(d),
        0 <= cur < d.nodes.len(),
        key.wf(),
    ensures
        sound(descend(d, cur, key, at, header).0),
        d.nodes.len() <= descend(d, cur, key, at, header).0.nodes.len(),
        descend(d, cur, key, at, header).1 matches Some(t) ==> 0 <= t < descend(
            d,
            cur,
            key,
            at,
            header,
        ).0.nodes.len(),
    decreases key.segments.len() - at,
{
    if !(at < 0 || at >= key.segments.len() - 1) {
        let name: Seq<char> = key.segments[at].name;
        lemma_entry_from(d, cur, name, 0);
        match d.find_entry(cur, name) {
            None => {
                let node: NodeModel = implicit_table(key, at + 1, cur);
                assert(key.prefix(at + 1).name() == name);
                lemma_add_sound(d, node);
                lemma_walk_sound(d.add_node(node), d.nodes.len() as int, key, at + 1, header);
            },
            Some(c) => {
                let kind: NodeKind = d.nodes[c].kind;
                let target: KeyModel = declared(d, c);
                if kind.spec_is_open_table() {
                    lemma_walk_sound(d, c, key, at + 1, header);
                } else if kind == NodeKind::Table(Origin::Inline) {
                    lemma_error_sound(d, ErrorModel::InlineTable { target, key });
                } else if header && kind == NodeKind::TableArray && d.last_child(c) is Some {
                    lemma_last_in_range(d, c, d.nodes.len() as int);
                    lemma_walk_sound(d, d.last_child(c).unwrap(), key, at + 1, header);
                } else if !header && kind is Scalar {
                    lemma_error_sound(d, ErrorModel::InlineTable { target, key });
                } else {
                    lemma_error_sound(d, ErrorModel::ExpectedTable { target, key });
                }
            },
        }
    }
}

/// Adding a value keeps a model sound.
pub proof fn lemma_value_sound(
    d: DomModel,
    parent: Option<int>,
    key: Option<KeyModel>,
    value: Element,
)
    requires
        sound(d),
        parent matches Some(p) ==> {
            &&& 0 <= p < d.nodes.len()
            &&& (d.nodes[p].kind is Table && key is Some) ==> d.find_entry(
                p,
                key.unwrap().name(),
            ) is None
        },
    ensures
        sound(build_value(d, parent, key, value)),
        d.nodes.len() <= build_value(d, parent, key, value).nodes.len(),
    decreases value.height(), 2int, 0int,
{
    let s: Seq<Element> = value.spec_children();
    let i: int = content_index(s, 0);
    if 0 <= i < s.len() {
        let c: Element = s[i];
        let range: TextRange = c.spec_text_range();
        let id: int = d.nodes.len() as int;
        value.lemma_child_height(i);
        match spec_scalar_kind(c.spec_kind()) {
            Some(k) => {
                lemma_add_sound(d, NodeModel { kind: NodeKind::Scalar(k), key, range, parent });
            },
            None => {
                if c.spec_kind() == SyntaxKind::Array {
                    let node: NodeModel = NodeModel { kind: NodeKind::Array, key, range, parent };
                    lemma_add_sound(d, node);
                    lemma_items_sound(d.add_node(node), id, c, c.spec_children().len() as int);
                } else {
                    let node: NodeModel = NodeModel {
                        kind: NodeKind::Table(Origin::Inline),
                        key,
                        range,
                        parent,
                    };
                    lemma_add_sound(d, node);
                    lemma_members_sound(d.add_node(node), id, c, c.spec_children().len() as int);
                }
            },
        }
    }
}

/// Adding the items of an array keeps a model sound.
pub proof fn lemma_items_sound(d: DomModel, array: int, holder: Element, n: int)
    requires
        sound(d),
        0 <= array < d.nodes.len(),
    ensures
        sound(build_items(d, array, holder, n)),
        d.nodes.len() <= build_items(d, array, holder, n).nodes.len(),
    decreases holder.height(), 1int, n,
{
    if !(n <= 0 || n > holder.spec_children().len()) {
        lemma_items_sound(d, array, holder, n - 1);
        let e: Element = holder.spec_children()[n - 1];
        if e.spec_kind() == SyntaxKind::Value {
            holder.lemma_child_height(n - 1);
            lemma_value_sound(build_items(d, array, holder, n - 1), Some(array), None, e);
        }
    }
}

/// Applying the entries of an inline table keeps a model sound.
pub proof fn lemma_members_sound(d: DomModel, table: int, holder: Element, n: int)
    requires
        sound(d),
        0 <= table < d.nodes.len(),
    ensures
        sound(build_members(d, table, holder, n)),
        d.nodes.len() <= build_members(d, table, holder, n).nodes.len(),
    decreases holder.height(), 1int, n,
{
    if !(n <= 0 || n > holder.spec_children().len()) {
        lemma_members_sound(d, table, holder, n - 1);
        let e: Element = holder.spec_children()[n - 1];
        if e.spec_kind() == SyntaxKind::Entry {
            holder.lemma_child_height(n - 1);
            lemma_entry_sound(build_members(d, table, holder, n - 1), table, e);
        }
    }
}

/// Entering a value under a key keeps a model sound.
pub proof fn lemma_insert_sound(d: DomModel, table: int, key: KeyModel, value: Element)
    requires
        sound(d),
        0 <= table < d.nodes.len(),
    ensures
        sound(insert_value(d, table, key, value)),
        d.nodes.len() <= insert_value(d, table, key, value).nodes.len(),
    decreases value.height(), 3int, 0int,
{
    lemma_entry_from(d, table, key.name(), 0);
    match d.find_entry(table, key.name()) {
        Some(c) => {
            lemma_error_sound(
                d,
                ErrorModel::DuplicateKey { first: declared(d, c), second: key },
            );
        },
        None => {
            lemma_value_sound(d, Some(table), Some(key), value);
        },
    }
}

/// Applying a key-value pair keeps a model sound.
pub proof fn lemma_entry_sound(d: DomModel, scope: int, entry: Element)
    requires
        sound(d),
        0 <= scope < d.nodes.len(),
    ensures
        sound(apply_entry(d, scope, entry)),
        d.nodes.len() <= apply_entry(d, scope, entry).nodes.len(),
    decreases entry.height(), 4int, 0int,
{
    let segments: Seq<SegmentModel> = key_segments(entry);
    match first_match(entry.spec_children(), Shape::Value, 0) {
        Some(value) => {
            if segments.len() > 0 {
                lemma_first_match_height(entry, Shape::Value);
                let key: KeyModel = KeyModel::under(d.nodes[scope].key, segments);
                lemma_walk_sound(d, scope, key, key.inherited as int, false);
                let walk: (DomModel, Option<int>) = descend(
                    d,
                    scope,
                    key,
                    key.inherited as int,
                    false,
                );
                match walk.1 {
                    Some(table) => {
                        lemma_insert_sound(walk.0, table, key, value);
                    },
                    None => {},
                }
            }
        },
        None => {},
    }
}

/// Applying a header keeps a model sound, and its scope is a node of the
/// model.
pub proof fn lemma_header_sound(d: DomModel, header: Element, array: bool)
    requires
        sound(d),
        d.nodes.len() > 0,
    ensures
        sound(apply_header(d, header, array).0),
        0 <= apply_header(d, header, array).1 < apply_header(d, header, array).0.nodes.len(),
        d.nodes.len() <= apply_header(d, header, array).0.nodes.len(),
{
    let segments: Seq<SegmentModel> = key_segments(header);
    let range: TextRange = header.spec_text_range();
    if segments.len() == 0 {
        lemma_add_sound(d, header_table(None, range, None));
    } else {
        let key: KeyModel = KeyModel::under(None, segments);
        lemma_walk_sound(d, 0, key, 0, true);
        let walk: (DomModel, Option<int>) = descend(d, 0, key, 0, true);
        let w: DomModel = walk.0;
        match walk.1 {
            Some(table) => {
                lemma_entry_from(w, table, key.name(), 0);
                let id: int = w.nodes.len() as int;
                match w.find_entry(table, key.name()) {
                    None => {
                        if array {
                            let list: NodeModel = NodeModel {
                                kind: NodeKind::TableArray,
                                key: Some(key),
                                range,
                                parent: Some(table),
                            };
                            lemma_add_sound(w, list);
                            assert(w.add_node(list).nodes[id] == list);
                            lemma_add_sound(w.add_node(list), header_table(Some(key), range, Some(id)));
                        } else {
                            lemma_add_sound(w, header_table(Some(key), range, Some(table)));
                        }
                    },
                    Some(c) => {
                        let kind: NodeKind = w.nodes[c].kind;
                        let target: KeyModel = declared(w, c);
                        if array {
                            if kind == NodeKind::TableArray {
                                lemma_add_sound(w, header_table(Some(key), range, Some(c)));
                            } else if kind is Scalar {
                                let e: ErrorModel = ErrorModel::ExpectedTable { target, key };
                                lemma_error_sound(w, e);
                                lemma_add_sound(w.add_error(e), header_table(Some(key), range, None));
                            } else {
                                let e: ErrorModel = ErrorModel::ExpectedTableArray { target, key };
                                lemma_error_sound(w, e);
                                lemma_add_sound(w.add_error(e), header_table(Some(key), range, None));
                            }
                        } else {
                            if kind == NodeKind::Table(Origin::Implicit) {
                                lemma_promote_sound(w, c, key, range);
                            } else if kind == NodeKind::Table(Origin::Header) {
                                lemma_error_sound(
                                    w,
                                    ErrorModel::DuplicateKey { first: target, second: key },
                                );
                            } else if kind == NodeKind::Table(Origin::Inline) {
                                let e: ErrorModel = ErrorModel::InlineTable { target, key };
                                lemma_error_sound(w, e);
                                lemma_add_sound(w.add_error(e), header_table(Some(key), range, None));
                            } else {
                                let e: ErrorModel = ErrorModel::ExpectedTable { target, key };
                                lemma_error_sound(w, e);
                                lemma_add_sound(w.add_error(e), header_table(Some(key), range, None));
                            }
                        }
                    },
                }
            },
            None => {
                lemma_add_sound(w, header_table(Some(key), range, None));
            },
        }
    }
}

/// Applying the constructs of a document keeps a model sound.
pub proof fn lemma_constructs_sound(state: (DomModel, int), root: Element, n: int)
    requires
        sound(state.0),
        0 <= state.1 < state.0.nodes.len(),
    ensures
        sound(build_constructs(state, root, n).0),
        0 <= build_constructs(state, root, n).1 < build_constructs(state, root, n).0.nodes.len(),
    decreases n,
{
    if !(n <= 0 || n > root.spec_children().len()) {
        lemma_constructs_sound(state, root, n - 1);
        let prev: (DomModel, int) = build_constructs(state, root, n - 1);
        let e: Element = root.spec_children()[n - 1];
        if e.spec_kind() == SyntaxKind::Entry {
            lemma_entry_sound(prev.0, prev.1, e);
        } else if e.spec_kind() == SyntaxKind::TableHeader {
            lemma_header_sound(prev.0, e, false);
        } else if e.spec_kind() == SyntaxKind::TableArrayHeader {
            lemma_header_sound(prev.0, e, true);
        }
    }
}

/// Within one table each key is declared at most once, whatever the
/// document: no table of a built model holds two nodes under one name, and
/// every node comes after the one that holds it.
pub proof fn lemma_keys_unique(root: Element)
    ensures
        unique(build_model(root)),
        ordered(build_model(root)),
{
    let start: DomModel = empty_model(root.spec_text_range());
    assert(sound(start));
    lemma_constructs_sound((start, 0), root, root.spec_children().len() as int);
}

/// The errors of `d` are the first errors of `r`, in the same order.
pub open spec fn keeps_errors(d: DomModel, r: DomModel) -> bool {
    d.errors.len() <= r.errors.len() && r.errors.subrange(0, d.errors.len() as int) == d.errors
}

proof fn lemma_keeps_same(d: DomModel, r: DomModel)
    requires
        r.errors == d.errors,
    ensures
        keeps_errors(d, r),
{
    assert(r.errors.subrange(0, d.errors.len() as int) =~= d.errors);
}

proof fn lemma_keeps_more(d: DomModel, error: ErrorModel)
    ensures
        keeps_errors(d, d.add_error(error)),
{
    assert(d.add_error(error).errors.subrange(0, d.errors.len() as int) =~= d.errors);
}

proof fn lemma_keeps_chain(a: DomModel, b: DomModel, c: DomModel)
    requires
        keeps_errors(a, b),
        keeps_errors(b, c),
    ensures
        keeps_errors(a, c),
{
    assert(c.errors.subrange(0, a.errors.len() as int) =~= c.errors.subrange(
        0,
        b.errors.len() as int,
    ).subrange(0, a.errors.len() as int));
}

proof fn lemma_walk_keeps(d: DomModel, cur: int, key: KeyModel, at: int, header: bool)
    ensures
        keeps_errors(d, descend(d, cur, key, at, header).0),
{
    lemma_walk_extends(d, cur, key, at, header);
    let r: DomModel = descend(d, cur, key, at, header).0;
    if descend(d, cur, key, at, header).1 is Some {
        lemma_keeps_same(d, r);
    } else {
        assert(r.errors.subrange(0, d.errors.len() as int) =~= r.errors.drop_last());
    }
}

proof fn lemma_value_keeps(d: DomModel, parent: Option<int>, key: Option<KeyModel>, value: Element)
    ensures
        keeps_errors(d, build_value(d, parent, key, value)),
    decreases value.height(), 2int, 0int,
{
    let s: Seq<Element> = value.spec_children();
    let i: int = content_index(s, 0);
    lemma_keeps_same(d, d);
    if 0 <= i < s.len() {
        let c: Element = s[i];
        let range: TextRange = c.spec_text_range();
        let id: int = d.nodes.len() as int;
        value.lemma_child_height(i);
        match spec_scalar_kind(c.spec_kind()) {
            Some(k) => {
                lemma_keeps_same(
                    d,
                    d.add_node(NodeModel { kind: NodeKind::Scalar(k), key, range, parent }),
                );
            },
            None => {
                if c.spec_kind() == SyntaxKind::Array {
                    let next: DomModel = d.add_node(
                        NodeModel { kind: NodeKind::Array, key, range, parent },
                    );
                    lemma_keeps_same(d, next);
                    lemma_items_keep(next, id, c, c.spec_children().len() as int);
                    lemma_keeps_chain(
                        d,
                        next,
                        build_items(next, id, c, c.spec_children().len() as int),
                    );
                } else {
                    let next: DomModel = d.add_node(
                        NodeModel { kind: NodeKind::Table(Origin::Inline), key, range, parent },
                    );
                    lemma_keeps_same(d, next);
                    lemma_members_keep(next, id, c, c.spec_children().len() as int);
                    lemma_keeps_chain(
                        d,
                        next,
                        build_members(next, id, c, c.spec_children().len() as int),
                    );
                }
            },
        }
    }
}

proof fn lemma_items_keep(d: DomModel, array: int, holder: Element, n: int)
    ensures
        keeps_errors(d, build_items(d, array, holder, n)),
    decreases holder.height(), 1int, n,
{
    lemma_keeps_same(d, d);
    if !(n <= 0 || n > holder.spec_children().len()) {
        lemma_items_keep(d, array, holder, n - 1);
        let prev: DomModel = build_items(d, array, holder, n - 1);
        let e: Element = holder.spec_children()[n - 1];
        if e.spec_kind() == SyntaxKind::Value {
            holder.lemma_child_height(n - 1);
            lemma_value_keeps(prev, Some(array), None, e);
            lemma_keeps_chain(d, prev, build_value(prev, Some(array), None, e));
        }
    }
}

proof fn lemma_members_keep(d: DomModel, table: int, holder: Element, n: int)
    ensures
        keeps_errors(d, build_members(d, table, holder, n)),
    decreases holder.height(), 1int, n,
{
    lemma_keeps_same(d, d);
    if !(n <= 0 || n > holder.spec_children().len()) {
        lemma_members_keep(d, table, holder, n - 1);
        let prev: DomModel = build_members(d, table, holder, n - 1);
        let e: Element = holder.spec_children()[n - 1];
        if e.spec_kind() == SyntaxKind::Entry {
            holder.lemma_child_height(n - 1);
            lemma_entry_keeps(prev, table, e);
            lemma_keeps_chain(d, prev, apply_entry(prev, table, e));
        }
    }
}

proof fn lemma_insert_keeps(d: DomModel, table: int, key: KeyModel, value: Element)
    ensures
        keeps_errors(d, insert_value(d, table, key, value)),
    decreases value.height(), 3int, 0int,
{
    match d.find_entry(table, key.name()) {
        Some(c) => {
            lemma_keeps_more(d, ErrorModel::DuplicateKey { first: declared(d, c), second: key });
        },
        None => {
            lemma_value_keeps(d, Some(table), Some(key), value);
        },
    }
}

/// A key-value pair takes no error away: the errors that were found before
/// it stay the first, in their order.
pub proof fn lemma_entry_keeps(d: DomModel, scope: int, entry: Element)
    ensures
        keeps_errors(d, apply_entry(d, scope, entry)),
    decreases entry.height(), 4int, 0int,
{
    lemma_keeps_same(d, d);
    let segments: Seq<SegmentModel> = key_segments(entry);
    match first_match(entry.spec_children(), Shape::Value, 0) {
        Some(value) => {
            if segments.len() > 0 {
                lemma_first_match_height(entry, Shape::Value);
                let key: KeyModel = KeyModel::under(d.nodes[scope].key, segments);
                lemma_walk_keeps(d, scope, key, key.inherited as int, false);
                let walk: (DomModel, Option<int>) = descend(
                    d,
                    scope,
                    key,
                    key.inherited as int,
                    false,
                );
                match walk.1 {
                    Some(table) => {
                        lemma_insert_keeps(walk.0, table, key, value);
                        lemma_keeps_chain(d, walk.0, insert_value(walk.0, table, key, value));
                    },
                    None => {},
                }
            }
        },
        None => {},
    }
}

/// A header takes no error away: the errors that were found before it stay
/// the first, in their order.
pub proof fn lemma_header_keeps(d: DomModel, header: Element, array: bool)
    ensures
        keeps_errors(d, apply_header(d, header, array).0),
{
    let segments: Seq<SegmentModel> = key_segments(header);
    let range: TextRange = header.spec_text_range();
    let r: DomModel = apply_header(d, header, array).0;
    if segments.len() == 0 {
        lemma_keeps_same(d, r);
    } else {
        let key: KeyModel = KeyModel::under(None, segments);
        lemma_walk_keeps(d, 0, key, 0, true);
        let walk: (DomModel, Option<int>) = descend(d, 0, key, 0, true);
        let w: DomModel = walk.0;
        match walk.1 {
            Some(table) => {
                match w.find_entry(table, key.name()) {
                    None => {
                        lemma_keeps_same(w, r);
                    },
                    Some(c) => {
                        let kind: NodeKind = w.nodes[c].kind;
                        let target: KeyModel = declared(w, c);
                        let opened: bool = if array {
                            kind == NodeKind::TableArray
                        } else {
                            kind == NodeKind::Table(Origin::Implicit)
                        };
                        if opened {
                            lemma_keeps_same(w, r);
                        } else {
                            assert(r.errors.len() == w.errors.len() + 1);
                            assert(r.errors.subrange(0, w.errors.len() as int) =~= w.errors);
                        }
                    },
                }
            },
            None => {
                lemma_keeps_same(w, r);
            },
        }
        lemma_keeps_chain(d, w, r);
    }
}

/// The errors come in the order of the document, and none is lost: what the
/// first `m` constructs of a document gave stays the start of what the first
/// `n` give, for `m` up to `n`.
pub proof fn lemma_errors_in_order(state: (DomModel, int), root: Element, m: int, n: int)
    requires
        0 <= m <= n <= root.spec_children().len(),
    ensures
        keeps_errors(build_constructs(state, root, m).0, build_constructs(state, root, n).0),
    decreases n - m,
{
    let from: DomModel = build_constructs(state, root, m).0;
    if m == n {
        lemma_keeps_same(from, from);
    } else {
        lemma_errors_in_order(state, root, m, n - 1);
        let prev: (DomModel, int) = build_constructs(state, root, n - 1);
        let e: Element = root.spec_children()[n - 1];
        let next: DomModel = build_constructs(state, root, n).0;
        if e.spec_kind() == SyntaxKind::Entry {
            lemma_entry_keeps(prev.0, prev.1, e);
        } else if e.spec_kind() == SyntaxKind::TableHeader {
            lemma_header_keeps(prev.0, e, false);
        } else if e.spec_kind() == SyntaxKind::TableArrayHeader {
            lemma_header_keeps(prev.0, e, true);
        } else {
            lemma_keeps_same(prev.0, next);
        }
        lemma_keeps_chain(from, prev.0, next);
    }
}

/// An entry whose key is turned away on its way enters nothing: the nodes
/// of the model stay as they are, and its errors are those that it had and
/// one more.
pub proof fn lemma_entry_turned_away(d: DomModel, scope: int, entry: Element)
    requires
        d.wf(),
        0 <= scope < d.nodes.len(),
        first_match(entry.spec_children(), Shape::Value, 0) is Some,
        key_segments(entry).len() > 0,
        ({
            let key: KeyModel = KeyModel::under(d.nodes[scope].key, key_segments(entry));
            descend(d, scope, key, key.inherited as int, false).1 is None
        }),
    ensures
        apply_entry(d, scope, entry).nodes == d.nodes,
        apply_entry(d, scope, entry).errors.len() == d.errors.len() + 1,
        apply_entry(d, scope, entry).errors.drop_last() == d.errors,
{
    let key: KeyModel = KeyModel::under(d.nodes[scope].key, key_segments(entry));
    lemma_turned_away_adds_nothing(d, scope, key, key.inherited as int, false);
    lemma_walk_extends(d, scope, key, key.inherited as int, false);
}

} // verus!
