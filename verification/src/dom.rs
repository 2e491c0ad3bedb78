//! The document model: tables, arrays and scalars, held in one arena in the
//! order in which the document declares them.

use vstd::prelude::*;
use vstd::string::*;
use crate::error::{error_models, lemma_error_models_push, Error, ErrorModel};
use crate::key::{Key, KeyModel};
use crate::text::TextRange;

verus! {

/// How a table came to be.
#[derive(Clone, Copy, Debug, PartialEq, Eq, Structural, Hash)]
pub enum Origin {
    /// Declared by a table header, or as an entry of an array of tables.
    Header,
    /// Written as an inline table: closed to later additions.
    Inline,
    /// Created on the way along a dotted key or a header path.
    Implicit,
}

/// The type of a scalar value.
#[derive(Clone, Copy, Debug, PartialEq, Eq, Structural, Hash)]
pub enum ScalarKind {
    String,
    Integer,
    Float,
    Bool,
    Date,
}

/// What a node of the document model is.
#[derive(Clone, Copy, Debug, PartialEq, Eq, Structural, Hash)]
pub enum NodeKind {
    Table(Origin),
    Array,
    TableArray,
    Scalar(ScalarKind),
}

impl NodeKind {
    /// A table that later keys and headers may extend.
    pub open spec fn spec_is_open_table(self) -> bool {
        self == NodeKind::Table(Origin::Header) || self == NodeKind::Table(Origin::Implicit)
    }

    /// A table that nothing can be entered into after it was made.
    pub open spec fn spec_is_closed(self) -> bool {
        self == NodeKind::Table(Origin::Inline)
    }

    #[verifier::when_used_as_spec(spec_is_closed)]
    pub fn is_closed(self) -> (b: bool)
        ensures
            b == self.spec_is_closed(),
    {
        match self {
            NodeKind::Table(Origin::Inline) => true,
            _ => false,
        }
    }

    #[verifier::when_used_as_spec(spec_is_open_table)]
    pub fn is_open_table(self) -> (b: bool)
        ensures
            b == self.spec_is_open_table(),
    {
        match self {
            NodeKind::Table(Origin::Header) | NodeKind::Table(Origin::Implicit) => true,
            _ => false,
        }
    }
}

/// One node of the document model.
#[derive(Debug)]
pub struct DomNode {
    pub kind: NodeKind,
    /// The key that declared the node; none for the root table and for the
    /// items of an array.
    pub key: Option<Key>,
    /// The span of the syntax that produced the node.
    pub range: TextRange,
    /// The node that holds this one: a table its entry, an array its item, an
    /// array of tables its table.
    pub parent: Option<usize>,
}

/// What a node is, as plain values.
pub struct NodeModel {
    pub kind: NodeKind,
    pub key: Option<KeyModel>,
    pub range: TextRange,
    pub parent: Option<int>,
}

impl View for DomNode {
    type V = NodeModel;

    open spec fn view(&self) -> NodeModel {
        NodeModel {
            kind: self.kind,
            key: match self.key {
                Some(k) => Some(k@),
                None => None,
            },
            range: self.range,
            parent: match self.parent {
                Some(p) => Some(p as int),
                None => None,
            },
        }
    }
}

/// The models of a run of nodes.
pub open spec fn node_models(s: Seq<DomNode>) -> Seq<NodeModel> {
    Seq::new(s.len(), |i: int| s[i]@)
}

/// What a document model is, as plain values: its nodes, the root table
/// first and every other node after the one that holds it, and the errors
/// found while it was built, in the order in which they were found.
pub struct DomModel {
    pub nodes: Seq<NodeModel>,
    pub errors: Seq<ErrorModel>,
}

impl DomModel {
    pub open spec fn wf(self) -> bool {
        &&& self.nodes.len() > 0
        &&& self.nodes[0].parent is None
        &&& self.nodes[0].kind is Table
        &&& forall|i: int|
            0 <= i < self.nodes.len() ==> ((#[trigger] self.nodes[i]).parent matches Some(p) ==> 0
                <= p < i)
        &&& forall|i: int|
            0 <= i < self.nodes.len() ==> ((#[trigger] self.nodes[i]).key matches Some(k)
                ==> k.wf())
        &&& forall|i: int| 0 <= i < self.errors.len() ==> (#[trigger] self.errors[i]).wf()
    }

    /// Whether node `id` is held by `parent` under the name `name`.
    pub open spec fn is_entry(self, id: int, parent: int, name: Seq<char>) -> bool {
        &&& self.nodes[id].parent == Some(parent)
        &&& self.nodes[id].key matches Some(k)
        &&& k.name() == name
    }

    /// The first node, from `from` on, that `parent` holds under `name`.
    pub open spec fn entry_from(self, parent: int, name: Seq<char>, from: int) -> Option<int>
        decreases self.nodes.len() - from,
    {
        if from < 0 || from >= self.nodes.len() {
            None
        } else if self.is_entry(from, parent, name) {
            Some(from)
        } else {
            self.entry_from(parent, name, from + 1)
        }
    }

    /// The node that `parent` holds under `name`: the first declared, if
    /// there is one.
    pub open spec fn find_entry(self, parent: int, name: Seq<char>) -> Option<int> {
        self.entry_from(parent, name, 0)
    }

    /// The last of the nodes before `below` that `parent` holds.
    pub open spec fn last_child_below(self, parent: int, below: int) -> Option<int>
        decreases below,
    {
        if below <= 0 || below > self.nodes.len() {
            None
        } else if self.nodes[below - 1].parent == Some(parent) {
            Some(below - 1)
        } else {
            self.last_child_below(parent, below - 1)
        }
    }

    /// The node that `parent` holds and that was declared last.
    pub open spec fn last_child(self, parent: int) -> Option<int> {
        self.last_child_below(parent, self.nodes.len() as int)
    }

    /// Those of the first `n` nodes that `parent` holds, in order.
    pub open spec fn children_below(self, parent: int, n: int) -> Seq<int>
        decreases n,
    {
        if n <= 0 || n > self.nodes.len() {
            Seq::<int>::empty()
        } else if self.nodes[n - 1].parent == Some(parent) {
            self.children_below(parent, n - 1).push(n - 1)
        } else {
            self.children_below(parent, n - 1)
        }
    }

    /// The nodes that `parent` holds, in the order of their declaration.
    pub open spec fn children(self, parent: int) -> Seq<int> {
        self.children_below(parent, self.nodes.len() as int)
    }

    /// The model with one more node.
    pub open spec fn add_node(self, node: NodeModel) -> DomModel {
        DomModel { nodes: self.nodes.push(node), errors: self.errors }
    }

    /// The model with one more error.
    pub open spec fn add_error(self, error: ErrorModel) -> DomModel {
        DomModel { nodes: self.nodes, errors: self.errors.push(error) }
    }

    /// The model in which table `id` has become one that a header declares,
    /// under `key` and at `range`.
    pub open spec fn promote(self, id: int, key: KeyModel, range: TextRange) -> DomModel {
        DomModel {
            nodes: self.nodes.update(
                id,
                NodeModel {
                    kind: NodeKind::Table(Origin::Header),
                    key: Some(key),
                    range,
                    parent: self.nodes[id].parent,
                },
            ),
            errors: self.errors,
        }
    }

    /// Both ends of every key segment and of every place named by an error
    /// are offsets of a text of `len` bytes.
    pub open spec fn within(self, len: int) -> bool {
        &&& forall|i: int|
            0 <= i < self.nodes.len() ==> ((#[trigger] self.nodes[i]).key matches Some(k)
                ==> k.bounded(len))
        &&& forall|i: int| 0 <= i < self.errors.len() ==> (#[trigger] self.errors[i]).within(len)
    }
}

/// Adding a node whose key is bounded keeps a model within bounds.
pub proof fn lemma_add_node_within(d: DomModel, node: NodeModel, len: int)
    requires
        d.within(len),
        node.key matches Some(k) ==> k.bounded(len),
    ensures
        d.add_node(node).within(len),
{
    let r: DomModel = d.add_node(node);
    assert forall|i: int| 0 <= i < r.nodes.len() implies ((#[trigger] r.nodes[i]).key matches Some(
        k,
    ) ==> k.bounded(len)) by {
        if i < d.nodes.len() {
            assert(r.nodes[i] == d.nodes[i]);
        }
    }
}

/// Adding an error whose places are bounded keeps a model within bounds.
pub proof fn lemma_add_error_within(d: DomModel, error: ErrorModel, len: int)
    requires
        d.within(len),
        error.within(len),
    ensures
        d.add_error(error).within(len),
{
    let r: DomModel = d.add_error(error);
    assert forall|i: int| 0 <= i < r.errors.len() implies (#[trigger] r.errors[i]).within(len) by {
        if i < d.errors.len() {
            assert(r.errors[i] == d.errors[i]);
        }
    }
}

/// Giving a table a bounded key keeps a model within bounds.
pub proof fn lemma_promote_within(d: DomModel, id: int, key: KeyModel, range: TextRange, len: int)
    requires
        d.within(len),
        key.bounded(len),
        0 <= id < d.nodes.len(),
    ensures
        d.promote(id, key, range).within(len),
{
    let r: DomModel = d.promote(id, key, range);
    assert forall|i: int| 0 <= i < r.nodes.len() implies ((#[trigger] r.nodes[i]).key matches Some(
        k,
    ) ==> k.bounded(len)) by {
        if i != id {
            assert(r.nodes[i] == d.nodes[i]);
        }
    }
}

/// A document model.
#[derive(Debug)]
pub struct Dom {
    nodes: Vec<DomNode>,
    errors: Vec<Error>,
}

impl View for Dom {
    type V = DomModel;

    closed spec fn view(&self) -> DomModel {
        DomModel { nodes: node_models(self.nodes@), errors: error_models(self.errors@) }
    }
}

impl Dom {
    /// The invariant of the type.
    #[verifier::type_invariant]
    pub closed spec fn wf(&self) -> bool {
        self@.wf()
    }

    /// The model of a value that satisfies the invariant is well formed.
    pub proof fn lemma_model_wf(&self)
        requires
            self.wf(),
        ensures
            self@.wf(),
    {
    }

    /// A model that holds the root table only.
    pub(crate) fn new(range: TextRange) -> (d: Dom)
        ensures
            d@ == (DomModel {
                nodes: seq![
                    NodeModel {
                        kind: NodeKind::Table(Origin::Header),
                        key: None,
                        range,
                        parent: None,
                    },
                ],
                errors: Seq::<ErrorModel>::empty(),
            }),
            d@.wf(),
    {
        let mut nodes: Vec<DomNode> = Vec::new();
        nodes.push(
            DomNode { kind: NodeKind::Table(Origin::Header), key: None, range, parent: None },
        );
        let errors: Vec<Error> = Vec::new();
        let d: Dom = Dom { nodes, errors };
        assert(d@.nodes =~= seq![
            NodeModel { kind: NodeKind::Table(Origin::Header), key: None, range, parent: None },
        ]);
        assert(d@.errors =~= Seq::<ErrorModel>::empty());
        d
    }

    /// Appends a node and returns its id.
    pub(crate) fn add_node(self, node: DomNode) -> (r: (Dom, usize))
        requires
            node.parent matches Some(p) ==> p < self@.nodes.len(),
            node@.key matches Some(k) ==> k.wf(),
        ensures
            r.0@ == self@.add_node(node@),
            r.1 == self@.nodes.len(),
            r.0@.wf(),
    {
        proof {
            use_type_invariant(&self);
        }
        let ghost before: Seq<DomNode> = self.nodes@;
        let Dom { mut nodes, errors } = self;
        let id: usize = nodes.len();
        nodes.push(node);
        proof {
            assert(node_models(nodes@) =~= node_models(before).push(node@));
            let m: DomModel = DomModel {
                nodes: node_models(nodes@),
                errors: error_models(errors@),
            };
            assert(m == self@.add_node(node@));
            assert forall|i: int| 0 <= i < m.nodes.len() implies ((#[trigger] m.nodes[i]).parent
                matches Some(p) ==> 0 <= p < i) by {
                if i < before.len() {
                    assert(m.nodes[i] == self@.nodes[i]);
                }
            }
            assert forall|i: int| 0 <= i < m.nodes.len() implies ((#[trigger] m.nodes[i]).key
                matches Some(k) ==> k.wf()) by {
                if i < before.len() {
                    assert(m.nodes[i] == self@.nodes[i]);
                }
            }
            assert(m.nodes[0] == self@.nodes[0]);
            assert(m.wf());
        }
        (Dom { nodes, errors }, id)
    }

    /// Appends an error.
    pub(crate) fn add_error(self, error: Error) -> (r: Dom)
        requires
            error@.wf(),
        ensures
            r@ == self@.add_error(error@),
            r@.wf(),
    {
        proof {
            use_type_invariant(&self);
            lemma_error_models_push(self.errors@, error);
        }
        let Dom { nodes, mut errors } = self;
        errors.push(error);
        proof {
            let m: DomModel = DomModel {
                nodes: node_models(nodes@),
                errors: error_models(errors@),
            };
            assert(m == self@.add_error(error@));
            assert forall|i: int| 0 <= i < m.errors.len() implies (#[trigger] m.errors[i]).wf() by {
                if i < self@.errors.len() {
                    assert(m.errors[i] == self@.errors[i]);
                }
            }
            assert(m.wf());
        }
        Dom { nodes, errors }
    }

    /// Makes table `id` one that a header declares, under `key` and at
    /// `range`.
    pub(crate) fn promote(self, id: usize, key: Key, range: TextRange) -> (r: Dom)
        requires
            id < self@.nodes.len(),
            self@.nodes[id as int].kind is Table,
            key@.wf(),
        ensures
            r@ == self@.promote(id as int, key@, range),
            r@.wf(),
    {
        proof {
            use_type_invariant(&self);
        }
        let ghost before: Seq<DomNode> = self.nodes@;
        let Dom { mut nodes, errors } = self;
        let parent: Option<usize> = nodes[id].parent;
        let node: DomNode = DomNode {
            kind: NodeKind::Table(Origin::Header),
            key: Some(key),
            range,
            parent,
        };
        nodes.set(id, node);
        proof {
            assert(node_models(nodes@) =~= node_models(before).update(id as int, node@));
            let m: DomModel = DomModel {
                nodes: node_models(nodes@),
                errors: error_models(errors@),
            };
            assert(m == self@.promote(id as int, key@, range));
            assert forall|i: int| 0 <= i < m.nodes.len() implies ((#[trigger] m.nodes[i]).parent
                matches Some(p) ==> 0 <= p < i) by {
                assert(m.nodes[i].parent == self@.nodes[i].parent);
            }
            assert forall|i: int| 0 <= i < m.nodes.len() implies ((#[trigger] m.nodes[i]).key
                matches Some(k) ==> k.wf()) by {
                if i != id {
                    assert(m.nodes[i] == self@.nodes[i]);
                }
            }
            assert(m.nodes[0].parent == self@.nodes[0].parent);
            assert(m.wf());
        }
        Dom { nodes, errors }
    }

    /// Number of nodes.
    pub fn len(&self) -> (n: usize)
        ensures
            n == self@.nodes.len(),
            n > 0,
            self@.wf(),
    {
        proof {
            use_type_invariant(self);
        }
        self.nodes.len()
    }

    /// The node with the given id.
    pub fn node(&self, id: usize) -> (n: &DomNode)
        requires
            id < self@.nodes.len(),
        ensures
            n@ == self@.nodes[id as int],
    {
        &self.nodes[id]
    }

    /// A copy of the key under which node `id` was declared.
    pub fn declared(&self, id: usize) -> (k: Key)
        requires
            id < self@.nodes.len(),
            self@.nodes[id as int].key is Some,
        ensures
            k@ == self@.nodes[id as int].key.unwrap(),
            k@.wf(),
    {
        match &self.nodes[id].key {
            Some(k) => k.clone(),
            None => vstd::pervasive::unreached(),
        }
    }

    /// The errors found while the model was built, in the order in which
    /// they were found.
    pub fn errors(&self) -> (e: &Vec<Error>)
        ensures
            error_models(e@) == self@.errors,
    {
        &self.errors
    }

    /// The node that `parent` holds under `name`, if there is one.
    pub fn find_entry(&self, parent: usize, name: &String) -> (r: Option<usize>)
        ensures
            match r {
                Some(id) => self@.find_entry(parent as int, name@) == Some(id as int) && id
                    < self@.nodes.len() && self@.nodes[id as int].key is Some,
                None => self@.find_entry(parent as int, name@) is None,
            },
    {
        let mut i: usize = 0;
        while i < self.nodes.len()
            invariant
                i <= self.nodes.len(),
                self@.find_entry(parent as int, name@) == self@.entry_from(
                    parent as int,
                    name@,
                    i as int,
                ),
            decreases self.nodes.len() - i,
        {
            let n: &DomNode = &self.nodes[i];
            assert(n@ == self@.nodes[i as int]);
            let held: bool = match n.parent {
                Some(p) => p == parent,
                None => false,
            };
            if held {
                match &n.key {
                    Some(k) => {
                        if *k.name() == *name {
                            return Some(i);
                        }
                    },
                    None => {},
                }
            }
            i += 1;
        }
        None
    }

    /// The node that `parent` holds and that was declared last.
    pub fn last_child(&self, parent: usize) -> (r: Option<usize>)
        ensures
            match r {
                Some(id) => self@.last_child(parent as int) == Some(id as int) && id
                    < self@.nodes.len(),
                None => self@.last_child(parent as int) is None,
            },
    {
        let mut i: usize = self.nodes.len();
        while i > 0
            invariant
                i <= self.nodes.len(),
                self@.last_child(parent as int) == self@.last_child_below(parent as int, i as int),
            decreases i,
        {
            let n: &DomNode = &self.nodes[i - 1];
            assert(n@ == self@.nodes[i - 1]);
            let held: bool = match n.parent {
                Some(p) => p == parent,
                None => false,
            };
            if held {
                return Some(i - 1);
            }
            i -= 1;
        }
        None
    }

    /// The nodes that `parent` holds, in the order of their declaration.
    pub fn children(&self, parent: usize) -> (r: Vec<usize>)
        ensures
            r@.len() == self@.children(parent as int).len(),
            forall|i: int| 0 <= i < r@.len() ==> (#[trigger] r@[i]) as int == self@.children(
                parent as int,
            )[i],
    {
        let mut out: Vec<usize> = Vec::new();
        let mut i: usize = 0;
        while i < self.nodes.len()
            invariant
                i <= self.nodes.len(),
                out@.len() == self@.children_below(parent as int, i as int).len(),
                forall|j: int| 0 <= j < out@.len() ==> (#[trigger] out@[j]) as int
                    == self@.children_below(parent as int, i as int)[j],
            decreases self.nodes.len() - i,
        {
            let n: &DomNode = &self.nodes[i];
            assert(n@ == self@.nodes[i as int]);
            let held: bool = match n.parent {
                Some(p) => p == parent,
                None => false,
            };
            if held {
                out.push(i);
            }
            i += 1;
        }
        out
    }
}

} // verus!
