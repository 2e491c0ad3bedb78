//! Typed views: a syntax element seen as one semantic shape, after a check
//! of its kind tag.

use vstd::prelude::*;
use vstd::string::*;
use crate::kind::SyntaxKind;
use crate::syntax::Element;
use crate::text::TextRange;

verus! {

/// The semantic shapes under which an element can be viewed. The first six
/// are backed by a token, the others by a node with its subtree.
#[derive(Clone, Copy, Debug, PartialEq, Eq, Structural, Hash)]
pub enum Shape {
    Bool,
    Str,
    Integer,
    Float,
    Date,
    Ident,
    Key,
    Value,
    Entry,
    Array,
    InlineTable,
    TableHeader,
    TableArrayHeader,
    Root,
}

impl Shape {
    /// The kind tags that a shape accepts.
    pub open spec fn spec_accepts(self, kind: SyntaxKind) -> bool {
        match self {
            Shape::Bool => kind == SyntaxKind::Bool,
            Shape::Str => kind == SyntaxKind::String || kind == SyntaxKind::MultiLineString || kind
                == SyntaxKind::StringLiteral || kind == SyntaxKind::MultiLineStringLiteral,
            Shape::Integer => kind == SyntaxKind::Integer || kind == SyntaxKind::IntegerHex || kind
                == SyntaxKind::IntegerOct || kind == SyntaxKind::IntegerBin,
            Shape::Float => kind == SyntaxKind::Float,
            Shape::Date => kind == SyntaxKind::Date,
            Shape::Ident => kind == SyntaxKind::Ident,
            Shape::Key => kind == SyntaxKind::Key,
            Shape::Value => kind == SyntaxKind::Value,
            Shape::Entry => kind == SyntaxKind::Entry,
            Shape::Array => kind == SyntaxKind::Array,
            Shape::InlineTable => kind == SyntaxKind::InlineTable,
            Shape::TableHeader => kind == SyntaxKind::TableHeader,
            Shape::TableArrayHeader => kind == SyntaxKind::TableArrayHeader,
            Shape::Root => kind == SyntaxKind::Root,
        }
    }

    /// Whether views of this shape wrap a single token.
    pub open spec fn spec_token_backed(self) -> bool {
        self == Shape::Bool || self == Shape::Str || self == Shape::Integer || self == Shape::Float
            || self == Shape::Date || self == Shape::Ident
    }

    #[verifier::when_used_as_spec(spec_accepts)]
    pub fn accepts(self, kind: SyntaxKind) -> (b: bool)
        ensures
            b == self.spec_accepts(kind),
    {
        match self {
            Shape::Bool => matches!(kind, SyntaxKind::Bool),
            Shape::Str => matches!(
                kind,
                SyntaxKind::String | SyntaxKind::MultiLineString | SyntaxKind::StringLiteral
                    | SyntaxKind::MultiLineStringLiteral
            ),
            Shape::Integer => matches!(
                kind,
                SyntaxKind::Integer | SyntaxKind::IntegerHex | SyntaxKind::IntegerOct
                    | SyntaxKind::IntegerBin
            ),
            Shape::Float => matches!(kind, SyntaxKind::Float),
            Shape::Date => matches!(kind, SyntaxKind::Date),
            Shape::Ident => matches!(kind, SyntaxKind::Ident),
            Shape::Key => matches!(kind, SyntaxKind::Key),
            Shape::Value => matches!(kind, SyntaxKind::Value),
            Shape::Entry => matches!(kind, SyntaxKind::Entry),
            Shape::Array => matches!(kind, SyntaxKind::Array),
            Shape::InlineTable => matches!(kind, SyntaxKind::InlineTable),
            Shape::TableHeader => matches!(kind, SyntaxKind::TableHeader),
            Shape::TableArrayHeader => matches!(kind, SyntaxKind::TableArrayHeader),
            Shape::Root => matches!(kind, SyntaxKind::Root),
        }
    }

    #[verifier::when_used_as_spec(spec_token_backed)]
    pub fn token_backed(self) -> (b: bool)
        ensures
            b == self.spec_token_backed(),
    {
        matches!(
            self,
            Shape::Bool | Shape::Str | Shape::Integer | Shape::Float | Shape::Date | Shape::Ident
        )
    }
}

/// A shape that is backed by a token accepts kinds of tokens only, and one
/// that is backed by a node accepts kinds of nodes only.
pub proof fn lemma_family(shape: Shape, kind: SyntaxKind)
    requires
        shape.spec_accepts(kind),
    ensures
        shape.spec_token_backed() == kind.spec_is_token(),
{
}

/// A non-owning view of one syntax element under one shape.
#[derive(Clone, Copy, Debug)]
pub struct TypedView<'a> {
    shape: Shape,
    syntax: &'a Element,
}

impl<'a> TypedView<'a> {
    pub closed spec fn spec_shape(&self) -> Shape {
        self.shape
    }

    pub closed spec fn spec_syntax(&self) -> Element {
        *self.syntax
    }

    /// The invariant of the type: the shape accepts the kind of the element.
    #[verifier::type_invariant]
    pub closed spec fn wf(&self) -> bool {
        self.shape.spec_accepts(self.syntax.spec_kind())
    }

    /// Views `element` under `shape`. There is a view exactly when the shape
    /// accepts the kind tag of the element.
    pub fn cast(shape: Shape, element: &'a Element) -> (r: Option<TypedView<'a>>)
        ensures
            r is Some <==> shape.spec_accepts(element.spec_kind()),
            r matches Some(v) ==> v.spec_shape() == shape && v.spec_syntax() == *element && v.wf(),
    {
        if shape.accepts(element.kind()) {
            Some(TypedView { shape, syntax: element })
        } else {
            None
        }
    }

    pub fn shape(&self) -> (s: Shape)
        ensures
            s == self.spec_shape(),
            s.spec_accepts(self.spec_syntax().spec_kind()),
    {
        proof {
            use_type_invariant(self);
        }
        self.shape
    }

    /// The element that the view wraps.
    pub fn syntax(&self) -> (e: &'a Element)
        ensures
            *e == self.spec_syntax(),
            self.spec_shape().spec_accepts(e.spec_kind()),
    {
        proof {
            use_type_invariant(self);
        }
        self.syntax
    }

    /// The kind tag of the wrapped element.
    pub fn kind(&self) -> (k: SyntaxKind)
        ensures
            k == self.spec_syntax().spec_kind(),
            self.spec_shape().spec_accepts(k),
    {
        proof {
            use_type_invariant(self);
        }
        self.syntax.kind()
    }

    /// The span of the wrapped element.
    pub fn text_range(&self) -> (r: TextRange)
        ensures
            r == self.spec_syntax().spec_text_range(),
    {
        self.syntax.text_range()
    }

    /// The exact source text of the span.
    pub fn render(&self) -> (s: String)
        ensures
            s@ == self.spec_syntax().text(),
    {
        self.syntax.render()
    }

    /// The first element directly below the wrapped one that `shape`
    /// accepts, viewed under it.
    pub fn first_child(&self, shape: Shape) -> (r: Option<TypedView<'a>>)
        ensures
            match first_match(self.spec_syntax().spec_children(), shape, 0) {
                Some(e) => r is Some && r.unwrap().spec_syntax() == e && r.unwrap().spec_shape()
                    == shape,
                None => r is None,
            },
    {
        let children: &'a Vec<Element> = self.syntax.children();
        let mut i: usize = 0;
        while i < children.len()
            invariant
                i <= children.len(),
                children@ == self.spec_syntax().spec_children(),
                first_match(children@, shape, 0) == first_match(children@, shape, i as int),
            decreases children.len() - i,
        {
            match TypedView::cast(shape, &children[i]) {
                Some(v) => {
                    return Some(v);
                },
                None => {},
            }
            i += 1;
        }
        None
    }

    /// The elements directly below the wrapped one that `shape` accepts, in
    /// source order, each viewed under it.
    pub fn children_of(&self, shape: Shape) -> (r: Vec<TypedView<'a>>)
        ensures
            syntaxes(r@) == matches_of(
                self.spec_syntax().spec_children(),
                shape,
                self.spec_syntax().spec_children().len() as int,
            ),
            forall|i: int| 0 <= i < r@.len() ==> (#[trigger] r@[i]).spec_shape() == shape,
    {
        let children: &'a Vec<Element> = self.syntax.children();
        let mut out: Vec<TypedView<'a>> = Vec::new();
        let mut i: usize = 0;
        while i < children.len()
            invariant
                i <= children.len(),
                children@ == self.spec_syntax().spec_children(),
                syntaxes(out@) == matches_of(children@, shape, i as int),
                forall|j: int| 0 <= j < out@.len() ==> (#[trigger] out@[j]).spec_shape() == shape,
            decreases children.len() - i,
        {
            let ghost before: Seq<TypedView<'a>> = out@;
            match TypedView::cast(shape, &children[i]) {
                Some(v) => {
                    out.push(v);
                    assert(syntaxes(out@) =~= syntaxes(before).push(children@[i as int]));
                },
                None => {},
            }
            i += 1;
        }
        out
    }
}

/// The first element of `s`, from index `from` on, whose kind `shape` accepts.
pub open spec fn first_match(s: Seq<Element>, shape: Shape, from: int) -> Option<Element>
    decreases s.len() - from,
{
    if from < 0 || from >= s.len() {
        None
    } else if shape.spec_accepts(s[from].spec_kind()) {
        Some(s[from])
    } else {
        first_match(s, shape, from + 1)
    }
}

/// What `first_match` finds is one of the elements, and `shape` accepts it.
pub proof fn lemma_first_match(s: Seq<Element>, shape: Shape, from: int)
    requires
        0 <= from,
    ensures
        first_match(s, shape, from) matches Some(e) ==> exists|i: int|
            from <= i < s.len() && #[trigger] s[i] == e && shape.spec_accepts(e.spec_kind()),
    decreases s.len() - from,
{
    if from < s.len() && !shape.spec_accepts(s[from].spec_kind()) {
        lemma_first_match(s, shape, from + 1);
    }
}

/// A child found by `first_match` is less high than its parent.
pub proof fn lemma_first_match_height(parent: Element, shape: Shape)
    ensures
        first_match(parent.spec_children(), shape, 0) matches Some(e) ==> e.height()
            < parent.height() && shape.spec_accepts(e.spec_kind()),
{
    lemma_first_match(parent.spec_children(), shape, 0);
    if let Some(e) = first_match(parent.spec_children(), shape, 0) {
        let i: int = choose|i: int|
            0 <= i < parent.spec_children().len() && #[trigger] parent.spec_children()[i] == e;
        parent.lemma_child_height(i);
    }
}

/// Those of the first `n` elements of `s` whose kind `shape` accepts, in order.
pub open spec fn matches_of(s: Seq<Element>, shape: Shape, n: int) -> Seq<Element>
    decreases n,
{
    if n <= 0 || n > s.len() {
        Seq::<Element>::empty()
    } else if shape.spec_accepts(s[n - 1].spec_kind()) {
        matches_of(s, shape, n - 1).push(s[n - 1])
    } else {
        matches_of(s, shape, n - 1)
    }
}

/// The elements that a run of views wraps.
pub open spec fn syntaxes(views: Seq<TypedView<'_>>) -> Seq<Element> {
    Seq::new(views.len(), |i: int| views[i].spec_syntax())
}

} // verus!
