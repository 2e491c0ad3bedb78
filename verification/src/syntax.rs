//! The lossless syntax tree: kind-tagged elements that span the whole text.

use vstd::prelude::*;
use vstd::string::*;
use crate::kind::SyntaxKind;
use crate::text::{bytes_of, lemma_bytes_of_concat, TextRange};

verus! {

/// One element of the tree. A token is a leaf and holds its text; a node
/// holds the elements below it, which cover its span without gap or overlap.
#[derive(Debug)]
pub struct Element {
    kind: SyntaxKind,
    start: usize,
    end: usize,
    text: String,
    children: Vec<Element>,
}

/// The text of the first `n` elements of `s`, one after the other.
pub open spec fn concat_texts(s: Seq<Element>, n: int) -> Seq<char>
    decreases s, n,
{
    if n <= 0 || n > s.len() {
        Seq::<char>::empty()
    } else {
        concat_texts(s, n - 1) + s[n - 1].text()
    }
}

/// Each element of `s` starts where the one before it ends, the first of
/// them at `start`.
pub open spec fn chained(s: Seq<Element>, start: int) -> bool {
    &&& s.len() > 0 ==> s[0].spec_start() == start
    &&& forall|i: int| 0 < i < s.len() ==> (#[trigger] s[i]).spec_start() == s[i - 1].spec_end()
}

/// Where a chain of elements that begins at `start` ends.
pub open spec fn chain_end(s: Seq<Element>, start: int) -> int {
    if s.len() == 0 {
        start
    } else {
        s.last().spec_end() as int
    }
}

/// One more than the greatest height among the first `n` elements of `s`;
/// zero when there is none.
pub closed spec fn max_height(s: Seq<Element>, n: int) -> nat
    decreases s, n,
{
    if n <= 0 || n > s.len() {
        0
    } else {
        let rest: nat = max_height(s, n - 1);
        let h: nat = s[n - 1].height() + 1;
        if h > rest {
            h
        } else {
            rest
        }
    }
}

/// Each of the first `n` elements is less high than their greatest height
/// and one.
pub proof fn lemma_max_height(s: Seq<Element>, n: int, i: int)
    requires
        0 <= i < n <= s.len(),
    ensures
        s[i].height() < max_height(s, n),
    decreases n,
{
    if i < n - 1 {
        lemma_max_height(s, n - 1, i);
    }
}

impl Element {
    pub closed spec fn spec_kind(&self) -> SyntaxKind {
        self.kind
    }

    pub closed spec fn spec_start(&self) -> usize {
        self.start
    }

    pub closed spec fn spec_end(&self) -> usize {
        self.end
    }

    /// The text that a token holds; empty for a node.
    pub closed spec fn spec_token_text(&self) -> Seq<char> {
        self.text@
    }

    pub closed spec fn spec_children(&self) -> Seq<Element> {
        self.children@
    }

    pub open spec fn spec_text_range(&self) -> TextRange {
        TextRange { start: self.spec_start(), end: self.spec_end() }
    }

    pub open spec fn spec_is_token(&self) -> bool {
        self.spec_kind().spec_is_token()
    }

    /// The source text that the element spans: the texts of the tokens under
    /// it, in order.
    pub open spec fn text(&self) -> Seq<char>
        decreases self,
    {
        if self.spec_kind().spec_is_token() {
            self.spec_token_text()
        } else {
            concat_texts(self.spec_children(), self.spec_children().len() as int)
        }
    }

    /// The invariant of the type. A token has no children and is as wide as
    /// its text has bytes; a node has no text of its own, and its children
    /// are well formed and cover its span exactly.
    #[verifier::type_invariant]
    pub closed spec fn wf(&self) -> bool
        decreases self,
    {
        &&& self.start <= self.end
        &&& if self.kind.spec_is_token() {
            &&& self.children@.len() == 0
            &&& self.end - self.start == bytes_of(self.text@).len()
        } else {
            &&& self.text@.len() == 0
            &&& forall|i: int| 0 <= i < self.children@.len() ==> (#[trigger] self.children@[i]).wf()
            &&& chained(self.children@, self.start as int)
            &&& self.end == chain_end(self.children@, self.start as int)
        }
    }

    /// How many levels of elements lie below this one.
    pub closed spec fn height(&self) -> nat
        decreases self,
    {
        max_height(self.children@, self.children@.len() as int)
    }

    /// The height of an element is that of its children and one.
    pub proof fn lemma_height(&self)
        ensures
            self.height() == max_height(self.spec_children(), self.spec_children().len() as int),
    {
    }

    /// Each child is less high than its parent.
    pub proof fn lemma_child_height(&self, i: int)
        requires
            0 <= i < self.spec_children().len(),
        ensures
            self.spec_children()[i].height() < self.height(),
    {
        lemma_max_height(self.children@, self.children@.len() as int, i);
    }

    /// The element reached from this one by taking, at each level, the child
    /// whose index `path` gives.
    pub open spec fn descendant(&self, path: Seq<int>) -> Option<Element>
        decreases path.len(),
    {
        if path.len() == 0 {
            Some(*self)
        } else if 0 <= path[0] < self.spec_children().len() {
            self.spec_children()[path[0]].descendant(path.drop_first())
        } else {
            None
        }
    }

    /// A child of a well-formed element is well formed and lies within the
    /// span of its parent.
    pub proof fn lemma_child_span(&self, i: int)
        requires
            self.wf(),
            0 <= i < self.spec_children().len(),
        ensures
            self.spec_children()[i].wf(),
            self.spec_start() <= self.spec_children()[i].spec_start(),
            self.spec_children()[i].spec_start() <= self.spec_children()[i].spec_end(),
            self.spec_children()[i].spec_end() <= self.spec_end(),
    {
        self.lemma_width();
        Self::lemma_child_bytes(
            self.children@,
            self.start as int,
            i,
            self.children@.len() as int,
        );
    }

    /// An element is as wide as its text has bytes.
    pub proof fn lemma_width(&self)
        requires
            self.wf(),
        ensures
            self.spec_start() + bytes_of(self.text()).len() == self.spec_end(),
        decreases self, 1int,
    {
        if !self.kind.spec_is_token() {
            Self::lemma_prefix_width(self.children@, self.start as int, self.children@.len() as int);
        }
    }

    /// The first `n` elements of a chain of well-formed elements are together
    /// as wide as their text has bytes.
    pub proof fn lemma_prefix_width(s: Seq<Element>, start: int, n: int)
        requires
            forall|i: int| 0 <= i < s.len() ==> (#[trigger] s[i]).wf(),
            chained(s, start),
            0 <= n <= s.len(),
        ensures
            start + bytes_of(concat_texts(s, n)).len() == chain_end(s.subrange(0, n), start),
        decreases s, 0int, n,
    {
        if n > 0 {
            Self::lemma_prefix_width(s, start, n - 1);
            s[n - 1].lemma_width();
            lemma_bytes_of_concat(concat_texts(s, n - 1), s[n - 1].text());
            assert(s.subrange(0, n).last() == s[n - 1]);
            if n > 1 {
                assert(s.subrange(0, n - 1).last() == s[n - 2]);
            }
        }
    }

    /// The text of a run of elements does not depend on what follows it.
    pub proof fn lemma_concat_prefix(a: Seq<Element>, b: Seq<Element>, n: int)
        requires
            0 <= n <= a.len(),
            n <= b.len(),
            a.subrange(0, n) == b.subrange(0, n),
        ensures
            concat_texts(a, n) == concat_texts(b, n),
        decreases n,
    {
        if n > 0 {
            assert(a.subrange(0, n - 1) =~= a.subrange(0, n).subrange(0, n - 1));
            assert(b.subrange(0, n - 1) =~= b.subrange(0, n).subrange(0, n - 1));
            assert(a[n - 1] == a.subrange(0, n)[n - 1]);
            assert(b[n - 1] == b.subrange(0, n)[n - 1]);
            Self::lemma_concat_prefix(a, b, n - 1);
        }
    }

    /// The text of a run with one more element at its end.
    pub proof fn lemma_concat_push(s: Seq<Element>, e: Element)
        ensures
            concat_texts(s.push(e), s.len() as int + 1) == concat_texts(s, s.len() as int) + e.text(),
    {
        assert(s.push(e).subrange(0, s.len() as int) =~= s.subrange(0, s.len() as int));
        Self::lemma_concat_prefix(s.push(e), s, s.len() as int);
    }

    /// The bytes of the `i`-th of a chain of well-formed elements are those
    /// that the text of the first `n` holds at its place.
    pub proof fn lemma_child_bytes(s: Seq<Element>, start: int, i: int, n: int)
        requires
            forall|j: int| 0 <= j < s.len() ==> (#[trigger] s[j]).wf(),
            chained(s, start),
            0 <= i < n <= s.len(),
        ensures
            start <= s[i].spec_start() <= s[i].spec_end() <= start + bytes_of(
                concat_texts(s, n),
            ).len(),
            bytes_of(s[i].text()) == bytes_of(concat_texts(s, n)).subrange(
                s[i].spec_start() - start,
                s[i].spec_end() - start,
            ),
        decreases n,
    {
        s[i].lemma_width();
        Self::lemma_prefix_width(s, start, i);
        Self::lemma_prefix_width(s, start, n - 1);
        lemma_bytes_of_concat(concat_texts(s, n - 1), s[n - 1].text());
        s[n - 1].lemma_width();
        if i > 0 {
            assert(s.subrange(0, i).last() == s[i - 1]);
        }
        if n - 1 > 0 {
            assert(s.subrange(0, n - 1).last() == s[n - 2]);
        }
        let whole: Seq<u8> = bytes_of(concat_texts(s, n));
        let head: Seq<u8> = bytes_of(concat_texts(s, n - 1));
        let tail: Seq<u8> = bytes_of(s[n - 1].text());
        assert(whole == head + tail);
        if i == n - 1 {
            assert(whole.subrange(head.len() as int, whole.len() as int) =~= tail);
        } else {
            Self::lemma_child_bytes(s, start, i, n - 1);
            assert(whole.subrange(s[i].spec_start() - start, s[i].spec_end() - start)
                =~= head.subrange(s[i].spec_start() - start, s[i].spec_end() - start));
        }
    }

    /// Losslessness. The span of an element that lies anywhere in a tree is
    /// within the span of the root, and its text is exactly what the text of
    /// the root holds over that span.
    pub proof fn lemma_span_fidelity(&self, path: Seq<int>)
        requires
            self.wf(),
            self.descendant(path) is Some,
        ensures
            ({
                let e: Element = self.descendant(path).unwrap();
                &&& e.wf()
                &&& self.spec_start() <= e.spec_start() <= e.spec_end() <= self.spec_end()
                &&& bytes_of(e.text()) == bytes_of(self.text()).subrange(
                    e.spec_start() - self.spec_start(),
                    e.spec_end() - self.spec_start(),
                )
            }),
        decreases path.len(),
    {
        self.lemma_width();
        if path.len() == 0 {
            assert(bytes_of(self.text()).subrange(0, self.spec_end() - self.spec_start())
                =~= bytes_of(self.text()));
        } else {
            let i: int = path[0];
            let child: Element = self.children@[i];
            let e: Element = child.descendant(path.drop_first()).unwrap();
            child.lemma_span_fidelity(path.drop_first());
            Self::lemma_child_bytes(
                self.children@,
                self.start as int,
                i,
                self.children@.len() as int,
            );
            let whole: Seq<u8> = bytes_of(self.text());
            let mid: Seq<u8> = bytes_of(child.text());
            assert(mid.subrange(e.spec_start() - child.spec_start(), e.spec_end() - child.spec_start())
                =~= whole.subrange(e.spec_start() - self.start, e.spec_end() - self.start));
        }
    }

    /// Makes a token. `None` when `kind` is a kind of node, or when the token
    /// would end past the largest offset.
    pub fn token(kind: SyntaxKind, start: usize, text: String) -> (r: Option<Element>)
        ensures
            r is Some <==> kind.spec_is_token() && start + bytes_of(text@).len() <= usize::MAX,
            r matches Some(e) ==> {
                &&& e.wf()
                &&& e.spec_kind() == kind
                &&& e.spec_start() == start
                &&& e.spec_end() == start + bytes_of(text@).len()
                &&& e.spec_token_text() == text@
                &&& e.spec_children().len() == 0
            },
    {
        let n: usize = text.as_str().as_bytes().len();
        if !kind.is_token() || n > usize::MAX - start {
            return None;
        }
        let children: Vec<Element> = Vec::new();
        assert(n == bytes_of(text@).len());
        assert(children@.len() == 0);
        Some(Element { kind, start, end: start + n, text, children })
    }

    /// Makes a node over `children`. `None` when `kind` is a kind of token,
    /// or when the children do not follow one another from `start` on.
    pub fn node(kind: SyntaxKind, start: usize, children: Vec<Element>) -> (r: Option<Element>)
        ensures
            r is Some <==> !kind.spec_is_token() && chained(children@, start as int),
            r matches Some(e) ==> {
                &&& e.wf()
                &&& e.spec_kind() == kind
                &&& e.spec_start() == start
                &&& e.spec_end() == chain_end(children@, start as int)
                &&& e.spec_token_text().len() == 0
                &&& e.spec_children() == children@
            },
    {
        if kind.is_token() {
            return None;
        }
        let mut at: usize = start;
        let mut i: usize = 0;
        while i < children.len()
            invariant
                i <= children.len(),
                start <= at,
                at == chain_end(children@.subrange(0, i as int), start as int),
                chained(children@.subrange(0, i as int), start as int),
                forall|j: int| 0 <= j < i ==> (#[trigger] children@[j]).wf(),
            decreases children.len() - i,
        {
            let c: &Element = &children[i];
            proof {
                use_type_invariant(c);
                if i > 0 {
                    assert(children@.subrange(0, i as int).last() == children@[i - 1]);
                }
            }
            if c.start != at {
                proof {
                    if chained(children@, start as int) {
                        if i > 0 {
                            assert(children@[i as int].spec_start() == children@[i - 1].spec_end());
                        }
                    }
                }
                return None;
            }
            at = c.end;
            i += 1;
            proof {
                let next: Seq<Element> = children@.subrange(0, i as int);
                assert(next.last() == children@[i - 1]);
                assert forall|j: int| 0 < j < next.len() implies (#[trigger] next[j]).spec_start()
                    == next[j - 1].spec_end() by {
                    if j < i - 1 {
                        let before: Seq<Element> = children@.subrange(0, i - 1);
                        assert(before[j].spec_start() == before[j - 1].spec_end());
                    }
                }
            }
        }
        assert(children@.subrange(0, i as int) =~= children@);
        Some(Element { kind, start, end: at, text: String::new(), children })
    }

    #[verifier::when_used_as_spec(spec_kind)]
    pub fn kind(&self) -> (k: SyntaxKind)
        ensures
            k == self.spec_kind(),
    {
        self.kind
    }

    #[verifier::when_used_as_spec(spec_is_token)]
    pub fn is_token(&self) -> (b: bool)
        ensures
            b == self.spec_is_token(),
    {
        self.kind.is_token()
    }

    /// The range of byte offsets that the element spans.
    #[verifier::when_used_as_spec(spec_text_range)]
    pub fn text_range(&self) -> (r: TextRange)
        ensures
            r == self.spec_text_range(),
            r.start <= r.end,
    {
        proof {
            use_type_invariant(self);
        }
        TextRange { start: self.start, end: self.end }
    }

    /// The elements directly below this one, in source order.
    pub fn children(&self) -> (c: &Vec<Element>)
        ensures
            c@ == self.spec_children(),
            self.wf(),
            forall|i: int| 0 <= i < c@.len() ==> (#[trigger] c@[i]).wf(),
    {
        proof {
            use_type_invariant(self);
            assert forall|i: int| 0 <= i < self.children@.len() implies (
            #[trigger] self.children@[i]).wf() by {}
        }
        &self.children
    }

    /// The text of a token; the empty text for a node.
    pub fn token_text(&self) -> (s: &str)
        ensures
            s@ == self.spec_token_text(),
    {
        self.text.as_str()
    }

    /// Renders the element: the exact source text of its span.
    pub fn render(&self) -> (s: String)
        ensures
            s@ == self.text(),
        decreases self,
    {
        if self.kind.is_token() {
            self.text.clone()
        } else {
            let mut s: String = String::new();
            let mut i: usize = 0;
            while i < self.children.len()
                invariant
                    i <= self.children.len(),
                    s@ == concat_texts(self.children@, i as int),
                decreases self.children.len() - i,
            {
                let part: String = self.children[i].render();
                s.append(part.as_str());
                i += 1;
            }
            s
        }
    }
}

} // verus!
