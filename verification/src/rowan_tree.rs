//! Trees of the `rowan` crate, read as syntax trees of this library.
//!
//! A tree is taken over as the list of the steps of a walk through it. The
//! list is checked while the tree is rebuilt from it, so nothing has to be
//! assumed of where it came from.

use vstd::prelude::*;
use vstd::string::*;
use crate::kind::{SyntaxKind, KIND_COUNT};
use crate::parser::Open;
use crate::syntax::{lemma_max_height, max_height, Element};
use crate::text::bytes_of;

verus! {

/// A node of a tree of `rowan`, without the type of its language
/// (`rowan::cursor::SyntaxNode`).
#[verifier::external_type_specification]
#[verifier::external_body]
pub struct ExSyntaxNode(rowan::cursor::SyntaxNode);

/// One step of a walk through a tree in document order: into a node, over a
/// token, or out of a node. Kinds are raw codes.
#[derive(Debug, Clone, PartialEq, Eq)]
pub enum WalkItem {
    Enter(u16),
    Token(u16, String),
    Leave,
}

/// What a step is, as plain values.
pub enum WalkModel {
    Enter(u16),
    Token(u16, Seq<char>),
    Leave,
}

impl View for WalkItem {
    type V = WalkModel;

    open spec fn view(&self) -> WalkModel {
        match self {
            WalkItem::Enter(kind) => WalkModel::Enter(*kind),
            WalkItem::Token(kind, text) => WalkModel::Token(*kind, text@),
            WalkItem::Leave => WalkModel::Leave,
        }
    }
}

/// The models of a run of steps.
pub open spec fn walk_models(s: Seq<WalkItem>) -> Seq<WalkModel> {
    Seq::new(s.len(), |i: int| s[i]@)
}

/// The walk through an element: a token is one step; a node is entered, its
/// children are walked through in order, and it is left.
pub open spec fn walk_of(e: Element) -> Seq<WalkModel>
    decreases e.height(), 1int, 0int,
{
    if e.spec_is_token() {
        seq![WalkModel::Token(e.spec_kind().spec_code(), e.spec_token_text())]
    } else {
        proof {
            e.lemma_height();
        }
        seq![WalkModel::Enter(e.spec_kind().spec_code())] + walk_through(
            e.spec_children(),
            e.spec_children().len() as int,
        ) + seq![WalkModel::Leave]
    }
}

/// The walk through the first `n` elements of `s`, one after the other.
pub open spec fn walk_through(s: Seq<Element>, n: int) -> Seq<WalkModel>
    decreases max_height(s, s.len() as int), 0int, n,
{
    if n <= 0 || n > s.len() {
        Seq::<WalkModel>::empty()
    } else {
        proof {
            lemma_max_height(s, s.len() as int, n - 1);
        }
        walk_through(s, n - 1) + walk_of(s[n - 1])
    }
}

/// How many nodes are open after the first `n` steps.
pub open spec fn depth(items: Seq<WalkModel>, n: int) -> int
    decreases n,
{
    if n <= 0 || n > items.len() {
        0
    } else {
        depth(items, n - 1) + match items[n - 1] {
            WalkModel::Enter(_) => 1int,
            WalkModel::Token(_, _) => 0int,
            WalkModel::Leave => -1int,
        }
    }
}

/// How many bytes the tokens among the first `n` steps hold.
pub open spec fn bytes_in(items: Seq<WalkModel>, n: int) -> nat
    decreases n,
{
    if n <= 0 || n > items.len() {
        0
    } else {
        bytes_in(items, n - 1) + match items[n - 1] {
            WalkModel::Token(_, text) => bytes_of(text).len(),
            _ => 0nat,
        }
    }
}

/// Whether a raw code is the code of a kind of token.
pub open spec fn token_code(code: u16) -> bool {
    code <= 22
}

/// Whether a raw code is the code of a kind of node.
pub open spec fn node_code(code: u16) -> bool {
    22 < code < KIND_COUNT
}

/// A step names a kind that fits it.
pub open spec fn fitting(item: WalkModel) -> bool {
    match item {
        WalkModel::Enter(code) => node_code(code),
        WalkModel::Token(code, _) => token_code(code),
        WalkModel::Leave => true,
    }
}

/// The steps are the walk through one tree that this library can hold: they
/// start by entering a node and leave it with the last step and not before,
/// each names a kind that fits it, and the text of the tokens is not longer
/// than an offset can tell.
pub open spec fn valid_walk(items: Seq<WalkModel>) -> bool {
    &&& items.len() > 0
    &&& items[0] is Enter
    &&& forall|j: int| 0 <= j < items.len() ==> fitting(#[trigger] items[j])
    &&& forall|j: int| 0 < j < items.len() ==> #[trigger] depth(items, j) > 0
    &&& depth(items, items.len() as int) == 0
    &&& bytes_in(items, items.len() as int) <= usize::MAX
}

/// The walk through a run with one more element at its end.
pub proof fn lemma_walk_push(s: Seq<Element>, e: Element)
    ensures
        walk_through(s.push(e), s.len() as int + 1) == walk_through(s, s.len() as int) + walk_of(e),
{
    lemma_walk_prefix(s.push(e), s, s.len() as int);
}

/// The walk through a run does not depend on what follows it.
pub proof fn lemma_walk_prefix(a: Seq<Element>, b: Seq<Element>, n: int)
    requires
        0 <= n <= a.len(),
        n <= b.len(),
        forall|i: int| 0 <= i < n ==> a[i] == b[i],
    ensures
        walk_through(a, n) == walk_through(b, n),
    decreases n,
{
    if n > 0 {
        lemma_walk_prefix(a, b, n - 1);
    }
}

/// The bytes of tokens only grow along a walk.
pub proof fn lemma_bytes_grow(items: Seq<WalkModel>, i: int, n: int)
    requires
        0 <= i <= n <= items.len(),
    ensures
        bytes_in(items, i) <= bytes_in(items, n),
    decreases n - i,
{
    if i < n {
        lemma_bytes_grow(items, i, n - 1);
    }
}

/// What a tree of `rowan` holds: the steps of the walk through it in
/// document order, as `rowan::cursor::SyntaxNode::preorder_with_tokens`
/// takes them, with the raw kind of each node and token and the text of each
/// token. The trees of `rowan` do not change, so the steps are a function of
/// the tree; nothing else is said of them.
pub uninterp spec fn steps_of(root: rowan::cursor::SyntaxNode) -> Seq<WalkModel>;

/// The steps of the walk through a tree of `rowan`: calls
/// `rowan::cursor::SyntaxNode::preorder_with_tokens` and, on what it
/// visits, `kind` and `text`. The list is what the tree holds; nothing is
/// claimed of its shape.
#[verifier::external_body]
fn walk_items(root: &rowan::cursor::SyntaxNode) -> (items: Vec<WalkItem>)
    ensures
        walk_models(items@) == steps_of(*root),
{
    let mut items = Vec::new();
    for event in root.preorder_with_tokens() {
        match event {
            rowan::WalkEvent::Enter(rowan::NodeOrToken::Node(n)) => items.push(WalkItem::Enter(n.kind().0)),
            rowan::WalkEvent::Enter(rowan::NodeOrToken::Token(t)) => items.push(WalkItem::Token(t.kind().0, t.text().to_string())),
            rowan::WalkEvent::Leave(rowan::NodeOrToken::Node(_)) => items.push(WalkItem::Leave),
            rowan::WalkEvent::Leave(rowan::NodeOrToken::Token(_)) => {},
        }
    }
    items
}

/// The steps that lead to the first `k` of a stack of open nodes: each is
/// entered, and what it has gathered is walked through.
pub open spec fn walk_so_far(stack: Seq<Open>, k: int) -> Seq<WalkModel>
    decreases k,
{
    if k <= 0 || k > stack.len() {
        Seq::<WalkModel>::empty()
    } else {
        walk_so_far(stack, k - 1) + seq![WalkModel::Enter(stack[k - 1].kind.spec_code())]
            + walk_through(stack[k - 1].children@, stack[k - 1].children@.len() as int)
    }
}

/// The open nodes are well formed, the first starts the text, each starts
/// where the one that holds it ends so far, and the last ends at `pos`.
pub open spec fn linked(stack: Seq<Open>, pos: int) -> bool {
    &&& forall|j: int| 0 <= j < stack.len() ==> #[trigger] sound(stack, j)
    &&& forall|j: int| 0 < j < stack.len() ==> #[trigger] joined(stack, j)
    &&& stack.len() > 0 ==> stack[0].start == 0 && stack.last().end == pos
}

/// The open node at `j` is well formed.
pub open spec fn sound(stack: Seq<Open>, j: int) -> bool {
    stack[j].inv()
}

/// The open node at `j` starts where the one that holds it ends so far.
pub open spec fn joined(stack: Seq<Open>, j: int) -> bool {
    stack[j].start == stack[j - 1].end
}

proof fn lemma_so_far_prefix(a: Seq<Open>, b: Seq<Open>, k: int)
    requires
        0 <= k <= a.len(),
        k <= b.len(),
        forall|i: int| 0 <= i < k ==> a[i] == b[i],
    ensures
        walk_so_far(a, k) == walk_so_far(b, k),
    decreases k,
{
    if k > 0 {
        lemma_so_far_prefix(a, b, k - 1);
    }
}

/// Rebuilding has taken the first `i` steps: the open nodes are those that
/// these steps entered and did not leave, and hold what the steps walked
/// through.
pub open spec fn reached(stack: Seq<Open>, pos: int, models: Seq<WalkModel>, i: int) -> bool {
    &&& 0 <= i <= models.len()
    &&& stack.len() == depth(models, i)
    &&& (i > 0 ==> stack.len() > 0 && models[0] is Enter)
    &&& forall|j: int| 0 < j <= i ==> #[trigger] depth(models, j) > 0
    &&& forall|j: int| 0 <= j < i ==> fitting(#[trigger] models[j])
    &&& linked(stack, pos)
    &&& pos == bytes_in(models, i)
    &&& walk_so_far(stack, stack.len() as int) == models.subrange(0, i)
}

/// An empty node opened at `pos` on top of a linked stack keeps it linked,
/// and adds the step that enters it.
proof fn lemma_open_top(before: Seq<Open>, open: Open, pos: int)
    requires
        linked(before, pos),
        before.len() == 0 ==> pos == 0,
        open.inv(),
        open.start == pos,
        open.end == pos,
        open.children@.len() == 0,
    ensures
        linked(before.push(open), pos),
        walk_so_far(before.push(open), before.len() as int + 1) == walk_so_far(
            before,
            before.len() as int,
        ).push(WalkModel::Enter(open.kind.spec_code())),
{
    let after: Seq<Open> = before.push(open);
    lemma_so_far_prefix(after, before, before.len() as int);
    assert(walk_through(open.children@, 0) =~= Seq::<WalkModel>::empty());
    assert(walk_so_far(after, after.len() as int) =~= walk_so_far(
        before,
        before.len() as int,
    ).push(WalkModel::Enter(open.kind.spec_code())));
    assert forall|j: int| 0 < j < after.len() implies #[trigger] joined(after, j) by {
        if j < before.len() {
            assert(joined(before, j));
        }
    }
    assert forall|j: int| 0 <= j < after.len() implies #[trigger] sound(after, j) by {
        if j < before.len() {
            assert(sound(before, j));
        }
    }
}

/// A stack whose top has gathered one more element, up to `pos`, stays
/// linked, and the walk through the element is added to its steps.
proof fn lemma_grow_top(base: Seq<Open>, top: Open, grown: Open, e: Element, pos: int)
    requires
        linked(base.push(top), top.end as int),
        grown.inv(),
        grown.kind == top.kind,
        grown.start == top.start,
        grown.end == pos,
        grown.children@ == top.children@.push(e),
    ensures
        linked(base.push(grown), pos),
        walk_so_far(base.push(grown), base.len() as int + 1) == walk_so_far(
            base.push(top),
            base.len() as int + 1,
        ) + walk_of(e),
{
    let before: Seq<Open> = base.push(top);
    let after: Seq<Open> = base.push(grown);
    lemma_so_far_prefix(after, before, base.len() as int);
    lemma_walk_push(top.children@, e);
    assert(walk_so_far(after, after.len() as int) =~= walk_so_far(before, before.len() as int)
        + walk_of(e));
    assert forall|j: int| 0 < j < after.len() implies #[trigger] joined(after, j) by {
        assert(joined(before, j));
    }
    assert forall|j: int| 0 <= j < after.len() implies #[trigger] sound(after, j) by {
        if j < base.len() {
            assert(sound(before, j));
        }
    }
}

/// A linked stack without its top is linked up to where the top started.
proof fn lemma_drop_top(base: Seq<Open>, top: Open, pos: int)
    requires
        linked(base.push(top), pos),
    ensures
        base.len() > 0 ==> linked(base, base.last().end as int) && base.last().end == top.start,
        base.len() == 0 ==> top.start == 0,
        top.inv(),
        top.end == pos,
        walk_so_far(base.push(top), base.len() as int + 1) == walk_so_far(base, base.len() as int)
            + seq![WalkModel::Enter(top.kind.spec_code())] + walk_through(
            top.children@,
            top.children@.len() as int,
        ),
{
    let before: Seq<Open> = base.push(top);
    lemma_so_far_prefix(before, base, base.len() as int);
    assert(before.last() == top);
    assert(sound(before, base.len() as int));
    assert forall|j: int| 0 <= j < base.len() implies #[trigger] sound(base, j) by {
        assert(sound(before, j));
    }
    assert forall|j: int| 0 < j < base.len() implies #[trigger] joined(base, j) by {
        assert(joined(before, j));
    }
    if base.len() > 0 {
        assert(joined(before, base.len() as int));
    }
}

/// The outcome of one step of rebuilding.
enum Step {
    Next(Vec<Open>, usize),
    Done(Element),
    Bad,
}

/// What the outcome of the step at `i` says.
spec fn stepped(step: Step, models: Seq<WalkModel>, i: int) -> bool {
    match step {
        Step::Next(stack, pos) => reached(stack@, pos as int, models, i + 1),
        Step::Done(e) => {
            &&& valid_walk(models)
            &&& e.wf()
            &&& e.spec_start() == 0
            &&& !e.spec_is_token()
            &&& walk_of(e) == models
        },
        Step::Bad => !valid_walk(models),
    }
}

fn step_enter(
    stack: Vec<Open>,
    pos: usize,
    code: u16,
    Ghost(models): Ghost<Seq<WalkModel>>,
    Ghost(i): Ghost<int>,
) -> (r: Step)
    requires
        reached(stack@, pos as int, models, i),
        i < models.len(),
        models[i] == WalkModel::Enter(code),
    ensures
        stepped(r, models, i),
{
    let kind: SyntaxKind = match SyntaxKind::from_code(code) {
        Some(k) => k,
        None => {
            assert(!fitting(models[i]));
            return Step::Bad;
        },
    };
    if kind.is_token() {
        assert(!fitting(models[i]));
        return Step::Bad;
    }
    let open: Open = Open::new(kind, pos);
    let ghost before: Seq<Open> = stack@;
    let mut stack: Vec<Open> = stack;
    stack.push(open);
    proof {
        lemma_open_top(before, open, pos as int);
        assert(models.subrange(0, i).push(models[i]) =~= models.subrange(0, i + 1));
    }
    Step::Next(stack, pos)
}

fn step_token(
    stack: Vec<Open>,
    pos: usize,
    code: u16,
    text: &String,
    Ghost(models): Ghost<Seq<WalkModel>>,
    Ghost(i): Ghost<int>,
) -> (r: Step)
    requires
        reached(stack@, pos as int, models, i),
        i < models.len(),
        models[i] == WalkModel::Token(code, text@),
    ensures
        stepped(r, models, i),
{
    let kind: SyntaxKind = match SyntaxKind::from_code(code) {
        Some(k) => k,
        None => {
            assert(!fitting(models[i]));
            return Step::Bad;
        },
    };
    if !kind.is_token() {
        assert(!fitting(models[i]));
        return Step::Bad;
    }
    let ghost before: Seq<Open> = stack@;
    let mut stack: Vec<Open> = stack;
    let top: Open = match stack.pop() {
        Some(t) => t,
        None => {
            assert(!(models[0] is Enter));
            return Step::Bad;
        },
    };
    let ghost base: Seq<Open> = stack@;
    assert(before =~= base.push(top));
    let e: Element = match Element::token(kind, pos, text.clone()) {
        Some(e) => e,
        None => {
            proof {
                lemma_bytes_grow(models, i + 1, models.len() as int);
            }
            return Step::Bad;
        },
    };
    let end: usize = e.text_range().end;
    proof {
        lemma_drop_top(base, top, pos as int);
    }
    let grown: Open = top.add(e);
    stack.push(grown);
    proof {
        lemma_grow_top(base, top, grown, e, end as int);
        assert(walk_of(e) =~= seq![models[i]]);
        assert(models.subrange(0, i) + seq![models[i]] =~= models.subrange(0, i + 1));
    }
    Step::Next(stack, end)
}

fn step_leave(
    stack: Vec<Open>,
    pos: usize,
    last: bool,
    Ghost(models): Ghost<Seq<WalkModel>>,
    Ghost(i): Ghost<int>,
) -> (r: Step)
    requires
        reached(stack@, pos as int, models, i),
        i < models.len(),
        models[i] == WalkModel::Leave,
        last == (i + 1 == models.len()),
    ensures
        stepped(r, models, i),
{
    let ghost before: Seq<Open> = stack@;
    let mut stack: Vec<Open> = stack;
    let top: Open = match stack.pop() {
        Some(t) => t,
        None => {
            assert(!(models[0] is Enter));
            return Step::Bad;
        },
    };
    let ghost base: Seq<Open> = stack@;
    assert(before =~= base.push(top));
    proof {
        lemma_drop_top(base, top, pos as int);
    }
    let ghost code: u16 = top.kind.spec_code();
    let ghost gathered: Seq<Element> = top.children@;
    let e: Element = top.close();
    proof {
        assert(walk_of(e) =~= seq![WalkModel::Enter(code)] + walk_through(
            gathered,
            gathered.len() as int,
        ) + seq![WalkModel::Leave]);
        assert(models.subrange(0, i) + seq![models[i]] =~= models.subrange(0, i + 1));
    }
    match stack.pop() {
        None => {
            proof {
                assert(base.len() == 0);
                assert(walk_so_far(base, 0) =~= Seq::<WalkModel>::empty());
                assert(depth(models, i + 1) == 0);
                assert(walk_of(e) =~= models.subrange(0, i + 1));
                if i + 1 == models.len() {
                    assert(models.subrange(0, i + 1) =~= models);
                }
            }
            if last {
                Step::Done(e)
            } else {
                Step::Bad
            }
        },
        Some(parent) => {
            let ghost rest: Seq<Open> = stack@;
            assert(base =~= rest.push(parent));
            assert(sound(base, base.len() - 1));
            assert(parent == base.last());
            let grown: Open = parent.add(e);
            stack.push(grown);
            proof {
                lemma_grow_top(rest, parent, grown, e, pos as int);
                assert(walk_so_far(stack@, stack@.len() as int) =~= walk_so_far(
                    before,
                    before.len() as int,
                ) + seq![models[i]]);
            }
            Step::Next(stack, pos)
        },
    }
}

/// Rebuilds a tree from the steps of a walk through it. There is a tree
/// exactly when the steps are a valid walk, and the walk through the tree
/// that comes back is the list of steps itself.
pub fn tree_from_walk(items: &Vec<WalkItem>) -> (r: Option<Element>)
    ensures
        r is Some <==> valid_walk(walk_models(items@)),
        r matches Some(e) ==> {
            &&& e.wf()
            &&& e.spec_start() == 0
            &&& !e.spec_is_token()
            &&& walk_of(e) == walk_models(items@)
        },
{
    let ghost models: Seq<WalkModel> = walk_models(items@);
    let n: usize = items.len();
    let mut stack: Vec<Open> = Vec::new();
    let mut pos: usize = 0;
    let mut i: usize = 0;
    assert(walk_so_far(stack@, 0) =~= models.subrange(0, 0));
    while i < n
        invariant
            i <= n,
            n == items@.len(),
            models == walk_models(items@),
            reached(stack@, pos as int, models, i as int),
        decreases n - i,
    {
        assert(models[i as int] == items@[i as int]@);
        let step: Step = match &items[i] {
            WalkItem::Enter(code) => step_enter(stack, pos, *code, Ghost(models), Ghost(i as int)),
            WalkItem::Token(code, text) => step_token(
                stack,
                pos,
                *code,
                text,
                Ghost(models),
                Ghost(i as int),
            ),
            WalkItem::Leave => step_leave(stack, pos, i + 1 == n, Ghost(models), Ghost(i as int)),
        };
        match step {
            Step::Next(s, p) => {
                stack = s;
                pos = p;
            },
            Step::Done(e) => {
                return Some(e);
            },
            Step::Bad => {
                return None;
            },
        }
        i += 1;
    }
    None
}

/// Reads a tree of `rowan` as a syntax tree of this library. There is a
/// tree exactly when the steps through the tree of `rowan` are a valid walk:
/// not when it holds a kind that the library does not know, or a token where
/// a node belongs, or more text than an offset can tell. The tree that
/// comes back holds the same steps.
pub fn from_rowan(root: &rowan::cursor::SyntaxNode) -> (r: Option<Element>)
    ensures
        r is Some <==> valid_walk(steps_of(*root)),
        r matches Some(e) ==> {
            &&& e.wf()
            &&& e.spec_start() == 0
            &&& !e.spec_is_token()
            &&& walk_of(e) == steps_of(*root)
        },
{
    let items: Vec<WalkItem> = walk_items(root);
    tree_from_walk(&items)
}

/// The steps of the walk through an element.
pub fn walk(e: &Element) -> (items: Vec<WalkItem>)
    ensures
        walk_models(items@) == walk_of(*e),
    decreases e.height(),
{
    let mut items: Vec<WalkItem> = Vec::new();
    if e.is_token() {
        items.push(WalkItem::Token(e.kind().code(), String::from_str(e.token_text())));
        assert(walk_models(items@) =~= walk_of(*e));
    } else {
        items.push(WalkItem::Enter(e.kind().code()));
        let children: &Vec<Element> = e.children();
        let mut i: usize = 0;
        assert(walk_models(items@) =~= seq![WalkModel::Enter(e.spec_kind().spec_code())]
            + walk_through(children@, 0));
        while i < children.len()
            invariant
                i <= children.len(),
                children@ == e.spec_children(),
                walk_models(items@) == seq![WalkModel::Enter(e.spec_kind().spec_code())]
                    + walk_through(children@, i as int),
            decreases children.len() - i,
        {
            proof {
                e.lemma_child_height(i as int);
            }
            let mut part: Vec<WalkItem> = walk(&children[i]);
            let ghost before: Seq<WalkItem> = items@;
            let ghost added: Seq<WalkItem> = part@;
            items.append(&mut part);
            assert(walk_models(items@) =~= walk_models(before) + walk_models(added));
            i += 1;
        }
        let ghost before: Seq<WalkItem> = items@;
        items.push(WalkItem::Leave);
        assert(walk_models(items@) =~= walk_models(before) + seq![WalkModel::Leave]);
    }
    items
}

} // verus!
