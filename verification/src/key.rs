//! Keys: dotted paths of named, source-located segments.

use vstd::prelude::*;
use vstd::string::*;
use crate::text::TextRange;

verus! {

/// One segment of a key: its name, with the quotes of a quoted segment
/// removed, and the place where it is written.
#[derive(Debug, PartialEq, Eq)]
pub struct Segment {
    pub name: String,
    pub range: TextRange,
}

/// What a segment is, as plain values.
pub struct SegmentModel {
    pub name: Seq<char>,
    pub range: TextRange,
}

impl View for Segment {
    type V = SegmentModel;

    open spec fn view(&self) -> SegmentModel {
        SegmentModel { name: self.name@, range: self.range }
    }
}

impl Clone for Segment {
    fn clone(&self) -> (r: Segment)
        ensures
            r == *self,
    {
        Segment { name: self.name.clone(), range: self.range }
    }
}

/// The models of a run of segments.
pub open spec fn segment_models(s: Seq<Segment>) -> Seq<SegmentModel> {
    Seq::new(s.len(), |i: int| s[i]@)
}

/// The names of the first `n` segments, joined by periods.
pub open spec fn join_names(segments: Seq<SegmentModel>, n: int) -> Seq<char>
    decreases n,
{
    if n <= 0 {
        Seq::<char>::empty()
    } else if n == 1 {
        segments[0].name
    } else {
        join_names(segments, n - 1) + seq!['.'] + segments[n - 1].name
    }
}

/// What a key is, as plain values: the segments of the whole path from the
/// document root, and how many of them come from the enclosing table rather
/// than from the place where the key itself is written.
pub struct KeyModel {
    pub segments: Seq<SegmentModel>,
    pub inherited: nat,
}

impl KeyModel {
    /// A key has at least one segment of its own.
    pub open spec fn wf(self) -> bool {
        self.inherited < self.segments.len()
    }

    /// The dotted display form of the whole path.
    pub open spec fn full_key(self) -> Seq<char> {
        join_names(self.segments, self.segments.len() as int)
    }

    /// The name of the last segment: the key within its own table.
    pub open spec fn name(self) -> Seq<char> {
        self.segments.last().name
    }

    /// The span from the first segment written with the key to the last.
    pub open spec fn text_range(self) -> TextRange {
        TextRange {
            start: self.segments[self.inherited as int].range.start,
            end: self.segments.last().range.end,
        }
    }

    /// Both ends of every segment are offsets of a text of `len` bytes.
    pub open spec fn bounded(self, len: int) -> bool {
        forall|i: int| 0 <= i < self.segments.len() ==> (#[trigger] self.segments[i]).range.fits(len)
    }

    /// The key cut after its first `n` segments.
    pub open spec fn prefix(self, n: int) -> KeyModel {
        KeyModel { segments: self.segments.subrange(0, n), inherited: self.inherited }
    }

    /// The key that `own` spells inside the table that `scope` names.
    pub open spec fn under(scope: Option<KeyModel>, own: Seq<SegmentModel>) -> KeyModel {
        match scope {
            Some(s) => KeyModel { segments: s.segments + own, inherited: s.segments.len() },
            None => KeyModel { segments: own, inherited: 0 },
        }
    }
}

/// The span of a well-formed key whose segments are bounded is bounded, and
/// so are the segments of each of its prefixes.
pub proof fn lemma_bounded(key: KeyModel, len: int)
    requires
        key.wf(),
        key.bounded(len),
    ensures
        key.text_range().fits(len),
        forall|n: int| 0 <= n <= key.segments.len() ==> (#[trigger] key.prefix(n)).bounded(len),
        forall|n: int|
            key.inherited < n <= key.segments.len() ==> (#[trigger] key.prefix(n)).text_range().fits(
                len,
            ),
{
    assert(key.segments[key.inherited as int].range.fits(len));
    assert(key.segments.last().range.fits(len));
    assert forall|n: int| 0 <= n <= key.segments.len() implies (#[trigger] key.prefix(n)).bounded(
        len,
    ) by {
        assert forall|i: int| 0 <= i < key.prefix(n).segments.len() implies (
        #[trigger] key.prefix(n).segments[i]).range.fits(len) by {
            assert(key.prefix(n).segments[i] == key.segments[i]);
        }
    }
    assert forall|n: int| key.inherited < n <= key.segments.len() implies (#[trigger] key.prefix(
        n,
    )).text_range().fits(len) by {
        assert(key.prefix(n).segments[key.inherited as int] == key.segments[key.inherited as int]);
        assert(key.prefix(n).segments.last() == key.segments[n - 1]);
        assert(key.segments[n - 1].range.fits(len));
    }
}

/// A key spelled by bounded segments inside a bounded scope is bounded.
pub proof fn lemma_under_bounded(scope: Option<KeyModel>, own: Seq<SegmentModel>, len: int)
    requires
        scope matches Some(s) ==> s.bounded(len),
        forall|i: int| 0 <= i < own.len() ==> (#[trigger] own[i]).range.fits(len),
    ensures
        KeyModel::under(scope, own).bounded(len),
{
    let k: KeyModel = KeyModel::under(scope, own);
    assert forall|i: int| 0 <= i < k.segments.len() implies (#[trigger] k.segments[i]).range.fits(
        len,
    ) by {
        match scope {
            Some(s) => {
                if i < s.segments.len() {
                    assert(k.segments[i] == s.segments[i]);
                } else {
                    assert(k.segments[i] == own[i - s.segments.len()]);
                }
            },
            None => {},
        }
    }
}

/// A key path from the document root, each segment located in the source.
#[derive(Debug)]
pub struct Key {
    segments: Vec<Segment>,
    inherited: usize,
}

impl View for Key {
    type V = KeyModel;

    closed spec fn view(&self) -> KeyModel {
        KeyModel { segments: segment_models(self.segments@), inherited: self.inherited as nat }
    }
}

impl Clone for Key {
    fn clone(&self) -> (r: Key)
        ensures
            r@ == self@,
            r@.wf(),
    {
        proof {
            use_type_invariant(self);
        }
        let mut segments: Vec<Segment> = Vec::new();
        let mut i: usize = 0;
        while i < self.segments.len()
            invariant
                i <= self.segments.len(),
                segments@.len() == i,
                forall|j: int| 0 <= j < i ==> segments@[j] == self.segments@[j],
            decreases self.segments.len() - i,
        {
            segments.push(self.segments[i].clone());
            i += 1;
        }
        assert(segment_models(segments@) =~= segment_models(self.segments@));
        Key { segments, inherited: self.inherited }
    }
}

impl Key {
    /// The invariant of the type: what every key value satisfies.
    #[verifier::type_invariant]
    pub closed spec fn wf(&self) -> bool {
        self.inherited < self.segments@.len()
    }

    /// The model of a key that satisfies the invariant is well formed.
    pub proof fn lemma_model_wf(&self)
        requires
            self.wf(),
        ensures
            self@.wf(),
    {
    }

    /// The key that `own` spells inside the table named by `scope`; at the
    /// document root with no scope. `None` when `own` is empty.
    pub fn under(scope: Option<&Key>, own: Vec<Segment>) -> (r: Option<Key>)
        ensures
            r is Some <==> own@.len() > 0,
            r matches Some(k) ==> k@ == KeyModel::under(
                match scope {
                    Some(s) => Some(s@),
                    None => None,
                },
                segment_models(own@),
            ) && k@.wf(),
    {
        if own.len() == 0 {
            return None;
        }
        match scope {
            None => Some(Key { segments: own, inherited: 0 }),
            Some(s) => {
                proof {
                    use_type_invariant(s);
                }
                let mut segments: Vec<Segment> = Vec::new();
                let mut i: usize = 0;
                while i < s.segments.len()
                    invariant
                        i <= s.segments.len(),
                        segments@.len() == i,
                        forall|j: int| 0 <= j < i ==> segments@[j] == s.segments@[j],
                    decreases s.segments.len() - i,
                {
                    segments.push(s.segments[i].clone());
                    i += 1;
                }
                let inherited: usize = segments.len();
                let mut own = own;
                let ghost own_before: Seq<Segment> = own@;
                segments.append(&mut own);
                assert(segment_models(segments@) =~= segment_models(s.segments@)
                    + segment_models(own_before));
                Some(Key { segments, inherited })
            },
        }
    }

    /// Number of segments of the whole path.
    pub fn len(&self) -> (n: usize)
        ensures
            n == self@.segments.len(),
            n > 0,
    {
        proof {
            use_type_invariant(self);
        }
        self.segments.len()
    }

    /// Number of leading segments that come from the enclosing table.
    pub fn inherited(&self) -> (n: usize)
        ensures
            n == self@.inherited,
            n < self@.segments.len(),
    {
        proof {
            use_type_invariant(self);
        }
        self.inherited
    }

    /// The segment at position `i` of the whole path.
    pub fn segment(&self, i: usize) -> (s: &Segment)
        requires
            i < self@.segments.len(),
        ensures
            s@ == self@.segments[i as int],
    {
        &self.segments[i]
    }

    /// The name of the last segment.
    pub fn name(&self) -> (s: &String)
        ensures
            s@ == self@.name(),
    {
        proof {
            use_type_invariant(self);
        }
        &self.segments[self.segments.len() - 1].name
    }

    /// The span from the first segment written with the key to its last.
    pub fn text_range(&self) -> (r: TextRange)
        ensures
            r == self@.text_range(),
    {
        proof {
            use_type_invariant(self);
        }
        TextRange {
            start: self.segments[self.inherited].range.start,
            end: self.segments[self.segments.len() - 1].range.end,
        }
    }

    /// The key cut after its first `n` segments.
    pub fn prefix(&self, n: usize) -> (r: Key)
        requires
            self@.inherited < n <= self@.segments.len(),
        ensures
            r@ == self@.prefix(n as int),
            r@.wf(),
    {
        let mut segments: Vec<Segment> = Vec::new();
        let mut i: usize = 0;
        while i < n
            invariant
                i <= n <= self.segments.len(),
                segments@.len() == i,
                forall|j: int| 0 <= j < i ==> segments@[j] == self.segments@[j],
            decreases n - i,
        {
            segments.push(self.segments[i].clone());
            i += 1;
        }
        assert(segment_models(segments@) =~= segment_models(self.segments@).subrange(
            0,
            n as int,
        ));
        Key { segments, inherited: self.inherited }
    }

    /// The dotted display form of the whole path.
    pub fn full_key(&self) -> (s: String)
        ensures
            s@ == self@.full_key(),
    {
        proof {
            use_type_invariant(self);
        }
        let ghost model: Seq<SegmentModel> = self@.segments;
        let mut s: String = self.segments[0].name.clone();
        let mut i: usize = 1;
        while i < self.segments.len()
            invariant
                1 <= i <= self.segments.len(),
                model == segment_models(self.segments@),
                s@ == join_names(model, i as int),
            decreases self.segments.len() - i,
        {
            proof {
                reveal_strlit(".");
                assert("."@ =~= seq!['.']);
            }
            s.append(".");
            s.append(self.segments[i].name.as_str());
            i += 1;
        }
        s
    }
}

} // verus!
