//! Line and column coordinates of byte offsets.

use vstd::prelude::*;
use vstd::string::*;
use vstd::utf8::*;
use crate::text::{bytes_of, TextRange};

verus! {

/// A place in a document: zero-based line, and zero-based count of the
/// characters that precede it on that line.
#[derive(Clone, Copy, Debug, PartialEq, Eq, Structural, Hash)]
pub struct Position {
    pub line: u64,
    pub character: u64,
}

/// A stretch of a document between two positions, the end exclusive.
#[derive(Clone, Copy, Debug, PartialEq, Eq, Structural, Hash)]
pub struct Range {
    pub start: Position,
    pub end: Position,
}

/// The position of byte offset `offset` in a text with the given bytes.
///
/// Every line feed before the offset starts a new line; on the last of them
/// each byte that starts a character advances the column by one. Offsets
/// outside the text are given the origin.
pub open spec fn position_at(bytes: Seq<u8>, offset: int) -> Position
    decreases offset,
{
    if offset <= 0 || offset > bytes.len() {
        Position { line: 0, character: 0 }
    } else {
        let prev: Position = position_at(bytes, offset - 1);
        let b: u8 = bytes[offset - 1];
        if b == 0x0A {
            Position { line: (prev.line + 1) as u64, character: 0 }
        } else if is_continuation_byte(b) {
            prev
        } else {
            Position { line: prev.line, character: (prev.character + 1) as u64 }
        }
    }
}

/// The positions of the two ends of `range`.
pub open spec fn range_at(bytes: Seq<u8>, range: TextRange) -> Range {
    Range {
        start: position_at(bytes, range.start as int),
        end: position_at(bytes, range.end as int),
    }
}

/// Neither coordinate of a position exceeds its offset.
pub proof fn lemma_position_bounded(bytes: Seq<u8>, offset: int)
    requires
        0 <= offset <= bytes.len(),
        bytes.len() <= usize::MAX,
    ensures
        position_at(bytes, offset).line <= offset,
        position_at(bytes, offset).character <= offset,
    decreases offset,
{
    if offset > 0 {
        lemma_position_bounded(bytes, offset - 1);
    }
}

/// Maps the byte offsets of one document to positions.
pub struct Mapper {
    positions: Vec<Position>,
    bytes: Ghost<Seq<u8>>,
}

impl Mapper {
    #[verifier::type_invariant]
    closed spec fn wf(&self) -> bool {
        &&& self.positions@.len() == self.bytes@.len() + 1
        &&& forall|i: int|
            0 <= i < self.positions@.len() ==> #[trigger] self.positions@[i] == position_at(
                self.bytes@,
                i,
            )
    }

    /// The bytes of the document that the mapper was made for.
    pub closed spec fn spec_bytes(&self) -> Seq<u8> {
        self.bytes@
    }

    /// The table that the mapper holds: the position of every offset of
    /// the document, from the first to the one after its last byte.
    pub closed spec fn spec_positions(&self) -> Seq<Position> {
        self.positions@
    }

    /// The positions that a mapper of a text with the given bytes holds.
    pub open spec fn positions_of(bytes: Seq<u8>) -> Seq<Position> {
        Seq::new(bytes.len() + 1, |i: int| position_at(bytes, i))
    }

    /// Length in bytes of the mapped document.
    pub open spec fn spec_len(&self) -> usize {
        self.spec_bytes().len() as usize
    }

    /// The position of `offset`, where the document has such an offset.
    pub open spec fn spec_position(&self, offset: usize) -> Option<Position> {
        if offset <= self.spec_bytes().len() {
            Some(position_at(self.spec_bytes(), offset as int))
        } else {
            None
        }
    }

    /// The positions of both ends of `range`, where the document has both.
    pub open spec fn spec_range(&self, range: TextRange) -> Option<Range> {
        if self.covers(range) {
            Some(range_at(self.spec_bytes(), range))
        } else {
            None
        }
    }

    /// Whether the mapper can place both ends of `range`.
    pub open spec fn covers(&self, range: TextRange) -> bool {
        range.start <= self.spec_bytes().len() && range.end <= self.spec_bytes().len()
    }

    /// Builds the mapper of a document.
    pub fn new(source: &str) -> (m: Mapper)
        ensures
            m.spec_bytes() == bytes_of(source@),
            m.spec_len() == bytes_of(source@).len(),
            m.spec_positions() == Mapper::positions_of(bytes_of(source@)),
    {
        let bytes: &[u8] = source.as_bytes();
        let n: usize = bytes.len();
        let mut positions: Vec<Position> = Vec::new();
        let mut cur: Position = Position { line: 0, character: 0 };
        positions.push(cur);
        let mut i: usize = 0;
        while i < n
            invariant
                n == bytes@.len(),
                i <= n,
                positions@.len() == i + 1,
                cur == position_at(bytes@, i as int),
                forall|j: int|
                    0 <= j <= i ==> #[trigger] positions@[j] == position_at(bytes@, j),
            decreases n - i,
        {
            let b: u8 = bytes[i];
            proof {
                lemma_position_bounded(bytes@, i as int);
            }
            if b == 0x0A {
                cur = Position { line: cur.line + 1, character: 0 };
            } else if !(0x80 <= b && b <= 0xbf) {
                cur = Position { line: cur.line, character: cur.character + 1 };
            }
            i += 1;
            positions.push(cur);
        }
        assert(positions@ =~= Mapper::positions_of(bytes@));
        Mapper { positions, bytes: Ghost(bytes@) }
    }

    /// Length in bytes of the mapped document.
    #[verifier::when_used_as_spec(spec_len)]
    pub fn len(&self) -> (n: usize)
        ensures
            n == self.spec_len(),
            n == self.spec_bytes().len(),
            self.spec_positions() == Mapper::positions_of(self.spec_bytes()),
    {
        proof {
            use_type_invariant(self);
            assert(self.positions@ =~= Mapper::positions_of(self.bytes@));
        }
        self.positions.len() - 1
    }

    /// The position of a byte offset; `None` for an offset past the end of
    /// the document.
    #[verifier::when_used_as_spec(spec_position)]
    pub fn position(&self, offset: usize) -> (p: Option<Position>)
        ensures
            p == self.spec_position(offset),
    {
        proof {
            use_type_invariant(self);
        }
        if offset < self.positions.len() {
            Some(self.positions[offset])
        } else {
            None
        }
    }

    /// The positions of the two ends of a range that the mapper covers.
    pub fn range_of(&self, range: TextRange) -> (r: Range)
        requires
            self.covers(range),
        ensures
            r == range_at(self.spec_bytes(), range),
    {
        proof {
            use_type_invariant(self);
        }
        Range { start: self.positions[range.start], end: self.positions[range.end] }
    }

    /// The positions of the two ends of a range; `None` when either end lies
    /// past the end of the document.
    #[verifier::when_used_as_spec(spec_range)]
    pub fn range(&self, range: TextRange) -> (r: Option<Range>)
        ensures
            r == self.spec_range(range),
    {
        match self.position(range.start) {
            None => None,
            Some(start) => match self.position(range.end) {
                None => None,
                Some(end) => Some(Range { start, end }),
            },
        }
    }
}

} // verus!
