//! Text offsets, ranges, and the facts about UTF-8 that splitting text at byte
//! offsets relies on.

use vstd::prelude::*;
use vstd::string::*;
use vstd::utf8::*;

verus! {

/// A half-open range `start..end` of byte offsets into a document.
#[derive(Clone, Copy, Debug, PartialEq, Eq, Structural, Hash)]
pub struct TextRange {
    pub start: usize,
    pub end: usize,
}

impl TextRange {
    pub fn new(start: usize, end: usize) -> (r: TextRange)
        ensures
            r == (TextRange { start, end }),
    {
        TextRange { start, end }
    }

    /// Number of bytes in the range; zero when `end` lies before `start`.
    pub open spec fn spec_len(self) -> usize {
        if self.start <= self.end {
            (self.end - self.start) as usize
        } else {
            0
        }
    }

    #[verifier::when_used_as_spec(spec_len)]
    pub fn len(self) -> (n: usize)
        ensures
            n == self.spec_len(),
    {
        if self.start <= self.end {
            self.end - self.start
        } else {
            0
        }
    }

    /// Whether both ends of the range are offsets of a text of `len` bytes.
    pub open spec fn fits(self, len: int) -> bool {
        self.start <= len && self.end <= len
    }

    /// Whether `self` covers every offset of `other`.
    pub open spec fn spec_contains_range(self, other: TextRange) -> bool {
        self.start <= other.start && other.end <= self.end
    }

    #[verifier::when_used_as_spec(spec_contains_range)]
    pub fn contains_range(self, other: TextRange) -> (b: bool)
        ensures
            b == self.spec_contains_range(other),
    {
        self.start <= other.start && other.end <= self.end
    }
}

/// The bytes of a text: its UTF-8 encoding.
pub open spec fn bytes_of(chars: Seq<char>) -> Seq<u8> {
    encode_utf8(chars)
}

/// An offset at which a text can be cut without splitting a character: one
/// of its two ends, or a place next to an ASCII byte.
pub open spec fn cut_point(bytes: Seq<u8>, i: int) -> bool {
    &&& 0 <= i <= bytes.len()
    &&& (i == 0 || i == bytes.len() || bytes[i] < 0x80 || bytes[i - 1] < 0x80)
}

/// In valid UTF-8 the offset after an ASCII byte starts a character or ends
/// the text.
pub proof fn lemma_boundary_after_ascii(bytes: Seq<u8>, i: int)
    requires
        valid_utf8(bytes),
        0 <= i < bytes.len(),
        bytes[i] < 0x80,
    ensures
        is_char_boundary(bytes, i + 1),
    decreases bytes.len(),
{
    let first: int = length_of_first_scalar(bytes);
    let rest: Seq<u8> = pop_first_scalar(bytes);
    if i == 0 {
        assert(first == 1);
        assert(is_char_boundary(rest, 0));
    } else {
        assert(is_char_boundary(bytes, i)) by {
            is_char_boundary_iff_not_is_continuation_byte(bytes, i);
        }
        assert(is_char_boundary(rest, i - first));
        assert(i >= first) by {
            if i < first {
                assert(!is_char_boundary(rest, i - first));
            }
        }
        assert(rest[i - first] == bytes[i]);
        lemma_boundary_after_ascii(rest, i - first);
    }
}

/// Every cut point of valid UTF-8 is a character boundary.
pub proof fn lemma_cut_point_is_boundary(bytes: Seq<u8>, i: int)
    requires
        valid_utf8(bytes),
        cut_point(bytes, i),
    ensures
        is_char_boundary(bytes, i),
{
    if i == 0 || i == bytes.len() {
        is_char_boundary_start_end_of_seq(bytes);
    } else if bytes[i] < 0x80 {
        is_char_boundary_iff_not_is_continuation_byte(bytes, i);
    } else {
        lemma_boundary_after_ascii(bytes, i - 1);
    }
}

/// Encoding distributes over concatenation.
pub proof fn lemma_bytes_of_concat(a: Seq<char>, b: Seq<char>)
    ensures
        bytes_of(a + b) == bytes_of(a) + bytes_of(b),
    decreases a.len(),
{
    if a.len() == 0 {
        assert(a + b =~= b);
        assert(bytes_of(a) + bytes_of(b) =~= bytes_of(b));
    } else {
        assert((a + b).drop_first() =~= a.drop_first() + b);
        assert((a + b)[0] == a[0]);
        lemma_bytes_of_concat(a.drop_first(), b);
        assert(bytes_of(a + b) =~= bytes_of(a) + bytes_of(b));
    }
}

/// A cut point of a text is a boundary between two of its characters.
pub proof fn lemma_cut(chars: Seq<char>, mid: int)
    requires
        cut_point(bytes_of(chars), mid),
    ensures
        is_char_boundary(bytes_of(chars), mid),
{
    encode_utf8_valid_utf8(chars);
    lemma_cut_point_is_boundary(bytes_of(chars), mid);
}

/// Cuts `s` in two at byte offset `mid`, which lies between two characters.
pub fn split_text<'a>(s: &'a str, mid: usize) -> (r: (&'a str, &'a str))
    requires
        is_char_boundary(bytes_of(s@), mid as int),
    ensures
        r.0@ + r.1@ == s@,
        bytes_of(r.0@) == bytes_of(s@).subrange(0, mid as int),
        bytes_of(r.1@) == bytes_of(s@).subrange(mid as int, bytes_of(s@).len() as int),
{
    let ghost bytes: Seq<u8> = bytes_of(s@);
    proof {
        encode_utf8_valid_utf8(s@);
    }
    let r: (&str, &str) = s.split_at(mid);
    proof {
        decode_utf8_split(bytes, mid as int);
        encode_utf8_decode_utf8(s@);
        encode_utf8_decode_utf8(r.0@);
        encode_utf8_decode_utf8(r.1@);
    }
    r
}

} // verus!
