//! Cutting text into tokens.

use vstd::prelude::*;
use vstd::slice::*;
use crate::kind::SyntaxKind;
use crate::text::cut_point;

verus! {

/// A class of bytes that a run can be made of.
#[derive(Clone, Copy, Debug, PartialEq, Eq, Structural)]
pub enum ByteClass {
    /// Space and tab.
    Blank,
    /// What a bare key is made of: letters, digits, `_` and `-`.
    Word,
    Digit,
    /// Digits and `_`.
    Number,
    /// Hexadecimal digits and `_`.
    Hex,
    /// Anything but a line feed.
    Line,
    /// Bytes of characters outside ASCII.
    High,
}

pub open spec fn is_digit(b: u8) -> bool {
    0x30 <= b <= 0x39
}

pub open spec fn is_letter(b: u8) -> bool {
    (0x41 <= b <= 0x5a) || (0x61 <= b <= 0x7a)
}

impl ByteClass {
    pub open spec fn spec_holds(self, b: u8) -> bool {
        match self {
            ByteClass::Blank => b == 0x20 || b == 0x09,
            ByteClass::Word => is_digit(b) || is_letter(b) || b == 0x5f || b == 0x2d,
            ByteClass::Digit => is_digit(b),
            ByteClass::Number => is_digit(b) || b == 0x5f,
            ByteClass::Hex => is_digit(b) || (0x41 <= b <= 0x46) || (0x61 <= b <= 0x66) || b
                == 0x5f,
            ByteClass::Line => b != 0x0a,
            ByteClass::High => b >= 0x80,
        }
    }

    #[verifier::when_used_as_spec(spec_holds)]
    pub fn holds(self, b: u8) -> (r: bool)
        ensures
            r == self.spec_holds(b),
    {
        let digit: bool = 0x30 <= b && b <= 0x39;
        match self {
            ByteClass::Blank => b == 0x20 || b == 0x09,
            ByteClass::Word => digit || (0x41 <= b && b <= 0x5a) || (0x61 <= b && b <= 0x7a) || b
                == 0x5f || b == 0x2d,
            ByteClass::Digit => digit,
            ByteClass::Number => digit || b == 0x5f,
            ByteClass::Hex => digit || (0x41 <= b && b <= 0x46) || (0x61 <= b && b <= 0x66) || b
                == 0x5f,
            ByteClass::Line => b != 0x0a,
            ByteClass::High => b >= 0x80,
        }
    }
}

/// Whether `bytes[from..to]` is a run of the class that nothing of the class
/// follows.
pub open spec fn is_run(bytes: Seq<u8>, class: ByteClass, from: int, to: int) -> bool {
    &&& 0 <= from <= to <= bytes.len()
    &&& forall|j: int| from <= j < to ==> class.spec_holds(#[trigger] bytes[j])
    &&& (to == bytes.len() || !class.spec_holds(bytes[to]))
}

/// Where the run of `class` that starts at `from` ends: the first offset
/// from there on that holds no byte of the class.
pub open spec fn run_to(bytes: Seq<u8>, class: ByteClass, from: int) -> int
    decreases bytes.len() - from,
{
    if 0 <= from < bytes.len() && class.spec_holds(bytes[from]) {
        run_to(bytes, class, from + 1)
    } else {
        from
    }
}

/// A run ends where `run_to` says, and nowhere else.
pub proof fn lemma_run_to(bytes: Seq<u8>, class: ByteClass, from: int, to: int)
    requires
        is_run(bytes, class, from, to),
    ensures
        run_to(bytes, class, from) == to,
    decreases to - from,
{
    if from < to {
        assert(class.spec_holds(bytes[from]));
        lemma_run_to(bytes, class, from + 1, to);
    }
}

/// Whether byte `b` stands at offset `at`.
pub open spec fn has_byte(bytes: Seq<u8>, at: int, b: u8) -> bool {
    0 <= at < bytes.len() && bytes[at] == b
}

/// Whether `n` digits stand from offset `at` on.
pub open spec fn has_digits(bytes: Seq<u8>, at: int, n: int) -> bool {
    at + n <= bytes.len() && forall|j: int| at <= j < at + n ==> is_digit(#[trigger] bytes[j])
}

/// Where the fraction of a second that starts at `at` ends: after the digits
/// that follow a period there; `at` itself where no period with a digit
/// stands.
pub open spec fn fraction_to(bytes: Seq<u8>, at: int) -> int {
    if has_byte(bytes, at, 0x2e) && has_digits(bytes, at + 1, 1) {
        run_to(bytes, ByteClass::Digit, at + 1)
    } else {
        at
    }
}

/// Where the time of day that starts at `at` ends: two digits, a colon, two
/// digits, a colon, two digits, and a fraction if one follows; none where no
/// such time stands there.
pub open spec fn time_to(bytes: Seq<u8>, at: int) -> Option<int> {
    if has_digits(bytes, at, 2) && has_byte(bytes, at + 2, 0x3a) && has_digits(bytes, at + 3, 2)
        && has_byte(bytes, at + 5, 0x3a) && has_digits(bytes, at + 6, 2) {
        Some(fraction_to(bytes, at + 8))
    } else {
        None
    }
}

/// Where the offset from UTC that starts at `at` ends: after a `Z` or `z`,
/// or after a sign, two digits, a colon and two digits; `at` itself where
/// neither stands there.
pub open spec fn offset_to(bytes: Seq<u8>, at: int) -> int {
    if has_byte(bytes, at, 0x5a) || has_byte(bytes, at, 0x7a) {
        at + 1
    } else if (has_byte(bytes, at, 0x2b) || has_byte(bytes, at, 0x2d)) && has_digits(
        bytes,
        at + 1,
        2,
    ) && has_byte(bytes, at + 3, 0x3a) && has_digits(bytes, at + 4, 2) {
        at + 6
    } else {
        at
    }
}

/// Whether a date `yyyy-mm-dd` stands at the start.
pub open spec fn has_date(bytes: Seq<u8>) -> bool {
    has_digits(bytes, 0, 4) && has_byte(bytes, 4, 0x2d) && has_digits(bytes, 5, 2) && has_byte(
        bytes,
        7,
        0x2d,
    ) && has_digits(bytes, 8, 2)
}

/// Where the date or time at the start ends. A date may be followed by a
/// `T`, a `t` or a space and a time, and that by an offset; a date that no
/// time follows ends after its day. Where no date stands, a time alone
/// counts. None where the text starts with neither.
pub open spec fn date_to(bytes: Seq<u8>) -> Option<int> {
    if has_date(bytes) {
        if has_byte(bytes, 10, 0x54) || has_byte(bytes, 10, 0x74) || has_byte(bytes, 10, 0x20) {
            match time_to(bytes, 11) {
                Some(to) => Some(offset_to(bytes, to)),
                None => Some(10),
            }
        } else {
            Some(10)
        }
    } else {
        time_to(bytes, 0)
    }
}

/// Where the run of `class` that starts at `from` ends.
pub fn run_end(bytes: &[u8], from: usize, class: ByteClass) -> (to: usize)
    requires
        from <= bytes@.len(),
    ensures
        is_run(bytes@, class, from as int, to as int),
        to == run_to(bytes@, class, from as int),
{
    let ghost goal: int = run_to(bytes@, class, from as int);
    let mut i: usize = from;
    while i < bytes.len() && class.holds(bytes[i])
        invariant
            from <= i <= bytes@.len(),
            forall|j: int| from <= j < i ==> class.spec_holds(#[trigger] bytes@[j]),
        decreases bytes@.len() - i,
    {
        i += 1;
    }
    proof {
        lemma_run_to(bytes@, class, from as int, i as int);
    }
    i
}

/// Whether byte `b` stands at offset `at`.
pub fn byte_at(bytes: &[u8], at: usize, b: u8) -> (r: bool)
    ensures
        r == has_byte(bytes@, at as int, b),
        r ==> at < usize::MAX,
{
    at < bytes.len() && bytes[at] == b
}

/// Whether `n` digits stand from offset `at` on.
pub fn digits_at(bytes: &[u8], at: usize, n: usize) -> (r: bool)
    ensures
        r == has_digits(bytes@, at as int, n as int),
        r ==> at + n <= usize::MAX,
{
    if n > bytes.len() || at > bytes.len() - n {
        return false;
    }
    let mut i: usize = 0;
    while i < n
        invariant
            i <= n,
            at + n <= bytes@.len() <= usize::MAX,
            forall|j: int| at <= j < at + i ==> is_digit(#[trigger] bytes@[j]),
        decreases n - i,
    {
        if !ByteClass::Digit.holds(bytes[at + i]) {
            return false;
        }
        i += 1;
    }
    true
}

/// The kind of the token that a punctuation byte makes by itself.
pub open spec fn spec_punctuation(b: u8) -> Option<SyntaxKind> {
    if b == 0x2e {
        Some(SyntaxKind::Period)
    } else if b == 0x2c {
        Some(SyntaxKind::Comma)
    } else if b == 0x3d {
        Some(SyntaxKind::Eq)
    } else if b == 0x5b {
        Some(SyntaxKind::BracketStart)
    } else if b == 0x5d {
        Some(SyntaxKind::BracketEnd)
    } else if b == 0x7b {
        Some(SyntaxKind::BraceStart)
    } else if b == 0x7d {
        Some(SyntaxKind::BraceEnd)
    } else {
        None
    }
}

#[verifier::when_used_as_spec(spec_punctuation)]
pub fn punctuation(b: u8) -> (r: Option<SyntaxKind>)
    ensures
        r == spec_punctuation(b),
{
    if b == 0x2e {
        Some(SyntaxKind::Period)
    } else if b == 0x2c {
        Some(SyntaxKind::Comma)
    } else if b == 0x3d {
        Some(SyntaxKind::Eq)
    } else if b == 0x5b {
        Some(SyntaxKind::BracketStart)
    } else if b == 0x5d {
        Some(SyntaxKind::BracketEnd)
    } else if b == 0x7b {
        Some(SyntaxKind::BraceStart)
    } else if b == 0x7d {
        Some(SyntaxKind::BraceEnd)
    } else {
        None
    }
}

/// A token as the lexer finds it: its kind and its length in bytes.
#[derive(Clone, Copy, Debug, PartialEq, Eq, Structural)]
pub struct Lexed {
    pub kind: SyntaxKind,
    pub len: usize,
}

/// What holds of every token that is cut from the start of `bytes`: it is
/// not empty, it ends within the text at a place where the text can be cut,
/// and its kind is a kind of token.
pub open spec fn token_of(bytes: Seq<u8>, t: Lexed) -> bool {
    &&& 0 < t.len <= bytes.len()
    &&& t.kind.spec_is_token()
    &&& cut_point(bytes, t.len as int)
}

/// What is promised of the tokens with a simple shape. A punctuation byte is
/// a token by itself. Blanks, and the bytes of a bare key where a key is
/// expected, make a token of the longest run at the start. A line feed,
/// alone or after a carriage return, is a line break. A comment runs from
/// its `#` to the end of the line.
pub open spec fn simple_token(bytes: Seq<u8>, key: bool, t: Lexed) -> bool {
    let b: u8 = bytes[0];
    &&& spec_punctuation(b) matches Some(k) ==> t.kind == k && t.len == 1
    &&& ByteClass::Blank.spec_holds(b) ==> t.kind == SyntaxKind::Whitespace && is_run(
        bytes,
        ByteClass::Blank,
        0,
        t.len as int,
    )
    &&& b == 0x0a ==> t.kind == SyntaxKind::Newline && t.len == 1
    &&& (b == 0x0d && bytes.len() > 1 && bytes[1] == 0x0a) ==> t.kind == SyntaxKind::Newline
        && t.len == 2
    &&& b == 0x23 ==> t.kind == SyntaxKind::Comment && is_run(
        bytes,
        ByteClass::Line,
        0,
        t.len as int,
    )
    &&& (key && ByteClass::Word.spec_holds(b)) ==> t.kind == SyntaxKind::Ident && is_run(
        bytes,
        ByteClass::Word,
        0,
        t.len as int,
    )
    &&& (t.kind == SyntaxKind::Whitespace ==> ByteClass::Blank.spec_holds(b))
    &&& (t.kind == SyntaxKind::Newline ==> b == 0x0a || b == 0x0d)
    &&& (t.kind == SyntaxKind::Comment ==> b == 0x23)
}

/// A token of the given kind and length.
pub open spec fn lexed(kind: SyntaxKind, len: int) -> Lexed {
    Lexed { kind, len: len as usize }
}

/// Where a string that opens with one quote `q` ends, seen from offset `i`
/// inside it, and whether it is closed there. The string ends after the
/// next quote `q`; where `escapes` is set a backslash takes the byte after
/// it along, unless that is a line feed. A string that is not closed ends
/// before the next line feed, or with the text.
pub open spec fn string_to(bytes: Seq<u8>, q: u8, escapes: bool, i: int) -> (int, bool)
    decreases bytes.len() - i,
{
    if i < 1 || i >= bytes.len() {
        (bytes.len() as int, false)
    } else if bytes[i] == 0x0a {
        (i, false)
    } else if bytes[i] == q {
        (i + 1, true)
    } else if escapes && bytes[i] == 0x5c && i + 1 < bytes.len() && bytes[i + 1] != 0x0a {
        string_to(bytes, q, escapes, i + 2)
    } else {
        string_to(bytes, q, escapes, i + 1)
    }
}

/// Where a string that opens with three quotes `q` ends, seen from offset
/// `i` inside it, and whether it is closed there. The string ends after the
/// next three quotes in a row, with up to two more that follow them; where
/// `escapes` is set a backslash takes the byte after it along. A string
/// that is not closed ends with the text.
pub open spec fn long_string_to(bytes: Seq<u8>, q: u8, escapes: bool, i: int) -> (int, bool)
    decreases bytes.len() - i,
{
    if i < 3 || i >= bytes.len() {
        (bytes.len() as int, false)
    } else if bytes[i] == q && has_byte(bytes, i + 1, q) && has_byte(bytes, i + 2, q) {
        if has_byte(bytes, i + 3, q) {
            if has_byte(bytes, i + 4, q) {
                (i + 5, true)
            } else {
                (i + 4, true)
            }
        } else {
            (i + 3, true)
        }
    } else if escapes && bytes[i] == 0x5c && i + 1 < bytes.len() {
        long_string_to(bytes, q, escapes, i + 2)
    } else {
        long_string_to(bytes, q, escapes, i + 1)
    }
}

/// The token of a string that starts with the quote `q`: a basic string for
/// a double quote and a literal one for a single quote, of one line or, after
/// three quotes, of many; an error token where the string is not closed.
pub open spec fn spec_lex_string(bytes: Seq<u8>, q: u8) -> Lexed {
    let basic: bool = q == 0x22;
    let long: bool = has_byte(bytes, 1, q) && has_byte(bytes, 2, q);
    let r: (int, bool) = if long {
        long_string_to(bytes, q, basic, 3)
    } else {
        string_to(bytes, q, basic, 1)
    };
    let kind: SyntaxKind = if !r.1 {
        SyntaxKind::Error
    } else if long {
        if basic {
            SyntaxKind::MultiLineString
        } else {
            SyntaxKind::MultiLineStringLiteral
        }
    } else {
        if basic {
            SyntaxKind::String
        } else {
            SyntaxKind::StringLiteral
        }
    };
    lexed(kind, r.0)
}

/// The token of the number whose digits begin at `digits`. After `0x`,
/// `0o` or `0b` it is the run of hexadecimal digits, as an integer of that
/// base. Else it is the run of digits and `_`, with a period and more
/// digits, and with an `e` or `E`, a sign if there is one, and more digits,
/// where these follow: a float where it has either, an integer where not.
pub open spec fn spec_lex_number(bytes: Seq<u8>, digits: int) -> Lexed {
    let radix: bool = digits == 0 && bytes[0] == 0x30 && bytes.len() > 2;
    if radix && (bytes[1] == 0x78 || bytes[1] == 0x6f || bytes[1] == 0x62)
        && ByteClass::Hex.spec_holds(bytes[2]) {
        lexed(
            if bytes[1] == 0x78 {
                SyntaxKind::IntegerHex
            } else if bytes[1] == 0x6f {
                SyntaxKind::IntegerOct
            } else {
                SyntaxKind::IntegerBin
            },
            run_to(bytes, ByteClass::Hex, 2),
        )
    } else {
        let whole: int = run_to(bytes, ByteClass::Number, digits);
        let fraction: bool = has_byte(bytes, whole, 0x2e) && has_digits(bytes, whole + 1, 1);
        let mantissa: int = if fraction {
            run_to(bytes, ByteClass::Number, whole + 1)
        } else {
            whole
        };
        let from: int = if has_byte(bytes, mantissa + 1, 0x2b) || has_byte(
            bytes,
            mantissa + 1,
            0x2d,
        ) {
            mantissa + 2
        } else {
            mantissa + 1
        };
        let exponent: bool = (has_byte(bytes, mantissa, 0x65) || has_byte(bytes, mantissa, 0x45))
            && has_digits(bytes, from, 1);
        lexed(
            if fraction || exponent {
                SyntaxKind::Float
            } else {
                SyntaxKind::Integer
            },
            if exponent {
                run_to(bytes, ByteClass::Number, from)
            } else {
                mantissa
            },
        )
    }
}

/// Whether `inf` or `nan` stands at offset `at`.
pub open spec fn has_special(bytes: Seq<u8>, at: int) -> bool {
    (has_byte(bytes, at, 0x69) && has_byte(bytes, at + 1, 0x6e) && has_byte(bytes, at + 2, 0x66))
        || (has_byte(bytes, at, 0x6e) && has_byte(bytes, at + 1, 0x61) && has_byte(
        bytes,
        at + 2,
        0x6e,
    ))
}

/// Whether the first `to` bytes spell `true` or `false`.
pub open spec fn is_truth(bytes: Seq<u8>, to: int) -> bool {
    (to == 4 && bytes[0] == 0x74 && bytes[1] == 0x72 && bytes[2] == 0x75 && bytes[3] == 0x65) || (to
        == 5 && bytes[0] == 0x66 && bytes[1] == 0x61 && bytes[2] == 0x6c && bytes[3] == 0x73
        && bytes[4] == 0x65)
}

/// The value that stands at the start, before it is known what follows it:
/// a date or time where there is no sign; else a number where a digit comes
/// first, after the sign if there is one; else a float for `inf` and `nan`;
/// else nothing (an error of one byte stands for that).
pub open spec fn spec_lex_value(bytes: Seq<u8>) -> Lexed {
    let signed: bool = bytes[0] == 0x2b || bytes[0] == 0x2d;
    let digits: int = if signed {
        1
    } else {
        0
    };
    if !signed && date_to(bytes) is Some {
        lexed(SyntaxKind::Date, date_to(bytes).unwrap())
    } else if has_digits(bytes, digits, 1) {
        spec_lex_number(bytes, digits)
    } else if has_special(bytes, digits) {
        lexed(SyntaxKind::Float, digits + 3)
    } else {
        lexed(SyntaxKind::Error, 1)
    }
}

/// Whether a word that is no value stands at the start: no date, no number,
/// neither `inf` nor `nan`, and no `+`.
pub open spec fn is_plain_word(bytes: Seq<u8>) -> bool {
    let signed: bool = bytes[0] == 0x2b || bytes[0] == 0x2d;
    let digits: int = if signed {
        1
    } else {
        0
    };
    &&& signed || date_to(bytes) is None
    &&& !has_digits(bytes, digits, 1)
    &&& !has_special(bytes, digits)
    &&& bytes[0] != 0x2b
}

/// The token of a value that starts with a digit, a sign or a letter. A
/// plain word is a truth value where it spells `true` or `false`, and an
/// identifier where not. A date, a time or a number is what it is, unless
/// bytes of a word follow it directly: then all of it, up to the end of that
/// word, is an error token.
pub open spec fn spec_lex_word(bytes: Seq<u8>) -> Lexed {
    if is_plain_word(bytes) {
        let to: int = run_to(bytes, ByteClass::Word, 0);
        lexed(
            if is_truth(bytes, to) {
                SyntaxKind::Bool
            } else {
                SyntaxKind::Ident
            },
            to,
        )
    } else {
        let t: Lexed = spec_lex_value(bytes);
        if t.len < bytes.len() && ByteClass::Word.spec_holds(bytes[t.len as int]) {
            lexed(SyntaxKind::Error, run_to(bytes, ByteClass::Word, t.len as int))
        } else {
            t
        }
    }
}

/// The first token of `bytes`. Punctuation is a token by itself; blanks
/// make one run; a line feed, alone or after a carriage return, is a line
/// break; a comment runs to the end of its line; a quote starts a string.
/// Where a key is expected the bytes of a word make a bare key; elsewhere a
/// word is read as a value. Bytes outside ASCII make one error token, and
/// any other byte is an error token by itself.
pub open spec fn spec_lex(bytes: Seq<u8>, key: bool) -> Lexed {
    let b: u8 = bytes[0];
    if spec_punctuation(b) is Some {
        lexed(spec_punctuation(b).unwrap(), 1)
    } else if ByteClass::Blank.spec_holds(b) {
        lexed(SyntaxKind::Whitespace, run_to(bytes, ByteClass::Blank, 0))
    } else if b == 0x0a {
        lexed(SyntaxKind::Newline, 1)
    } else if b == 0x0d {
        if has_byte(bytes, 1, 0x0a) {
            lexed(SyntaxKind::Newline, 2)
        } else {
            lexed(SyntaxKind::Error, 1)
        }
    } else if b == 0x23 {
        lexed(SyntaxKind::Comment, run_to(bytes, ByteClass::Line, 0))
    } else if b == 0x22 || b == 0x27 {
        spec_lex_string(bytes, b)
    } else if key && ByteClass::Word.spec_holds(b) {
        lexed(SyntaxKind::Ident, run_to(bytes, ByteClass::Word, 0))
    } else if ByteClass::Word.spec_holds(b) || b == 0x2b {
        spec_lex_word(bytes)
    } else if b >= 0x80 {
        lexed(SyntaxKind::Error, run_to(bytes, ByteClass::High, 0))
    } else {
        lexed(SyntaxKind::Error, 1)
    }
}

/// A run ends between where it starts and the end of the text.
pub proof fn lemma_run_to_bounds(bytes: Seq<u8>, class: ByteClass, from: int)
    requires
        0 <= from <= bytes.len(),
    ensures
        from <= run_to(bytes, class, from) <= bytes.len(),
    decreases bytes.len() - from,
{
    if from < bytes.len() && class.spec_holds(bytes[from]) {
        lemma_run_to_bounds(bytes, class, from + 1);
    }
}

/// A date or time ends within the text, after its first byte.
pub proof fn lemma_date_to_bounds(bytes: Seq<u8>)
    ensures
        date_to(bytes) matches Some(to) ==> 0 < to <= bytes.len(),
{
    if has_date(bytes) {
        if time_to(bytes, 11) is Some {
            lemma_time_to_bounds(bytes, 11);
        }
    } else if time_to(bytes, 0) is Some {
        lemma_time_to_bounds(bytes, 0);
    }
}

/// A time ends within the text, after its seconds.
pub proof fn lemma_time_to_bounds(bytes: Seq<u8>, at: int)
    requires
        0 <= at,
    ensures
        time_to(bytes, at) matches Some(to) ==> at + 8 <= to <= bytes.len(),
{
    if time_to(bytes, at) is Some {
        if has_byte(bytes, at + 8, 0x2e) && has_digits(bytes, at + 9, 1) {
            lemma_run_to_bounds(bytes, ByteClass::Digit, at + 9);
        }
    }
}

/// Dates and times are values of their own. Where a value is expected and
/// the text starts with a date or a time that no byte of a word follows,
/// the first token is that date or time, whole, and of kind `Date`. So a
/// bare time of day, as `00:00:01`, is no error and no number, wherever a
/// value may stand.
pub proof fn lemma_date_token(bytes: Seq<u8>)
    requires
        bytes.len() <= usize::MAX,
        date_to(bytes) is Some,
        date_to(bytes).unwrap() == bytes.len() || !ByteClass::Word.spec_holds(
            bytes[date_to(bytes).unwrap()],
        ),
    ensures
        spec_lex(bytes, false) == lexed(SyntaxKind::Date, date_to(bytes).unwrap()),
        spec_lex(bytes, false).len == date_to(bytes).unwrap(),
{
    lemma_date_to_bounds(bytes);
    assert(is_digit(bytes[0]));
}

/// A string of one line ends within the text, not before the offset from
/// which it is seen.
pub proof fn lemma_string_to_bounds(bytes: Seq<u8>, q: u8, escapes: bool, i: int)
    requires
        1 <= i,
        bytes.len() > 0,
    ensures
        0 < string_to(bytes, q, escapes, i).0 <= bytes.len(),
    decreases bytes.len() - i,
{
    if i < bytes.len() && bytes[i] != 0x0a && bytes[i] != q {
        if escapes && bytes[i] == 0x5c && i + 1 < bytes.len() && bytes[i + 1] != 0x0a {
            lemma_string_to_bounds(bytes, q, escapes, i + 2);
        } else {
            lemma_string_to_bounds(bytes, q, escapes, i + 1);
        }
    }
}

/// A string of many lines ends within the text.
pub proof fn lemma_long_string_to_bounds(bytes: Seq<u8>, q: u8, escapes: bool, i: int)
    requires
        3 <= i,
        bytes.len() > 0,
    ensures
        0 < long_string_to(bytes, q, escapes, i).0 <= bytes.len(),
    decreases bytes.len() - i,
{
    if i < bytes.len() && !(bytes[i] == q && has_byte(bytes, i + 1, q) && has_byte(
        bytes,
        i + 2,
        q,
    )) {
        if escapes && bytes[i] == 0x5c && i + 1 < bytes.len() {
            lemma_long_string_to_bounds(bytes, q, escapes, i + 2);
        } else {
            lemma_long_string_to_bounds(bytes, q, escapes, i + 1);
        }
    }
}

/// Every token holds a byte at least, and none beyond the text: the first
/// token of a text that is not empty is not empty, and not longer than the
/// text.
pub proof fn lemma_lex_fits(bytes: Seq<u8>, key: bool)
    requires
        0 < bytes.len() <= usize::MAX,
    ensures
        0 < spec_lex(bytes, key).len <= bytes.len(),
{
    let b: u8 = bytes[0];
    lemma_run_to_bounds(bytes, ByteClass::Blank, 1);
    lemma_run_to_bounds(bytes, ByteClass::Line, 1);
    lemma_run_to_bounds(bytes, ByteClass::Word, 1);
    lemma_run_to_bounds(bytes, ByteClass::High, 1);
    if spec_punctuation(b) is Some {
    } else if ByteClass::Blank.spec_holds(b) {
        assert(run_to(bytes, ByteClass::Blank, 0) == run_to(bytes, ByteClass::Blank, 1));
    } else if b == 0x0a || b == 0x0d {
    } else if b == 0x23 {
        assert(run_to(bytes, ByteClass::Line, 0) == run_to(bytes, ByteClass::Line, 1));
    } else if b == 0x22 || b == 0x27 {
        lemma_string_to_bounds(bytes, b, b == 0x22, 1);
        lemma_long_string_to_bounds(bytes, b, b == 0x22, 3);
    } else if key && ByteClass::Word.spec_holds(b) {
        assert(run_to(bytes, ByteClass::Word, 0) == run_to(bytes, ByteClass::Word, 1));
    } else if ByteClass::Word.spec_holds(b) || b == 0x2b {
        lemma_word_fits(bytes);
    } else if b >= 0x80 {
        assert(run_to(bytes, ByteClass::High, 0) == run_to(bytes, ByteClass::High, 1));
    }
}

/// The token of a number ends within the text, after its first digit.
pub proof fn lemma_number_fits(bytes: Seq<u8>, digits: int)
    requires
        0 <= digits < bytes.len() <= usize::MAX,
        is_digit(bytes[digits]),
    ensures
        digits < spec_lex_number(bytes, digits).len <= bytes.len(),
{
    if bytes.len() > 2 {
        lemma_run_to_bounds(bytes, ByteClass::Hex, 3);
    }
    lemma_run_to_bounds(bytes, ByteClass::Number, digits + 1);
    let whole: int = run_to(bytes, ByteClass::Number, digits);
    if has_byte(bytes, whole, 0x2e) && has_digits(bytes, whole + 1, 1) {
        lemma_run_to_bounds(bytes, ByteClass::Number, whole + 1);
    }
    let mantissa: int = if has_byte(bytes, whole, 0x2e) && has_digits(bytes, whole + 1, 1) {
        run_to(bytes, ByteClass::Number, whole + 1)
    } else {
        whole
    };
    let from: int = if has_byte(bytes, mantissa + 1, 0x2b) || has_byte(bytes, mantissa + 1, 0x2d) {
        mantissa + 2
    } else {
        mantissa + 1
    };
    if has_digits(bytes, from, 1) {
        lemma_run_to_bounds(bytes, ByteClass::Number, from);
    }
}

/// The token of a value that is a word ends within the text.
pub proof fn lemma_word_fits(bytes: Seq<u8>)
    requires
        0 < bytes.len() <= usize::MAX,
        ByteClass::Word.spec_holds(bytes[0]) || bytes[0] == 0x2b,
    ensures
        0 < spec_lex_word(bytes).len <= bytes.len(),
{
    lemma_run_to_bounds(bytes, ByteClass::Word, 1);
    lemma_date_to_bounds(bytes);
    let signed: bool = bytes[0] == 0x2b || bytes[0] == 0x2d;
    let digits: int = if signed {
        1
    } else {
        0
    };
    if has_digits(bytes, digits, 1) {
        lemma_number_fits(bytes, digits);
    }
    if !is_plain_word(bytes) {
        let t: Lexed = spec_lex_value(bytes);
        if t.len < bytes.len() {
            lemma_run_to_bounds(bytes, ByteClass::Word, t.len as int);
        }
    }
}

/// Where a string that opens with one quote `q` at the start ends, and
/// whether it is closed. An unclosed string ends with its line.
fn string_end(bytes: &[u8], q: u8, escapes: bool) -> (r: (usize, bool))
    requires
        bytes@.len() > 0,
        bytes@[0] == q,
        q < 0x80,
        q != 0x0a,
    ensures
        (r.0 as int, r.1) == string_to(bytes@, q, escapes, 1),
        0 < r.0 <= bytes@.len(),
        cut_point(bytes@, r.0 as int),
{
    let n: usize = bytes.len();
    let mut i: usize = 1;
    while i < n
        invariant
            1 <= i <= n,
            n == bytes@.len(),
            bytes@[0] == q,
            q < 0x80,
            string_to(bytes@, q, escapes, 1) == string_to(bytes@, q, escapes, i as int),
        decreases n - i,
    {
        let b: u8 = bytes[i];
        if b == 0x0a {
            return (i, false);
        } else if b == q {
            return (i + 1, true);
        } else if escapes && b == 0x5c && i + 1 < n && bytes[i + 1] != 0x0a {
            i += 2;
        } else {
            i += 1;
        }
    }
    (n, false)
}

/// Where a string that opens with three quotes `q` at the start ends, and
/// whether it is closed. An unclosed string ends with the text.
fn long_string_end(bytes: &[u8], q: u8, escapes: bool) -> (r: (usize, bool))
    requires
        bytes@.len() >= 3,
        q < 0x80,
    ensures
        (r.0 as int, r.1) == long_string_to(bytes@, q, escapes, 3),
        0 < r.0 <= bytes@.len(),
        cut_point(bytes@, r.0 as int),
{
    let n: usize = bytes.len();
    let mut i: usize = 3;
    while i < n
        invariant
            3 <= i <= n,
            n == bytes@.len(),
            q < 0x80,
            long_string_to(bytes@, q, escapes, 3) == long_string_to(bytes@, q, escapes, i as int),
        decreases n - i,
    {
        let b: u8 = bytes[i];
        if b == q && byte_at(bytes, i + 1, q) && byte_at(bytes, i + 2, q) {
            let mut end: usize = i + 3;
            if byte_at(bytes, end, q) {
                end += 1;
                if byte_at(bytes, end, q) {
                    end += 1;
                }
            }
            return (end, true);
        } else if escapes && b == 0x5c && i + 1 < n {
            assert(long_string_to(bytes@, q, escapes, i as int) == long_string_to(
                bytes@,
                q,
                escapes,
                i + 2,
            ));
            i += 2;
        } else {
            i += 1;
        }
    }
    (n, false)
}

/// The token of a string that starts with the quote `q`.
fn lex_string(bytes: &[u8], q: u8) -> (t: Lexed)
    requires
        bytes@.len() > 0,
        bytes@[0] == q,
        q == 0x22 || q == 0x27,
    ensures
        t == spec_lex_string(bytes@, q),
        token_of(bytes@, t),
        t.kind != SyntaxKind::Whitespace,
        t.kind != SyntaxKind::Newline,
        t.kind != SyntaxKind::Comment,
{
    let basic: bool = q == 0x22;
    let long: bool = byte_at(bytes, 1, q) && byte_at(bytes, 2, q);
    let r: (usize, bool) = if long {
        long_string_end(bytes, q, basic)
    } else {
        string_end(bytes, q, basic)
    };
    let kind: SyntaxKind = if !r.1 {
        SyntaxKind::Error
    } else if long {
        if basic {
            SyntaxKind::MultiLineString
        } else {
            SyntaxKind::MultiLineStringLiteral
        }
    } else {
        if basic {
            SyntaxKind::String
        } else {
            SyntaxKind::StringLiteral
        }
    };
    Lexed { kind, len: r.0 }
}

/// Where the fraction of a second that starts at `at` ends; `at` itself
/// where there is none.
fn fraction_end(bytes: &[u8], at: usize) -> (to: usize)
    requires
        0 < at <= bytes@.len(),
        bytes@[at - 1] < 0x80,
    ensures
        to == fraction_to(bytes@, at as int),
        at <= to <= bytes@.len(),
        bytes@[to - 1] < 0x80,
{
    if byte_at(bytes, at, 0x2e) && digits_at(bytes, at + 1, 1) {
        let to: usize = run_end(bytes, at + 1, ByteClass::Digit);
        assert(ByteClass::Digit.spec_holds(bytes@[to - 1]));
        to
    } else {
        at
    }
}

/// Where the time of day `hh:mm:ss`, with its fraction, that starts at `at`
/// ends; none where no time stands there.
fn time_end(bytes: &[u8], at: usize) -> (r: Option<usize>)
    requires
        at <= bytes@.len(),
    ensures
        match r {
            Some(to) => time_to(bytes@, at as int) == Some(to as int),
            None => time_to(bytes@, at as int) is None,
        },
        r matches Some(to) ==> at < to <= bytes@.len() && bytes@[to - 1] < 0x80,
{
    if bytes.len() - at < 8 {
        return None;
    }
    if digits_at(bytes, at, 2) && byte_at(bytes, at + 2, 0x3a) && digits_at(bytes, at + 3, 2)
        && byte_at(bytes, at + 5, 0x3a) && digits_at(bytes, at + 6, 2) {
        assert(is_digit(bytes@[at + 7]));
        Some(fraction_end(bytes, at + 8))
    } else {
        None
    }
}

/// Where the offset from UTC that starts at `at` ends; `at` itself where
/// there is none.
fn offset_end(bytes: &[u8], at: usize) -> (to: usize)
    requires
        0 < at <= bytes@.len(),
        bytes@[at - 1] < 0x80,
    ensures
        to == offset_to(bytes@, at as int),
        at <= to <= bytes@.len(),
        bytes@[to - 1] < 0x80,
{
    if byte_at(bytes, at, 0x5a) || byte_at(bytes, at, 0x7a) {
        at + 1
    } else if (byte_at(bytes, at, 0x2b) || byte_at(bytes, at, 0x2d)) && bytes.len() - at >= 6
        && digits_at(bytes, at + 1, 2) && byte_at(bytes, at + 3, 0x3a) && digits_at(
        bytes,
        at + 4,
        2,
    ) {
        assert(is_digit(bytes@[at + 5]));
        at + 6
    } else {
        at
    }
}

/// Where the date or time at the start ends; none where the text starts
/// with neither.
fn date_end(bytes: &[u8]) -> (r: Option<usize>)
    ensures
        match r {
            Some(to) => date_to(bytes@) == Some(to as int),
            None => date_to(bytes@) is None,
        },
        r matches Some(to) ==> 0 < to <= bytes@.len() && bytes@[to - 1] < 0x80,
{
    if bytes.len() >= 10 && digits_at(bytes, 0, 4) && byte_at(bytes, 4, 0x2d) && digits_at(
        bytes,
        5,
        2,
    ) && byte_at(bytes, 7, 0x2d) && digits_at(bytes, 8, 2) {
        assert(is_digit(bytes@[9]));
        let joined: bool = byte_at(bytes, 10, 0x54) || byte_at(bytes, 10, 0x74) || byte_at(
            bytes,
            10,
            0x20,
        );
        if joined {
            match time_end(bytes, 11) {
                Some(to) => Some(offset_end(bytes, to)),
                None => Some(10),
            }
        } else {
            Some(10)
        }
    } else {
        time_end(bytes, 0)
    }
}

/// The token of the number at the start, after its sign if it has one:
/// `digits` is where its digits begin.
fn lex_number(bytes: &[u8], digits: usize) -> (t: Lexed)
    requires
        digits < bytes@.len(),
        is_digit(bytes@[digits as int]),
    ensures
        t == spec_lex_number(bytes@, digits as int),
        digits < t.len <= bytes@.len(),
        bytes@[t.len - 1] < 0x80,
        t.kind.spec_is_token(),
        t.kind != SyntaxKind::Whitespace,
        t.kind != SyntaxKind::Newline,
        t.kind != SyntaxKind::Comment,
{
    let radix: bool = digits == 0 && bytes[0] == 0x30 && bytes.len() > 2;
    if radix && (bytes[1] == 0x78 || bytes[1] == 0x6f || bytes[1] == 0x62) && ByteClass::Hex.holds(
        bytes[2],
    ) {
        let to: usize = run_end(bytes, 2, ByteClass::Hex);
        assert(ByteClass::Hex.spec_holds(bytes@[to - 1]));
        let kind: SyntaxKind = if bytes[1] == 0x78 {
            SyntaxKind::IntegerHex
        } else if bytes[1] == 0x6f {
            SyntaxKind::IntegerOct
        } else {
            SyntaxKind::IntegerBin
        };
        return Lexed { kind, len: to };
    }
    let mut to: usize = run_end(bytes, digits, ByteClass::Number);
    assert(ByteClass::Number.spec_holds(bytes@[to - 1]));
    let mut kind: SyntaxKind = SyntaxKind::Integer;
    if byte_at(bytes, to, 0x2e) && digits_at(bytes, to + 1, 1) {
        to = run_end(bytes, to + 1, ByteClass::Number);
        assert(ByteClass::Number.spec_holds(bytes@[to - 1]));
        kind = SyntaxKind::Float;
    }
    if byte_at(bytes, to, 0x65) || byte_at(bytes, to, 0x45) {
        let signed: bool = byte_at(bytes, to + 1, 0x2b) || byte_at(bytes, to + 1, 0x2d);
        let from: usize = if signed {
            to + 2
        } else {
            to + 1
        };
        if digits_at(bytes, from, 1) {
            to = run_end(bytes, from, ByteClass::Number);
            assert(ByteClass::Number.spec_holds(bytes@[to - 1]));
            kind = SyntaxKind::Float;
        }
    }
    Lexed { kind, len: to }
}

/// The token of a value that starts with a digit, a sign or a letter.
fn lex_word(bytes: &[u8]) -> (t: Lexed)
    requires
        bytes@.len() > 0,
        ByteClass::Word.spec_holds(bytes@[0]) || bytes@[0] == 0x2b,
    ensures
        t == spec_lex_word(bytes@),
        token_of(bytes@, t),
        t.kind != SyntaxKind::Whitespace,
        t.kind != SyntaxKind::Newline,
        t.kind != SyntaxKind::Comment,
{
    let b: u8 = bytes[0];
    let signed: bool = b == 0x2b || b == 0x2d;
    let digits: usize = if signed {
        1
    } else {
        0
    };
    let mut t: Lexed = Lexed { kind: SyntaxKind::Error, len: 1 };
    let dated: Option<usize> = if signed {
        None
    } else {
        date_end(bytes)
    };
    match dated {
        Some(to) => {
            t = Lexed { kind: SyntaxKind::Date, len: to };
        },
        None => {
            if digits_at(bytes, digits, 1) {
                t = lex_number(bytes, digits);
            } else if (byte_at(bytes, digits, 0x69) && byte_at(bytes, digits + 1, 0x6e) && byte_at(
                bytes,
                digits + 2,
                0x66,
            )) || (byte_at(bytes, digits, 0x6e) && byte_at(bytes, digits + 1, 0x61) && byte_at(
                bytes,
                digits + 2,
                0x6e,
            )) {
                t = Lexed { kind: SyntaxKind::Float, len: digits + 3 };
            } else if b != 0x2b {
                let to: usize = run_end(bytes, 0, ByteClass::Word);
                assert(ByteClass::Word.spec_holds(bytes@[to - 1]));
                let truth: bool = (to == 4 && b == 0x74 && bytes[1] == 0x72 && bytes[2] == 0x75
                    && bytes[3] == 0x65) || (to == 5 && b == 0x66 && bytes[1] == 0x61 && bytes[2]
                    == 0x6c && bytes[3] == 0x73 && bytes[4] == 0x65);
                let kind: SyntaxKind = if truth {
                    SyntaxKind::Bool
                } else {
                    SyntaxKind::Ident
                };
                return Lexed { kind, len: to };
            }
        },
    }
    // A number or a date that runs into the bytes of a word is no value.
    if t.len < bytes.len() && ByteClass::Word.holds(bytes[t.len]) {
        let to: usize = run_end(bytes, t.len, ByteClass::Word);
        assert(ByteClass::Word.spec_holds(bytes@[to - 1]));
        t = Lexed { kind: SyntaxKind::Error, len: to };
    }
    t
}

/// Cuts the first token from `bytes`. Where `key` is set a key is expected,
/// and words are read as bare keys; elsewhere they are read as numbers,
/// dates and truth values.
pub fn lex(bytes: &[u8], key: bool) -> (t: Lexed)
    requires
        bytes@.len() > 0,
    ensures
        t == spec_lex(bytes@, key),
        token_of(bytes@, t),
        simple_token(bytes@, key, t),
{
    let b: u8 = bytes[0];
    if let Some(kind) = punctuation(b) {
        Lexed { kind, len: 1 }
    } else if ByteClass::Blank.holds(b) {
        let to: usize = run_end(bytes, 0, ByteClass::Blank);
        assert(ByteClass::Blank.spec_holds(bytes@[to - 1]));
        Lexed { kind: SyntaxKind::Whitespace, len: to }
    } else if b == 0x0a {
        Lexed { kind: SyntaxKind::Newline, len: 1 }
    } else if b == 0x0d {
        if byte_at(bytes, 1, 0x0a) {
            Lexed { kind: SyntaxKind::Newline, len: 2 }
        } else {
            Lexed { kind: SyntaxKind::Error, len: 1 }
        }
    } else if b == 0x23 {
        let to: usize = run_end(bytes, 0, ByteClass::Line);
        Lexed { kind: SyntaxKind::Comment, len: to }
    } else if b == 0x22 || b == 0x27 {
        lex_string(bytes, b)
    } else if key && ByteClass::Word.holds(b) {
        let to: usize = run_end(bytes, 0, ByteClass::Word);
        assert(ByteClass::Word.spec_holds(bytes@[to - 1]));
        Lexed { kind: SyntaxKind::Ident, len: to }
    } else if ByteClass::Word.holds(b) || b == 0x2b {
        lex_word(bytes)
    } else if b >= 0x80 {
        let to: usize = run_end(bytes, 0, ByteClass::High);
        Lexed { kind: SyntaxKind::Error, len: to }
    } else {
        Lexed { kind: SyntaxKind::Error, len: 1 }
    }
}

} // verus!
