//! The grammar: what tree and what errors a text gives.
//!
//! Reading is told as a function of the bytes. A `Read` holds what has been
//! read so far, as the steps of the walk through the elements made and the
//! errors found, and what is left to read.

use vstd::prelude::*;
use vstd::utf8::*;
use crate::error::SyntaxErrorModel;
use crate::kind::SyntaxKind;
use crate::lexer::{has_byte, spec_lex, Lexed};
use crate::parser::{spec_starts_key, spec_starts_value};
use crate::rowan_tree::WalkModel;
use crate::text::TextRange;

verus! {

/// What has been read, and what is left.
pub struct Read {
    /// The steps of the walk through the elements made so far.
    pub walk: Seq<WalkModel>,
    /// The errors found so far, in order.
    pub errors: Seq<SyntaxErrorModel>,
    /// The bytes that are left to read.
    pub rest: Seq<u8>,
    /// The offset at which they start.
    pub pos: int,
}

/// Nothing read yet.
pub open spec fn nothing(rest: Seq<u8>, pos: int) -> Read {
    Read { walk: Seq::<WalkModel>::empty(), errors: Seq::<SyntaxErrorModel>::empty(), rest, pos }
}

/// What `a` read, and then what `b` read from where `a` stopped.
pub open spec fn then(a: Read, b: Read) -> Read {
    Read { walk: a.walk + b.walk, errors: a.errors + b.errors, rest: b.rest, pos: b.pos }
}

/// What `inner` read, as the content of one node of kind `kind`.
pub open spec fn wrapped(kind: SyntaxKind, inner: Read) -> Read {
    Read {
        walk: seq![WalkModel::Enter(kind.spec_code())] + inner.walk + seq![WalkModel::Leave],
        errors: inner.errors,
        rest: inner.rest,
        pos: inner.pos,
    }
}

/// `acc` with one more error, at `start..end`.
pub open spec fn fail(acc: Read, start: int, end: int, message: Seq<char>) -> Read {
    Read {
        walk: acc.walk,
        errors: acc.errors.push(
            SyntaxErrorModel {
                range: TextRange { start: start as usize, end: end as usize },
                message,
            },
        ),
        rest: acc.rest,
        pos: acc.pos,
    }
}

/// The text of the first `len` bytes.
pub open spec fn text_of(rest: Seq<u8>, len: int) -> Seq<char> {
    decode_utf8(rest.subrange(0, len))
}

/// `acc` with the token `t` read from what was left, as a token of kind
/// `kind`.
pub open spec fn eat(acc: Read, t: Lexed, kind: SyntaxKind) -> Read {
    Read {
        walk: acc.walk.push(WalkModel::Token(kind.spec_code(), text_of(acc.rest, t.len as int))),
        errors: acc.errors,
        rest: acc.rest.subrange(t.len as int, acc.rest.len() as int),
        pos: acc.pos + t.len,
    }
}

/// The next token, if any bytes are left. A token is never empty and never
/// longer than the text that a machine can hold (`lemma_lex_fits`); for any
/// other text reading stops.
pub open spec fn next(rest: Seq<u8>, key: bool) -> Option<Lexed> {
    if rest.len() == 0 {
        None
    } else {
        let t: Lexed = spec_lex(rest, key);
        if 0 < t.len <= rest.len() {
            Some(t)
        } else {
            None
        }
    }
}

/// Whether a token of this kind is passed over between the parts of a
/// construct: a blank, and a line break or a comment too where `lines` is
/// set.
pub open spec fn is_fill(kind: SyntaxKind, lines: bool) -> bool {
    kind == SyntaxKind::Whitespace || (lines && (kind == SyntaxKind::Newline || kind
        == SyntaxKind::Comment))
}

/// Reads on over blanks, and over line breaks and comments where `lines`
/// is set.
pub open spec fn read_fill(acc: Read, lines: bool) -> Read
    decreases acc.rest.len(),
{
    match next(acc.rest, false) {
        Some(t) => if is_fill(t.kind, lines) {
            read_fill(eat(acc, t, t.kind), lines)
        } else {
            acc
        },
        None => acc,
    }
}

/// The kind of the next token that is no blank, where a key is expected.
pub open spec fn kind_after(rest: Seq<u8>) -> Option<SyntaxKind> {
    match next(rest, true) {
        Some(t) => if t.kind == SyntaxKind::Whitespace {
            match next(rest.subrange(t.len as int, rest.len() as int), true) {
                Some(u) => Some(u.kind),
                None => None,
            }
        } else {
            Some(t.kind)
        },
        None => None,
    }
}

/// Reads the further segments of a key: as long as a period comes next,
/// after blanks or without, the period and the segment after it. A period
/// that no segment follows is an error.
pub open spec fn read_segments(acc: Read) -> Read
    decreases acc.rest.len(),
{
    if kind_after(acc.rest) != Some(SyntaxKind::Period) {
        acc
    } else {
        let blank: Read = read_fill(acc, false);
        match next(blank.rest, true) {
            Some(t) => if t.kind != SyntaxKind::Period {
                blank
            } else {
                let period: Read = read_fill(eat(blank, t, t.kind), false);
                match next(period.rest, true) {
                    Some(u) => if spec_starts_key(u.kind) {
                        let segment: Read = eat(period, u, SyntaxKind::Ident);
                        if segment.rest.len() < acc.rest.len() {
                            read_segments(segment)
                        } else {
                            segment
                        }
                    } else {
                        fail(period, period.pos, period.pos, "expected a key after `.`"@)
                    },
                    None => fail(period, period.pos, period.pos, "expected a key after `.`"@),
                }
            },
            None => blank,
        }
    }
}

/// Reads a key whose first token is `first`: that segment, and those that
/// follow it after periods. Every segment becomes an identifier token.
pub open spec fn read_key(rest: Seq<u8>, pos: int, first: Lexed) -> Read {
    wrapped(SyntaxKind::Key, read_segments(eat(nothing(rest, pos), first, SyntaxKind::Ident)))
}

/// Reads a value whose first token is `first`: an array after `[`, an
/// inline table after `{`, and else the token itself as a scalar.
pub open spec fn read_value(rest: Seq<u8>, pos: int, first: Lexed) -> Read
    decreases rest.len(), 2int,
{
    wrapped(
        SyntaxKind::Value,
        if first.kind == SyntaxKind::BracketStart {
            then(nothing(rest, pos), read_array(rest, pos, first))
        } else if first.kind == SyntaxKind::BraceStart {
            then(nothing(rest, pos), read_inline(rest, pos, first))
        } else {
            eat(nothing(rest, pos), first, first.kind)
        },
    )
}

/// Reads an array whose opening bracket is `first`.
pub open spec fn read_array(rest: Seq<u8>, pos: int, first: Lexed) -> Read
    decreases rest.len(), 1int,
{
    let open: Read = eat(nothing(rest, pos), first, SyntaxKind::BracketStart);
    wrapped(
        SyntaxKind::Array,
        if open.rest.len() < rest.len() {
            read_items(open, true)
        } else {
            open
        },
    )
}

/// Reads the items of an array up to its closing bracket, over blanks, line
/// breaks and comments. `separated` tells that no value was read since the
/// last comma or the opening bracket. A comma where none is due, a value
/// where a comma is due, and a token that starts no value are errors; so is
/// the end of the text.
pub open spec fn read_items(acc: Read, separated: bool) -> Read
    decreases acc.rest.len() + 1, 0int,
{
    let f: Read = read_fill(acc, true);
    if f.rest.len() > acc.rest.len() {
        f
    } else {
        match next(f.rest, false) {
            None => fail(f, f.pos, f.pos, "expected `]`"@),
            Some(t) => if t.kind == SyntaxKind::BracketEnd {
                eat(f, t, t.kind)
            } else if t.kind == SyntaxKind::Comma {
                read_items(
                    eat(
                        if separated {
                            fail(f, f.pos, f.pos + t.len, "unexpected `,`"@)
                        } else {
                            f
                        },
                        t,
                        t.kind,
                    ),
                    true,
                )
            } else if spec_starts_value(t.kind) {
                let v: Read = then(
                    if separated {
                        f
                    } else {
                        fail(f, f.pos, f.pos, "expected `,`"@)
                    },
                    read_value(f.rest, f.pos, t),
                );
                if v.rest.len() < f.rest.len() {
                    read_items(v, false)
                } else {
                    v
                }
            } else {
                read_items(
                    eat(
                        fail(f, f.pos, f.pos + t.len, "expected a value"@),
                        t,
                        SyntaxKind::Error,
                    ),
                    separated,
                )
            },
        }
    }
}

/// Reads an inline table whose opening brace is `first`.
pub open spec fn read_inline(rest: Seq<u8>, pos: int, first: Lexed) -> Read
    decreases rest.len(), 1int,
{
    let open: Read = eat(nothing(rest, pos), first, SyntaxKind::BraceStart);
    wrapped(
        SyntaxKind::InlineTable,
        if open.rest.len() < rest.len() {
            read_members(open, true)
        } else {
            open
        },
    )
}

/// Reads the entries of an inline table up to its closing brace, over
/// blanks. An inline table ends with its line: a line break before the brace
/// is an error, as is the end of the text, a comma where none is due, an
/// entry where a comma is due, and a token that starts no key.
pub open spec fn read_members(acc: Read, separated: bool) -> Read
    decreases acc.rest.len() + 1, 0int,
{
    let f: Read = read_fill(acc, false);
    if f.rest.len() > acc.rest.len() {
        f
    } else {
        match next(f.rest, true) {
            None => fail(f, f.pos, f.pos, "expected `}`"@),
            Some(t) => if t.kind == SyntaxKind::BraceEnd {
                eat(f, t, t.kind)
            } else if t.kind == SyntaxKind::Newline {
                fail(f, f.pos, f.pos, "expected `}`"@)
            } else if t.kind == SyntaxKind::Comma {
                read_members(
                    eat(
                        if separated {
                            fail(f, f.pos, f.pos + t.len, "unexpected `,`"@)
                        } else {
                            f
                        },
                        t,
                        t.kind,
                    ),
                    true,
                )
            } else if spec_starts_key(t.kind) {
                let e: Read = then(
                    if separated {
                        f
                    } else {
                        fail(f, f.pos, f.pos, "expected `,`"@)
                    },
                    read_entry(f.rest, f.pos, t),
                );
                if e.rest.len() < f.rest.len() {
                    read_members(e, false)
                } else {
                    e
                }
            } else {
                read_members(
                    eat(fail(f, f.pos, f.pos + t.len, "expected a key"@), t, SyntaxKind::Error),
                    separated,
                )
            },
        }
    }
}

/// Reads a key-value pair whose key starts with `first`: the key, `=`, and
/// the value, with blanks between them. A missing `=` and a missing value
/// are errors, and end the pair.
pub open spec fn read_entry(rest: Seq<u8>, pos: int, first: Lexed) -> Read
    decreases rest.len(), 3int,
{
    let key: Read = read_fill(then(nothing(rest, pos), read_key(rest, pos, first)), false);
    wrapped(
        SyntaxKind::Entry,
        match next(key.rest, false) {
            Some(t) => if t.kind == SyntaxKind::Eq {
                let eq: Read = read_fill(eat(key, t, t.kind), false);
                match next(eq.rest, false) {
                    Some(u) => if spec_starts_value(u.kind) && eq.rest.len() <= rest.len() {
                        then(eq, read_value(eq.rest, eq.pos, u))
                    } else {
                        fail(eq, eq.pos, eq.pos, "expected a value"@)
                    },
                    None => fail(eq, eq.pos, eq.pos, "expected a value"@),
                }
            } else {
                fail(key, key.pos, key.pos, "expected `=`"@)
            },
            None => fail(key, key.pos, key.pos, "expected `=`"@),
        },
    )
}

/// Reads up to `wanted` closing brackets; a missing one is an error.
pub open spec fn read_closers(acc: Read, wanted: int) -> Read
    decreases wanted,
{
    if wanted <= 0 {
        acc
    } else {
        match next(acc.rest, true) {
            Some(t) => if t.kind == SyntaxKind::BracketEnd {
                read_closers(eat(acc, t, t.kind), wanted - 1)
            } else {
                fail(acc, acc.pos, acc.pos, "expected `]`"@)
            },
            None => fail(acc, acc.pos, acc.pos, "expected `]`"@),
        }
    }
}

/// Whether the header that opens with the bracket `first` is one of an
/// array of tables: a second bracket follows the first directly.
pub open spec fn opens_array(rest: Seq<u8>, first: Lexed) -> bool {
    has_byte(rest.subrange(first.len as int, rest.len() as int), 0, 0x5b)
}

/// Reads a header whose opening bracket is `first`: one bracket for a
/// table and two for an array of tables, the key, and as many closing
/// brackets, with blanks between them. A missing key and a missing bracket
/// are errors.
pub open spec fn read_header(rest: Seq<u8>, pos: int, first: Lexed) -> Read {
    let array: bool = opens_array(rest, first);
    let open: Read = eat(nothing(rest, pos), first, SyntaxKind::BracketStart);
    let second: Read = match next(open.rest, true) {
        Some(t) => if array && t.kind == SyntaxKind::BracketStart {
            eat(open, t, t.kind)
        } else {
            open
        },
        None => open,
    };
    let before: Read = read_fill(second, false);
    let key: Read = match next(before.rest, true) {
        Some(t) => if spec_starts_key(t.kind) {
            then(before, read_key(before.rest, before.pos, t))
        } else {
            fail(before, before.pos, before.pos, "expected a key"@)
        },
        None => fail(before, before.pos, before.pos, "expected a key"@),
    };
    wrapped(
        if array {
            SyntaxKind::TableArrayHeader
        } else {
            SyntaxKind::TableHeader
        },
        read_closers(
            read_fill(key, false),
            if array {
                2
            } else {
                1
            },
        ),
    )
}

/// Reads the constructs of a document to the end of the text: blanks, line
/// breaks and comments, headers, key-value pairs, and as error tokens what
/// is none of these. `fresh` tells that no construct was read on the line
/// so far; a second construct on a line is an error.
pub open spec fn read_constructs(acc: Read, fresh: bool) -> Read
    decreases acc.rest.len(),
{
    match next(acc.rest, true) {
        None => acc,
        Some(t) => {
            let now: bool = fresh || t.kind == SyntaxKind::Newline;
            if t.kind.spec_is_trivia() {
                read_constructs(eat(acc, t, t.kind), now)
            } else if t.kind == SyntaxKind::BracketStart || spec_starts_key(t.kind) {
                let c: Read = then(
                    if now {
                        acc
                    } else {
                        fail(acc, acc.pos, acc.pos, "expected a line break"@)
                    },
                    if t.kind == SyntaxKind::BracketStart {
                        read_header(acc.rest, acc.pos, t)
                    } else {
                        read_entry(acc.rest, acc.pos, t)
                    },
                );
                if c.rest.len() < acc.rest.len() {
                    read_constructs(c, false)
                } else {
                    c
                }
            } else {
                read_constructs(
                    eat(
                        fail(acc, acc.pos, acc.pos + t.len, "unexpected token"@),
                        t,
                        SyntaxKind::Error,
                    ),
                    now,
                )
            }
        },
    }
}

/// What a document with the given bytes reads as: the walk through its
/// tree, and its syntax errors.
pub open spec fn read_document(bytes: Seq<u8>) -> Read {
    wrapped(SyntaxKind::Root, read_constructs(nothing(bytes, 0), true))
}

} // verus!
