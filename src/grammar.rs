//! The wire grammar, stated as functions from input bytes to the outcome of
//! decoding them. Each function classifies its input completely: a value and
//! the unread suffix, a valid prefix that needs more bytes, or bytes that can
//! never decode.

use crate::model::{Outcome, ValueModel};
use vstd::prelude::*;
use vstd::utf8::{decode_utf8, valid_utf8};

verus! {

/// Carriage return, the first byte of a line terminator.
pub const CR: u8 = 13;

/// Line feed, the second byte of a line terminator.
pub const LF: u8 = 10;

/// `:`, the type byte of an integer.
pub const COLON: u8 = 58;

/// `+`, the type byte of a status line.
pub const PLUS: u8 = 43;

/// `-`, the type byte of an error line and the sign of a negative number.
pub const MINUS: u8 = 45;

/// `$`, the type byte of a bulk string.
pub const DOLLAR: u8 = 36;

/// `*`, the type byte of an array.
pub const STAR: u8 = 42;

/// The digit `0`.
pub const ZERO: u8 = 48;

/// The digit `1`.
pub const ONE: u8 = 49;

/// The digit `9`.
pub const NINE: u8 = 57;

/// The largest non-negative integer; a negative one may have a magnitude one
/// larger. Lengths and counts may go up to `usize::MAX`.
pub const MAX_MAGNITUDE: u64 = 0x7fff_ffff_ffff_ffff;

pub open spec fn is_digit(b: u8) -> bool {
    ZERO <= b <= NINE
}

/// The number of decimal digits at the start of `s`.
pub open spec fn digit_run(s: Seq<u8>) -> nat
    decreases s.len(),
{
    if s.len() > 0 && is_digit(s[0]) {
        1 + digit_run(s.drop_first())
    } else {
        0
    }
}

/// The number that a run of decimal digits denotes.
pub open spec fn digits_value(d: Seq<u8>) -> nat
    decreases d.len(),
{
    if d.len() == 0 {
        0
    } else {
        digits_value(d.drop_last()) * 10 + (d.last() - ZERO) as nat
    }
}

/// The result of reading a decimal number followed by a line terminator.
pub enum Field {
    /// The number and the count of bytes it took, terminator included.
    Number { value: nat, len: nat },
    /// A valid prefix of such a line.
    Short,
    /// No extension of the input is such a line.
    Bad,
}

/// Reads one or more digits denoting at most `bound`, then CR LF.
pub open spec fn number_line(t: Seq<u8>, bound: nat) -> Field {
    let k = digit_run(t);
    if k == 0 {
        if t.len() == 0 {
            Field::Short
        } else {
            Field::Bad
        }
    } else if digits_value(t.take(k as int)) > bound {
        Field::Bad
    } else if t.len() == k {
        Field::Short
    } else if t[k as int] != CR {
        Field::Bad
    } else if t.len() == k + 1 {
        Field::Short
    } else if t[(k + 1) as int] != LF {
        Field::Bad
    } else {
        Field::Number { value: digits_value(t.take(k as int)), len: k + 2 }
    }
}

/// The rest of a nil marker after its type byte.
pub open spec fn nil_marker() -> Seq<u8> {
    seq![MINUS, ONE, CR, LF]
}

/// Reads the nil marker `-1` CR LF.
pub open spec fn nil_tail(t: Seq<u8>) -> Outcome {
    if t.len() >= 4 && t.take(4) == nil_marker() {
        Outcome::Done(ValueModel::Nil, t.skip(4))
    } else if t.len() < 4 && t == nil_marker().take(t.len() as int) {
        Outcome::Incomplete
    } else {
        Outcome::Malformed
    }
}

/// The grammar of an integer: `:`, an optional `-`, digits, CR LF.
pub open spec fn integer_grammar(s: Seq<u8>) -> Outcome {
    if s.len() == 0 {
        Outcome::Incomplete
    } else if s[0] != COLON {
        Outcome::Malformed
    } else {
        let t = s.drop_first();
        let negative = t.len() > 0 && t[0] == MINUS;
        let u = if negative {
            t.drop_first()
        } else {
            t
        };
        let bound = if negative {
            MAX_MAGNITUDE as nat + 1
        } else {
            MAX_MAGNITUDE as nat
        };
        match number_line(u, bound) {
            Field::Number { value, len } => Outcome::Done(
                ValueModel::Integer(
                    if negative {
                        -value
                    } else {
                        value as int
                    },
                ),
                u.skip(len as int),
            ),
            Field::Short => Outcome::Incomplete,
            Field::Bad => Outcome::Malformed,
        }
    }
}

/// Whether a line terminator starts at index `i` of `s`.
pub open spec fn crlf_at(s: Seq<u8>, i: int) -> bool {
    0 <= i && i + 1 < s.len() && s[i] == CR && s[i + 1] == LF
}

/// The index of the first line terminator at or after index `i`.
pub open spec fn first_crlf(s: Seq<u8>, i: nat) -> Option<nat>
    decreases s.len() - i,
{
    if i + 1 >= s.len() {
        None
    } else if crlf_at(s, i as int) {
        Some(i)
    } else {
        first_crlf(s, i + 1)
    }
}

/// The grammar of a text line: the type byte `tag`, text up to the first
/// CR LF, CR LF. The text must be valid UTF-8.
pub open spec fn text_line_grammar(s: Seq<u8>, tag: u8) -> Outcome {
    if s.len() == 0 {
        Outcome::Incomplete
    } else if s[0] != tag {
        Outcome::Malformed
    } else {
        match first_crlf(s, 1) {
            None => Outcome::Incomplete,
            Some(j) => {
                let text = s.subrange(1, j as int);
                if !valid_utf8(text) {
                    Outcome::Malformed
                } else if tag == PLUS {
                    Outcome::Done(ValueModel::Status(decode_utf8(text)), s.skip((j + 2) as int))
                } else {
                    Outcome::Done(ValueModel::Error(decode_utf8(text)), s.skip((j + 2) as int))
                }
            },
        }
    }
}

/// The grammar of a status line, `+text` CR LF.
pub open spec fn status_grammar(s: Seq<u8>) -> Outcome {
    text_line_grammar(s, PLUS)
}

/// The grammar of an error line, `-text` CR LF.
pub open spec fn error_grammar(s: Seq<u8>) -> Outcome {
    text_line_grammar(s, MINUS)
}

/// The grammar of a bulk string: `$-1` CR LF for nil, or `$`, a length `n`,
/// CR LF, exactly `n` bytes of any value, CR LF.
pub open spec fn bulk_string_grammar(s: Seq<u8>) -> Outcome {
    if s.len() == 0 {
        Outcome::Incomplete
    } else if s[0] != DOLLAR {
        Outcome::Malformed
    } else {
        let t = s.drop_first();
        if t.len() > 0 && t[0] == MINUS {
            nil_tail(t)
        } else {
            match number_line(t, usize::MAX as nat) {
                Field::Number { value: n, len } => {
                    let body = t.skip(len as int);
                    if body.len() <= n {
                        Outcome::Incomplete
                    } else if body[n as int] != CR {
                        Outcome::Malformed
                    } else if body.len() == n + 1 {
                        Outcome::Incomplete
                    } else if body[(n + 1) as int] != LF {
                        Outcome::Malformed
                    } else {
                        Outcome::Done(
                            ValueModel::BulkString(body.take(n as int)),
                            body.skip((n + 2) as int),
                        )
                    }
                },
                Field::Short => Outcome::Incomplete,
                Field::Bad => Outcome::Malformed,
            }
        }
    }
}

/// The grammar of an array element: an integer or a bulk string, told apart
/// by the type byte.
#[verifier::opaque]
pub open spec fn element_grammar(s: Seq<u8>) -> Outcome {
    if s.len() == 0 {
        Outcome::Incomplete
    } else if s[0] == COLON {
        integer_grammar(s)
    } else if s[0] == DOLLAR {
        bulk_string_grammar(s)
    } else {
        Outcome::Malformed
    }
}

/// The result of decoding a number of elements one after another.
pub enum Elements {
    Done(Seq<ValueModel>, Seq<u8>),
    Incomplete,
    Malformed,
}

/// Puts `vs` in front of the elements of `e`, if it holds any.
pub open spec fn prepend(vs: Seq<ValueModel>, e: Elements) -> Elements {
    match e {
        Elements::Done(ws, rest) => Elements::Done(vs + ws, rest),
        other => other,
    }
}

/// Decodes `n` elements in order, each from where the one before it stopped.
/// The first element that does not decode decides the result.
pub open spec fn elements(s: Seq<u8>, n: nat) -> Elements
    decreases n,
{
    if n == 0 {
        Elements::Done(seq![], s)
    } else {
        match element_grammar(s) {
            Outcome::Done(v, rest) => prepend(seq![v], elements(rest, (n - 1) as nat)),
            Outcome::Incomplete => Elements::Incomplete,
            Outcome::Malformed => Elements::Malformed,
        }
    }
}

/// An array's outcome, from the outcome of decoding its elements.
pub open spec fn array_of(e: Elements) -> Outcome {
    match e {
        Elements::Done(vs, rest) => Outcome::Done(ValueModel::Array(vs), rest),
        Elements::Incomplete => Outcome::Incomplete,
        Elements::Malformed => Outcome::Malformed,
    }
}

/// The grammar of an array: `*-1` CR LF for nil, or `*`, a count `n`,
/// CR LF, then `n` elements.
pub open spec fn array_grammar(s: Seq<u8>) -> Outcome {
    if s.len() == 0 {
        Outcome::Incomplete
    } else if s[0] != STAR {
        Outcome::Malformed
    } else {
        let t = s.drop_first();
        if t.len() > 0 && t[0] == MINUS {
            nil_tail(t)
        } else {
            match number_line(t, usize::MAX as nat) {
                Field::Number { value: n, len } => array_of(elements(t.skip(len as int), n)),
                Field::Short => Outcome::Incomplete,
                Field::Bad => Outcome::Malformed,
            }
        }
    }
}

} // verus!
