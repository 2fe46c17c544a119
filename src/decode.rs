//! The decoders. Each one reads from the start of a byte slice and returns
//! exactly what the matching function of [`crate::grammar`] states.

use crate::grammar::{
    array_grammar, array_of, bulk_string_grammar, digit_run, digits_value, element_grammar,
    elements, error_grammar, first_crlf, integer_grammar, is_digit, nil_marker, nil_tail,
    number_line, prepend, status_grammar, text_line_grammar, Elements, Field, COLON, CR, DOLLAR,
    LF, MAX_MAGNITUDE, MINUS, NINE, ONE, PLUS, STAR, ZERO,
};
use crate::model::{Decoded, Value, ValueModel};
use vstd::prelude::*;
use vstd::slice::{slice_subrange, slice_to_vec};
use vstd::utf8::{decode_utf8, valid_utf8};

verus! {

/// What was read of a decimal number line that starts at a given index.
enum Header {
    /// The number and the index just past its terminator.
    Number(u64, usize),
    /// A valid prefix of a number line.
    Short,
    /// Not a number line, whatever follows.
    Bad,
}

/// Whether `h`, read at index `pos` of `s`, is what `number_line` gives.
spec fn header_agrees(h: Header, s: Seq<u8>, pos: int, bound: nat) -> bool {
    match number_line(s.skip(pos), bound) {
        Field::Number { value, len } => h matches Header::Number(v, end) && v == value && end
            == pos + len,
        Field::Short => h is Short,
        Field::Bad => h is Bad,
    }
}

fn is_digit_byte(b: u8) -> (r: bool)
    ensures
        r == is_digit(b),
{
    ZERO <= b && b <= NINE
}

/// Reads a decimal number of at most `bound` and its terminator, starting
/// at index `pos`.
fn number_at(s: &[u8], pos: usize, bound: u64) -> (h: Header)
    requires
        pos <= s@.len(),
    ensures
        header_agrees(h, s@, pos as int, bound as nat),
        h matches Header::Number(_, end) ==> pos < end <= s@.len(),
{
    let ghost t = s@.skip(pos as int);
    let mut i: usize = pos;
    let mut val: u64 = 0;
    let mut over = false;
    while i < s.len() && is_digit_byte(s[i])
        invariant
            pos <= i <= s@.len(),
            t == s@.skip(pos as int),
            digit_run(t) == (i - pos) + digit_run(s@.skip(i as int)),
            !over ==> val == digits_value(s@.subrange(pos as int, i as int)) && val <= bound,
            over ==> digits_value(s@.subrange(pos as int, i as int)) > bound,
        decreases s@.len() - i,
    {
        let d = s[i] - ZERO;
        proof {
            assert(s@.skip(i as int).drop_first() =~= s@.skip(i + 1));
            assert(s@.subrange(pos as int, i + 1).drop_last() =~= s@.subrange(pos as int, i as int));
        }
        if !over {
            let next: u128 = val as u128 * 10 + d as u128;
            if next > bound as u128 {
                over = true;
            } else {
                val = next as u64;
            }
        }
        i = i + 1;
    }
    proof {
        assert(digit_run(s@.skip(i as int)) == 0);
        assert(t.take((i - pos) as int) =~= s@.subrange(pos as int, i as int));
    }
    if i == pos {
        if pos == s.len() {
            Header::Short
        } else {
            Header::Bad
        }
    } else if over {
        Header::Bad
    } else if i == s.len() {
        Header::Short
    } else if s[i] != CR {
        Header::Bad
    } else if i + 1 == s.len() {
        Header::Short
    } else if s[i + 1] != LF {
        Header::Bad
    } else {
        Header::Number(val, i + 2)
    }
}


/// Relies on `String::from_utf8`: it accepts exactly the byte sequences that
/// are valid UTF-8, and then holds the characters they encode.
#[verifier::external_body]
fn utf8_text(bytes: &[u8]) -> (r: Option<String>)
    ensures
        r is Some <==> valid_utf8(bytes@),
        r matches Some(t) ==> t@ == decode_utf8(bytes@),
{
    String::from_utf8(bytes.to_vec()).ok()
}

/// The suffix of `s` that starts at index `pos`.
fn rest_from<'a>(s: &'a [u8], pos: usize) -> (r: &'a [u8])
    requires
        pos <= s@.len(),
    ensures
        r@ == s@.skip(pos as int),
{
    let r = slice_subrange(s, pos, s.len());
    assert(r@ =~= s@.skip(pos as int));
    r
}

/// Decodes an integer: `:`, an optional `-`, digits, CR LF.
pub fn integer<'a>(input: &'a [u8]) -> (r: Decoded<'a>)
    ensures
        r@ == integer_grammar(input@),
{
    if input.len() == 0 {
        return Decoded::Incomplete;
    }
    if input[0] != COLON {
        return Decoded::Malformed;
    }
    let negative = input.len() > 1 && input[1] == MINUS;
    let start: usize = if negative {
        2
    } else {
        1
    };
    let bound: u64 = if negative {
        MAX_MAGNITUDE + 1
    } else {
        MAX_MAGNITUDE
    };
    proof {
        let t = input@.drop_first();
        if negative {
            assert(t.drop_first() =~= input@.skip(2));
        } else {
            assert(t =~= input@.skip(1));
        }
    }
    match number_at(input, start, bound) {
        Header::Number(m, end) => {
            let v: i64 = if negative {
                (-(m as i128)) as i64
            } else {
                m as i64
            };
            proof {
                assert(input@.skip(start as int).skip(end - start) =~= input@.skip(end as int));
            }
            Decoded::Done(rest_from(input, end), Value::Integer(v))
        },
        Header::Short => Decoded::Incomplete,
        Header::Bad => Decoded::Malformed,
    }
}

/// Decodes a line of text after the type byte `tag`.
fn text_line<'a>(input: &'a [u8], tag: u8) -> (r: Decoded<'a>)
    ensures
        r@ == text_line_grammar(input@, tag),
{
    if input.len() == 0 {
        return Decoded::Incomplete;
    }
    if input[0] != tag {
        return Decoded::Malformed;
    }
    let mut j: usize = 1;
    while j < input.len() - 1 && !(input[j] == CR && input[j + 1] == LF)
        invariant
            1 <= j <= input@.len(),
            first_crlf(input@, 1) == first_crlf(input@, j as nat),
        decreases input@.len() - j,
    {
        j = j + 1;
    }
    if j >= input.len() - 1 {
        return Decoded::Incomplete;
    }
    let text = slice_subrange(input, 1, j);
    match utf8_text(text) {
        Some(t) => {
            let v = if tag == PLUS {
                Value::Status(t)
            } else {
                Value::Error(t)
            };
            Decoded::Done(rest_from(input, j + 2), v)
        },
        None => Decoded::Malformed,
    }
}

/// Decodes a status line: `+`, text, CR LF.
pub fn status<'a>(input: &'a [u8]) -> (r: Decoded<'a>)
    ensures
        r@ == status_grammar(input@),
{
    text_line(input, PLUS)
}

/// Decodes an error line: `-`, text, CR LF.
pub fn error<'a>(input: &'a [u8]) -> (r: Decoded<'a>)
    ensures
        r@ == error_grammar(input@),
{
    text_line(input, MINUS)
}


/// Reads the nil marker `-1` CR LF at index `pos`, where a `-` stands.
fn nil_at<'a>(s: &'a [u8], pos: usize) -> (r: Decoded<'a>)
    requires
        pos < s@.len(),
        s@[pos as int] == MINUS,
    ensures
        r@ == nil_tail(s@.skip(pos as int)),
{
    let ghost t = s@.skip(pos as int);
    let avail = s.len() - pos;
    if avail >= 4 {
        if s[pos + 1] == ONE && s[pos + 2] == CR && s[pos + 3] == LF {
            assert(t.take(4) =~= nil_marker());
            proof {
                assert(t.skip(4) =~= s@.skip(pos + 4));
            }
            Decoded::Done(rest_from(s, pos + 4), Value::Nil)
        } else {
            assert(t.take(4)[1] == s@[pos + 1] && t.take(4)[2] == s@[pos + 2] && t.take(4)[3]
                == s@[pos + 3]);
            Decoded::Malformed
        }
    } else if (avail < 2 || s[pos + 1] == ONE) && (avail < 3 || s[pos + 2] == CR) {
        assert(t =~= nil_marker().take(t.len() as int));
        Decoded::Incomplete
    } else {
        assert(avail >= 2 ==> t[1] == s@[pos + 1]);
        assert(avail >= 3 ==> t[2] == s@[pos + 2]);
        Decoded::Malformed
    }
}

/// Decodes a bulk string: `$-1` CR LF for nil, or `$`, a length `n`, CR LF,
/// `n` bytes, CR LF.
pub fn bulk_string<'a>(input: &'a [u8]) -> (r: Decoded<'a>)
    ensures
        r@ == bulk_string_grammar(input@),
{
    if input.len() == 0 {
        return Decoded::Incomplete;
    }
    if input[0] != DOLLAR {
        return Decoded::Malformed;
    }
    proof {
        assert(input@.drop_first() =~= input@.skip(1));
    }
    if input.len() > 1 && input[1] == MINUS {
        return nil_at(input, 1);
    }
    match number_at(input, 1, usize::MAX as u64) {
        Header::Number(n, p) => {
            let ghost body = input@.skip(1).skip(p - 1);
            assert(body =~= input@.skip(p as int));
            let avail = input.len() - p;
            if (avail as u64) <= n {
                return Decoded::Incomplete;
            }
            let q = p + n as usize;
            if input[q] != CR {
                Decoded::Malformed
            } else if q + 1 == input.len() {
                Decoded::Incomplete
            } else if input[q + 1] != LF {
                Decoded::Malformed
            } else {
                let payload = slice_to_vec(slice_subrange(input, p, q));
                assert(payload@ =~= body.take(n as int));
                assert(body.skip(n + 2) =~= input@.skip(q + 2));
                Decoded::Done(rest_from(input, q + 2), Value::BulkString(payload))
            }
        },
        Header::Short => Decoded::Incomplete,
        Header::Bad => Decoded::Malformed,
    }
}

/// Decodes one array element: an integer or a bulk string, chosen by the
/// type byte.
pub fn value<'a>(input: &'a [u8]) -> (r: Decoded<'a>)
    ensures
        r@ == element_grammar(input@),
{
    reveal(element_grammar);
    if input.len() == 0 {
        Decoded::Incomplete
    } else if input[0] == COLON {
        integer(input)
    } else if input[0] == DOLLAR {
        bulk_string(input)
    } else {
        Decoded::Malformed
    }
}

/// The models of a sequence of values, in order.
spec fn models(items: Seq<Value>) -> Seq<ValueModel> {
    Seq::new(items.len(), |k: int| items[k]@)
}

proof fn lemma_prepend_twice(a: Seq<ValueModel>, b: Seq<ValueModel>, e: Elements)
    ensures
        prepend(a, prepend(b, e)) == prepend(a + b, e),
{
    if let Elements::Done(ws, rest) = e {
        assert(a + (b + ws) =~= (a + b) + ws);
    }
}

/// Decodes an array: `*-1` CR LF for nil, or `*`, a count `n`, CR LF, then
/// `n` elements, each decoded from where the one before it stopped.
pub fn array<'a>(input: &'a [u8]) -> (r: Decoded<'a>)
    ensures
        r@ == array_grammar(input@),
{
    if input.len() == 0 {
        return Decoded::Incomplete;
    }
    if input[0] != STAR {
        return Decoded::Malformed;
    }
    proof {
        assert(input@.drop_first() =~= input@.skip(1));
    }
    if input.len() > 1 && input[1] == MINUS {
        return nil_at(input, 1);
    }
    match number_at(input, 1, usize::MAX as u64) {
        Header::Number(n, p) => {
            let ghost body = input@.skip(1).skip(p - 1);
            assert(body =~= input@.skip(p as int));
            let mut rest = rest_from(input, p);
            let mut items: Vec<Value> = Vec::new();
            let mut i: u64 = 0;
            assert(prepend(seq![], elements(rest@, n as nat)) == elements(body, n as nat)) by {
                if let Elements::Done(ws, r) = elements(rest@, n as nat) {
                    assert(Seq::<ValueModel>::empty() + ws =~= ws);
                }
            }
            assert(models(items@) =~= seq![]);
            while i < n
                invariant
                    i <= n,
                    array_grammar(input@) == array_of(elements(body, n as nat)),
                    elements(body, n as nat) == prepend(
                        models(items@),
                        elements(rest@, (n - i) as nat),
                    ),
                decreases n - i,
            {
                match value(rest) {
                    Decoded::Done(next, v) => {
                        proof {
                            lemma_prepend_twice(
                                models(items@),
                                seq![v@],
                                elements(next@, (n - i - 1) as nat),
                            );
                        }
                        let ghost before = items@;
                        let ghost vm = v@;
                        items.push(v);
                        assert(models(items@) =~= models(before) + seq![vm]);
                        rest = next;
                        i = i + 1;
                    },
                    Decoded::Incomplete => {
                        return Decoded::Incomplete;
                    },
                    Decoded::Malformed => {
                        return Decoded::Malformed;
                    },
                }
            }
            assert(elements(rest@, 0) == Elements::Done(seq![], rest@));
            assert(models(items@) + seq![] =~= models(items@));
            let ghost vs = models(items@);
            let out = Value::Array(items);
            assert(out@ matches ValueModel::Array(ws) && ws =~= vs);
            Decoded::Done(rest, out)
        },
        Header::Short => Decoded::Incomplete,
        Header::Bad => Decoded::Malformed,
    }
}

} // verus!
