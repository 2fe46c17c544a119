//! The valid encodings of each kind of value, and what decoding them gives:
//! the value itself, with nothing read past the encoding, while every strict
//! prefix of an encoding asks for more input.
//!
//! A number may be written with leading zeros, so an encoding is described
//! by the digit strings it uses as well as by the value it carries.

use crate::grammar::{
    array_grammar, bulk_string_grammar, crlf_at, digit_run, digits_value, element_grammar,
    elements, first_crlf, integer_grammar, is_digit, nil_marker, nil_tail, number_line,
    text_line_grammar, Elements, Field, COLON, CR, DOLLAR, LF, MAX_MAGNITUDE, MINUS, PLUS, STAR,
    ZERO,
};
use crate::model::{Outcome, ValueModel};
use vstd::prelude::*;
use vstd::utf8::{encode_utf8, encode_utf8_decode_utf8, encode_utf8_valid_utf8};

verus! {

/// A line terminator.
pub open spec fn crlf() -> Seq<u8> {
    seq![CR, LF]
}

pub open spec fn all_digits(d: Seq<u8>) -> bool {
    forall|i: int| 0 <= i < d.len() ==> is_digit(#[trigger] d[i])
}

/// Whether `d` can be the digits of a number: one or more decimal digits.
pub open spec fn digits_ok(d: Seq<u8>) -> bool {
    d.len() >= 1 && all_digits(d)
}

/// The decimal digits of `n`, most significant first, without leading zeros.
pub open spec fn decimal(n: nat) -> Seq<u8>
    decreases n,
{
    if n < 10 {
        seq![(ZERO + n) as u8]
    } else {
        decimal(n / 10).push((ZERO + n % 10) as u8)
    }
}

/// The shortest digits of `n` are valid digits and denote `n`: every
/// number has an encoding that the laws of this crate apply to.
pub proof fn lemma_decimal(n: nat)
    ensures
        digits_ok(decimal(n)),
        digits_value(decimal(n)) == n,
    decreases n,
{
    if n >= 10 {
        lemma_decimal(n / 10);
        let d = decimal(n);
        assert(d.drop_last() =~= decimal(n / 10));
        assert(d.last() == (ZERO + n % 10) as u8);
        assert(n / 10 * 10 + n % 10 == n);
        assert(digits_value(d) == digits_value(decimal(n / 10)) * 10 + (n % 10));
    } else {
        let d = decimal(n);
        assert(d.drop_last() =~= Seq::<u8>::empty());
        assert(digits_value(d) == digits_value(d.drop_last()) * 10 + (d.last() - ZERO) as nat);
    }
}

proof fn lemma_digit_run(d: Seq<u8>, tail: Seq<u8>)
    requires
        all_digits(d),
        tail.len() == 0 || !is_digit(tail[0]),
    ensures
        digit_run(d + tail) == d.len(),
    decreases d.len(),
{
    if d.len() > 0 {
        assert((d + tail).drop_first() =~= d.drop_first() + tail);
        lemma_digit_run(d.drop_first(), tail);
    } else {
        assert(d + tail =~= tail);
    }
}

proof fn lemma_digits_value_prefix(d: Seq<u8>, q: int)
    requires
        0 <= q <= d.len(),
        all_digits(d),
    ensures
        digits_value(d.take(q)) <= digits_value(d),
    decreases d.len(),
{
    if q < d.len() {
        assert(d.drop_last().take(q) =~= d.take(q));
        lemma_digits_value_prefix(d.drop_last(), q);
    } else {
        assert(d.take(q) =~= d);
    }
}

/// Reading digits `d` that denote at most `bound`, then a terminator, gives
/// their number back; a strict prefix of that line asks for more.
pub(crate) proof fn lemma_number_line(d: Seq<u8>, bound: nat, rest: Seq<u8>)
    requires
        digits_ok(d),
        digits_value(d) <= bound,
    ensures
        number_line(d + crlf() + rest, bound) == (Field::Number {
            value: digits_value(d),
            len: d.len() + 2,
        }),
        forall|p: int|
            0 <= p < d.len() + 2 ==> #[trigger] number_line((d + crlf()).take(p), bound)
                == Field::Short,
{
    let t = d + crlf() + rest;
    assert(t =~= d + (crlf() + rest));
    lemma_digit_run(d, crlf() + rest);
    assert(t.take(d.len() as int) =~= d);
    assert forall|p: int| 0 <= p < d.len() + 2 implies #[trigger] number_line(
        (d + crlf()).take(p),
        bound,
    ) == Field::Short by {
        let u = (d + crlf()).take(p);
        if p <= d.len() {
            assert(u =~= d.take(p) + Seq::<u8>::empty());
            assert(all_digits(d.take(p)));
            lemma_digit_run(d.take(p), Seq::<u8>::empty());
            assert(u.take(p) =~= d.take(p));
            lemma_digits_value_prefix(d, p);
        } else {
            assert(u =~= d + seq![CR]);
            lemma_digit_run(d, seq![CR]);
            assert(u.take(d.len() as int) =~= d);
        }
    }
}

/// Whether `i` fits in a signed 64-bit integer.
pub open spec fn fits_i64(i: int) -> bool {
    i64::MIN <= i <= i64::MAX
}

/// An integer's encoding: `:`, a `-` when `negative`, the digits `d`, a
/// terminator.
pub open spec fn integer_encoding(negative: bool, d: Seq<u8>) -> Seq<u8> {
    if negative {
        seq![COLON, MINUS] + d + crlf()
    } else {
        seq![COLON] + d + crlf()
    }
}

/// The integer that a sign and the digits `d` denote.
pub open spec fn signed_value(negative: bool, d: Seq<u8>) -> int {
    if negative {
        -digits_value(d)
    } else {
        digits_value(d) as int
    }
}

pub(crate) proof fn lemma_integer(negative: bool, d: Seq<u8>, rest: Seq<u8>)
    requires
        digits_ok(d),
        fits_i64(signed_value(negative, d)),
    ensures
        integer_grammar(integer_encoding(negative, d) + rest) == Outcome::Done(
            ValueModel::Integer(signed_value(negative, d)),
            rest,
        ),
        forall|p: int|
            0 <= p < integer_encoding(negative, d).len() ==> #[trigger] integer_grammar(
                integer_encoding(negative, d).take(p),
            ) == Outcome::Incomplete,
{
    let e = integer_encoding(negative, d);
    let bound: nat = if negative {
        MAX_MAGNITUDE as nat + 1
    } else {
        MAX_MAGNITUDE as nat
    };
    let f = d + crlf();
    lemma_number_line(d, bound, rest);
    let t = (e + rest).drop_first();
    if negative {
        assert(t.drop_first() =~= f + rest);
    } else {
        assert(t =~= f + rest);
        assert(t[0] == d[0]);
    }
    assert((f + rest).skip(f.len() as int) =~= rest);
    assert forall|p: int| 0 <= p < e.len() implies #[trigger] integer_grammar(e.take(p))
        == Outcome::Incomplete by {
        let u = e.take(p);
        if p >= 1 {
            let v = u.drop_first();
            if negative {
                if p == 1 {
                    assert(v =~= f.take(0));
                } else {
                    assert(v.drop_first() =~= f.take(p - 2));
                }
            } else {
                assert(v =~= f.take(p - 1));
                if p > 1 {
                    assert(v[0] == d[0]);
                }
            }
        }
    }
}

/// Whether a line terminator occurs anywhere in `s`.
pub open spec fn has_crlf(s: Seq<u8>) -> bool {
    exists|i: int| crlf_at(s, i)
}

/// A text line's encoding: the type byte, the text's bytes, a terminator.
pub open spec fn encode_text_line(tag: u8, bytes: Seq<u8>) -> Seq<u8> {
    seq![tag] + bytes + crlf()
}

proof fn lemma_first_crlf_found(s: Seq<u8>, i: nat, j: nat)
    requires
        i <= j,
        crlf_at(s, j as int),
        forall|k: int| i <= k < j ==> !crlf_at(s, k),
    ensures
        first_crlf(s, i) == Some(j),
    decreases j - i,
{
    if i < j {
        lemma_first_crlf_found(s, i + 1, j);
    }
}

proof fn lemma_first_crlf_none(s: Seq<u8>, i: nat)
    requires
        forall|k: int| i <= k ==> !crlf_at(s, k),
    ensures
        first_crlf(s, i) is None,
    decreases s.len() - i,
{
    if i + 1 < s.len() {
        lemma_first_crlf_none(s, i + 1);
    }
}

pub(crate) proof fn lemma_text_line(tag: u8, text: Seq<char>, rest: Seq<u8>)
    requires
        tag == PLUS || tag == MINUS,
        !has_crlf(encode_utf8(text)),
    ensures
        text_line_grammar(encode_text_line(tag, encode_utf8(text)) + rest, tag) == Outcome::Done(
            if tag == PLUS {
                ValueModel::Status(text)
            } else {
                ValueModel::Error(text)
            },
            rest,
        ),
        forall|p: int|
            0 <= p < encode_text_line(tag, encode_utf8(text)).len() ==> #[trigger] text_line_grammar(
                encode_text_line(tag, encode_utf8(text)).take(p),
                tag,
            ) == Outcome::Incomplete,
{
    broadcast use encode_utf8_valid_utf8, encode_utf8_decode_utf8;

    let b = encode_utf8(text);
    let e = encode_text_line(tag, b);
    let s = e + rest;
    let j = b.len() + 1;
    assert forall|k: int|
        #![trigger crlf_at(s, k)]
        #![trigger crlf_at(e, k)]
        1 <= k < j implies !crlf_at(s, k) && !crlf_at(e, k) by {
        if k < b.len() {
            assert(s[k] == b[k - 1] && s[k + 1] == b[k]);
            assert(e[k] == b[k - 1] && e[k + 1] == b[k]);
            if crlf_at(s, k) || crlf_at(e, k) {
                assert(crlf_at(b, k - 1));
            }
        } else {
            assert(s[k + 1] == CR && e[k + 1] == CR);
        }
    }
    assert(crlf_at(s, j as int));
    lemma_first_crlf_found(s, 1, j);
    assert(s.subrange(1, j as int) =~= b);
    assert(s.skip((j + 2) as int) =~= rest);
    assert forall|p: int| 0 <= p < e.len() implies #[trigger] text_line_grammar(e.take(p), tag)
        == Outcome::Incomplete by {
        let u = e.take(p);
        if p >= 1 {
            assert forall|k: int| 1 <= k implies !crlf_at(u, k) by {
                if crlf_at(u, k) {
                    assert(u[k] == e[k] && u[k + 1] == e[k + 1]);
                    assert(k < j);
                    assert(crlf_at(e, k));
                }
            }
            lemma_first_crlf_none(u, 1);
        }
    }
}

/// A bulk string's encoding: `$`, the digits `d` of its length, a
/// terminator, the payload, a terminator.
pub open spec fn bulk_string_encoding(d: Seq<u8>, payload: Seq<u8>) -> Seq<u8> {
    seq![DOLLAR] + d + crlf() + payload + crlf()
}

/// The nil marker after the type byte `tag`.
pub open spec fn encode_nil(tag: u8) -> Seq<u8> {
    seq![tag] + nil_marker()
}

pub(crate) proof fn lemma_bulk_string(d: Seq<u8>, b: Seq<u8>, rest: Seq<u8>)
    requires
        digits_ok(d),
        digits_value(d) == b.len(),
        b.len() <= usize::MAX,
    ensures
        bulk_string_grammar(bulk_string_encoding(d, b) + rest) == Outcome::Done(
            ValueModel::BulkString(b),
            rest,
        ),
        forall|p: int|
            0 <= p < bulk_string_encoding(d, b).len() ==> #[trigger] bulk_string_grammar(
                bulk_string_encoding(d, b).take(p),
            ) == Outcome::Incomplete,
{
    let n = b.len();
    let f = d + crlf();
    let e = bulk_string_encoding(d, b);
    let tail = b + crlf() + rest;
    lemma_number_line(d, usize::MAX as nat, tail);
    let t = (e + rest).drop_first();
    assert(t =~= d + crlf() + tail);
    assert(t[0] == d[0]);
    let body = t.skip(f.len() as int);
    assert(body =~= tail);
    assert(body.take(n as int) =~= b);
    assert(body.skip((n + 2) as int) =~= rest);
    assert forall|p: int| 0 <= p < e.len() implies #[trigger] bulk_string_grammar(e.take(p))
        == Outcome::Incomplete by {
        if p >= 1 {
            let v = e.take(p).drop_first();
            if p - 1 < f.len() {
                assert(v =~= f.take(p - 1));
                if p > 1 {
                    assert(v[0] == d[0]);
                }
            } else {
                let part = (b + crlf()).take(p - 1 - f.len());
                assert(v =~= d + crlf() + part);
                assert(v[0] == d[0]);
                lemma_number_line(d, usize::MAX as nat, part);
                assert(v.skip(f.len() as int) =~= part);
                if part.len() == n + 1 {
                    assert(part[n as int] == CR);
                }
            }
        }
    }
}

pub(crate) proof fn lemma_nil_tail(rest: Seq<u8>)
    ensures
        nil_tail(nil_marker() + rest) == Outcome::Done(ValueModel::Nil, rest),
        forall|q: int| 1 <= q < 4 ==> #[trigger] nil_tail(nil_marker().take(q)) == Outcome::Incomplete,
{
    assert((nil_marker() + rest).take(4) =~= nil_marker());
    assert((nil_marker() + rest).skip(4) =~= rest);
    assert forall|q: int| 1 <= q < 4 implies #[trigger] nil_tail(nil_marker().take(q))
        == Outcome::Incomplete by {
        let u = nil_marker().take(q);
        assert(u =~= nil_marker().take(u.len() as int));
    }
}

pub(crate) proof fn lemma_bulk_nil(rest: Seq<u8>)
    ensures
        bulk_string_grammar(encode_nil(DOLLAR) + rest) == Outcome::Done(ValueModel::Nil, rest),
        forall|p: int|
            0 <= p < encode_nil(DOLLAR).len() ==> #[trigger] bulk_string_grammar(
                encode_nil(DOLLAR).take(p),
            ) == Outcome::Incomplete,
{
    lemma_nil_tail(rest);
    assert((encode_nil(DOLLAR) + rest).drop_first() =~= nil_marker() + rest);
    assert forall|p: int| 0 <= p < encode_nil(DOLLAR).len() implies #[trigger] bulk_string_grammar(
        encode_nil(DOLLAR).take(p),
    ) == Outcome::Incomplete by {
        if p >= 1 {
            assert(encode_nil(DOLLAR).take(p).drop_first() =~= nil_marker().take(p - 1));
        }
    }
}

/// How an array element is written: the choices that its encoding makes.
pub enum ElementForm {
    Integer { negative: bool, digits: Seq<u8> },
    BulkString { digits: Seq<u8>, payload: Seq<u8> },
    Nil,
}

impl ElementForm {
    /// The bytes of the element.
    pub open spec fn bytes(self) -> Seq<u8> {
        match self {
            ElementForm::Integer { negative, digits } => integer_encoding(negative, digits),
            ElementForm::BulkString { digits, payload } => bulk_string_encoding(digits, payload),
            ElementForm::Nil => encode_nil(DOLLAR),
        }
    }

    /// The value the element carries.
    pub open spec fn value(self) -> ValueModel {
        match self {
            ElementForm::Integer { negative, digits } => ValueModel::Integer(
                signed_value(negative, digits),
            ),
            ElementForm::BulkString { payload, .. } => ValueModel::BulkString(payload),
            ElementForm::Nil => ValueModel::Nil,
        }
    }

    /// Whether the bytes are a valid encoding of the value: the digits are
    /// digits, an integer fits in 64 bits, and a bulk string's digits give
    /// its length.
    pub open spec fn valid(self) -> bool {
        match self {
            ElementForm::Integer { negative, digits } => digits_ok(digits) && fits_i64(
                signed_value(negative, digits),
            ),
            ElementForm::BulkString { digits, payload } => digits_ok(digits) && digits_value(
                digits,
            ) == payload.len() && payload.len() <= usize::MAX,
            ElementForm::Nil => true,
        }
    }
}

/// The bytes of the elements `fs`, one after another.
pub open spec fn concat_forms(fs: Seq<ElementForm>) -> Seq<u8>
    decreases fs.len(),
{
    if fs.len() == 0 {
        seq![]
    } else {
        fs[0].bytes() + concat_forms(fs.drop_first())
    }
}

/// The values of the elements `fs`, in order.
pub open spec fn form_values(fs: Seq<ElementForm>) -> Seq<ValueModel> {
    Seq::new(fs.len(), |i: int| fs[i].value())
}

/// Whether every element of `fs` is validly encoded.
pub open spec fn all_valid(fs: Seq<ElementForm>) -> bool {
    forall|i: int| 0 <= i < fs.len() ==> (#[trigger] fs[i]).valid()
}

/// An array's encoding: `*`, the digits `d` of its count, a terminator, the
/// elements.
pub open spec fn array_encoding(d: Seq<u8>, fs: Seq<ElementForm>) -> Seq<u8> {
    seq![STAR] + d + crlf() + concat_forms(fs)
}

pub(crate) proof fn lemma_element(f: ElementForm, rest: Seq<u8>)
    requires
        f.valid(),
    ensures
        element_grammar(f.bytes() + rest) == Outcome::Done(f.value(), rest),
        forall|p: int|
            0 <= p < f.bytes().len() ==> #[trigger] element_grammar(f.bytes().take(p))
                == Outcome::Incomplete,
{
    reveal(element_grammar);
    let e = f.bytes();
    match f {
        ElementForm::Integer { negative, digits } => lemma_integer(negative, digits, rest),
        ElementForm::BulkString { digits, payload } => lemma_bulk_string(digits, payload, rest),
        ElementForm::Nil => lemma_bulk_nil(rest),
    }
    assert((e + rest)[0] == e[0]);
    assert forall|p: int| 0 <= p < e.len() implies #[trigger] element_grammar(e.take(p))
        == Outcome::Incomplete by {
        if p >= 1 {
            assert(e.take(p)[0] == e[0]);
        }
    }
}

pub(crate) proof fn lemma_elements(fs: Seq<ElementForm>, rest: Seq<u8>)
    requires
        all_valid(fs),
    ensures
        elements(concat_forms(fs) + rest, fs.len()) == Elements::Done(form_values(fs), rest),
        forall|p: int|
            0 <= p < concat_forms(fs).len() ==> #[trigger] elements(
                concat_forms(fs).take(p),
                fs.len(),
            ) == Elements::Incomplete,
    decreases fs.len(),
{
    if fs.len() == 0 {
        assert(concat_forms(fs) + rest =~= rest);
        assert(form_values(fs) =~= Seq::<ValueModel>::empty());
    } else {
        let f = fs[0];
        let gs = fs.drop_first();
        let e0 = f.bytes();
        let tail = concat_forms(gs);
        assert forall|i: int| 0 <= i < gs.len() implies (#[trigger] gs[i]).valid() by {
            assert(gs[i] == fs[i + 1]);
        }
        lemma_elements(gs, rest);
        lemma_element(f, tail + rest);
        assert(concat_forms(fs) + rest =~= e0 + (tail + rest));
        assert(seq![f.value()] + form_values(gs) =~= form_values(fs));
        assert forall|p: int| 0 <= p < concat_forms(fs).len() implies #[trigger] elements(
            concat_forms(fs).take(p),
            fs.len(),
        ) == Elements::Incomplete by {
            if p < e0.len() {
                assert(concat_forms(fs).take(p) =~= e0.take(p));
                assert(element_grammar(e0.take(p)) == Outcome::Incomplete);
            } else {
                let part = tail.take(p - e0.len());
                assert(concat_forms(fs).take(p) =~= e0 + part);
                lemma_element(f, part);
                assert(elements(part, gs.len()) == Elements::Incomplete);
                assert(element_grammar(e0 + part) == Outcome::Done(f.value(), part));
            }
        }
    }
}

pub(crate) proof fn lemma_array(d: Seq<u8>, fs: Seq<ElementForm>, rest: Seq<u8>)
    requires
        digits_ok(d),
        digits_value(d) == fs.len(),
        fs.len() <= usize::MAX,
        all_valid(fs),
    ensures
        array_grammar(array_encoding(d, fs) + rest) == Outcome::Done(
            ValueModel::Array(form_values(fs)),
            rest,
        ),
        forall|p: int|
            0 <= p < array_encoding(d, fs).len() ==> #[trigger] array_grammar(
                array_encoding(d, fs).take(p),
            ) == Outcome::Incomplete,
{
    let f = d + crlf();
    let e = array_encoding(d, fs);
    let body = concat_forms(fs);
    lemma_elements(fs, rest);
    lemma_number_line(d, usize::MAX as nat, body + rest);
    let t = (e + rest).drop_first();
    assert(t =~= d + crlf() + (body + rest));
    assert(t[0] == d[0]);
    assert(t.skip(f.len() as int) =~= body + rest);
    assert forall|p: int| 0 <= p < e.len() implies #[trigger] array_grammar(e.take(p))
        == Outcome::Incomplete by {
        if p >= 1 {
            let v = e.take(p).drop_first();
            if p - 1 < f.len() {
                assert(v =~= f.take(p - 1));
                if p > 1 {
                    assert(v[0] == d[0]);
                }
            } else {
                let part = body.take(p - 1 - f.len());
                assert(v =~= d + crlf() + part);
                assert(v[0] == d[0]);
                lemma_number_line(d, usize::MAX as nat, part);
                assert(v.skip(f.len() as int) =~= part);
            }
        }
    }
}

pub(crate) proof fn lemma_array_nil(rest: Seq<u8>)
    ensures
        array_grammar(encode_nil(STAR) + rest) == Outcome::Done(ValueModel::Nil, rest),
        forall|p: int|
            0 <= p < encode_nil(STAR).len() ==> #[trigger] array_grammar(encode_nil(STAR).take(p))
                == Outcome::Incomplete,
{
    lemma_nil_tail(rest);
    assert((encode_nil(STAR) + rest).drop_first() =~= nil_marker() + rest);
    assert forall|p: int| 0 <= p < encode_nil(STAR).len() implies #[trigger] array_grammar(
        encode_nil(STAR).take(p),
    ) == Outcome::Incomplete by {
        if p >= 1 {
            assert(encode_nil(STAR).take(p).drop_first() =~= nil_marker().take(p - 1));
        }
    }
}

} // verus!
