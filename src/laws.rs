//! Properties of the decoders as a whole, proved over the grammar that their
//! contracts state.

use crate::encoding::{
    all_valid, array_encoding, bulk_string_encoding, concat_forms, digits_ok, encode_nil,
    encode_text_line, fits_i64, form_values, has_crlf, integer_encoding, lemma_array,
    lemma_array_nil, lemma_bulk_nil, lemma_bulk_string, lemma_element, lemma_elements,
    lemma_integer, lemma_text_line, signed_value, ElementForm,
};
use crate::grammar::{
    array_grammar, bulk_string_grammar, digits_value, element_grammar, elements, error_grammar,
    integer_grammar, status_grammar, Elements, DOLLAR, MINUS, PLUS, STAR,
};
use crate::model::{Outcome, ValueModel};
use vstd::prelude::*;
use vstd::utf8::encode_utf8;

verus! {

/// An integer that fits in 64 bits decodes from any of its encodings, with
/// nothing left over; bytes after the encoding are handed back unread; and
/// every strict prefix of the encoding is incomplete.
pub proof fn integer_round_trip(negative: bool, digits: Seq<u8>, rest: Seq<u8>)
    requires
        digits_ok(digits),
        fits_i64(signed_value(negative, digits)),
    ensures
        integer_grammar(integer_encoding(negative, digits)) == Outcome::Done(
            ValueModel::Integer(signed_value(negative, digits)),
            seq![],
        ),
        integer_grammar(integer_encoding(negative, digits) + rest) == Outcome::Done(
            ValueModel::Integer(signed_value(negative, digits)),
            rest,
        ),
        forall|p: int|
            0 <= p < integer_encoding(negative, digits).len() ==> #[trigger] integer_grammar(
                integer_encoding(negative, digits).take(p),
            ) == Outcome::Incomplete,
{
    let e = integer_encoding(negative, digits);
    lemma_integer(negative, digits, rest);
    lemma_integer(negative, digits, seq![]);
    assert(e + seq![] =~= e);
}

/// A status text without a line terminator in its bytes decodes from its
/// encoding, with nothing left over; bytes after the encoding are handed
/// back unread; and every strict prefix of the encoding is incomplete.
pub proof fn status_round_trip(text: Seq<char>, rest: Seq<u8>)
    requires
        !has_crlf(encode_utf8(text)),
    ensures
        status_grammar(encode_text_line(PLUS, encode_utf8(text))) == Outcome::Done(
            ValueModel::Status(text),
            seq![],
        ),
        status_grammar(encode_text_line(PLUS, encode_utf8(text)) + rest) == Outcome::Done(
            ValueModel::Status(text),
            rest,
        ),
        forall|p: int|
            0 <= p < encode_text_line(PLUS, encode_utf8(text)).len() ==> #[trigger] status_grammar(
                encode_text_line(PLUS, encode_utf8(text)).take(p),
            ) == Outcome::Incomplete,
{
    let e = encode_text_line(PLUS, encode_utf8(text));
    lemma_text_line(PLUS, text, rest);
    lemma_text_line(PLUS, text, seq![]);
    assert(e + seq![] =~= e);
}

/// An error text without a line terminator in its bytes decodes from its
/// encoding, with nothing left over; bytes after the encoding are handed
/// back unread; and every strict prefix of the encoding is incomplete.
pub proof fn error_round_trip(text: Seq<char>, rest: Seq<u8>)
    requires
        !has_crlf(encode_utf8(text)),
    ensures
        error_grammar(encode_text_line(MINUS, encode_utf8(text))) == Outcome::Done(
            ValueModel::Error(text),
            seq![],
        ),
        error_grammar(encode_text_line(MINUS, encode_utf8(text)) + rest) == Outcome::Done(
            ValueModel::Error(text),
            rest,
        ),
        forall|p: int|
            0 <= p < encode_text_line(MINUS, encode_utf8(text)).len() ==> #[trigger] error_grammar(
                encode_text_line(MINUS, encode_utf8(text)).take(p),
            ) == Outcome::Incomplete,
{
    let e = encode_text_line(MINUS, encode_utf8(text));
    lemma_text_line(MINUS, text, rest);
    lemma_text_line(MINUS, text, seq![]);
    assert(e + seq![] =~= e);
}

/// A bulk string decodes from any of its encodings, with nothing left
/// over; bytes after the encoding are handed back unread; and every strict
/// prefix of the encoding is incomplete.
pub proof fn bulk_string_round_trip(digits: Seq<u8>, payload: Seq<u8>, rest: Seq<u8>)
    requires
        digits_ok(digits),
        digits_value(digits) == payload.len(),
        payload.len() <= usize::MAX,
    ensures
        bulk_string_grammar(bulk_string_encoding(digits, payload)) == Outcome::Done(
            ValueModel::BulkString(payload),
            seq![],
        ),
        bulk_string_grammar(bulk_string_encoding(digits, payload) + rest) == Outcome::Done(
            ValueModel::BulkString(payload),
            rest,
        ),
        forall|p: int|
            0 <= p < bulk_string_encoding(digits, payload).len() ==> #[trigger] bulk_string_grammar(
                bulk_string_encoding(digits, payload).take(p),
            ) == Outcome::Incomplete,
{
    let e = bulk_string_encoding(digits, payload);
    lemma_bulk_string(digits, payload, rest);
    lemma_bulk_string(digits, payload, seq![]);
    assert(e + seq![] =~= e);
}

/// The nil bulk string `$-1` CR LF decodes to nil, with nothing left over;
/// bytes after it are handed back unread; and every strict prefix of it is
/// incomplete.
pub proof fn bulk_string_nil_round_trip(rest: Seq<u8>)
    ensures
        bulk_string_grammar(encode_nil(DOLLAR)) == Outcome::Done(ValueModel::Nil, seq![]),
        bulk_string_grammar(encode_nil(DOLLAR) + rest) == Outcome::Done(ValueModel::Nil, rest),
        forall|p: int|
            0 <= p < encode_nil(DOLLAR).len() ==> #[trigger] bulk_string_grammar(
                encode_nil(DOLLAR).take(p),
            ) == Outcome::Incomplete,
{
    lemma_bulk_nil(rest);
    lemma_bulk_nil(seq![]);
    assert(encode_nil(DOLLAR) + seq![] =~= encode_nil(DOLLAR));
}

/// An array element decodes from any of its encodings, with nothing left
/// over; bytes after the encoding are handed back unread; and every strict
/// prefix of the encoding is incomplete.
pub proof fn element_round_trip(f: ElementForm, rest: Seq<u8>)
    requires
        f.valid(),
    ensures
        element_grammar(f.bytes()) == Outcome::Done(f.value(), seq![]),
        element_grammar(f.bytes() + rest) == Outcome::Done(f.value(), rest),
        forall|p: int|
            0 <= p < f.bytes().len() ==> #[trigger] element_grammar(f.bytes().take(p))
                == Outcome::Incomplete,
{
    lemma_element(f, rest);
    lemma_element(f, seq![]);
    assert(f.bytes() + seq![] =~= f.bytes());
}

/// An array of elements decodes from any of its encodings, with nothing left
/// over; bytes after the encoding are handed back unread; and every strict
/// prefix of the encoding is incomplete.
pub proof fn array_round_trip(digits: Seq<u8>, fs: Seq<ElementForm>, rest: Seq<u8>)
    requires
        digits_ok(digits),
        digits_value(digits) == fs.len(),
        fs.len() <= usize::MAX,
        all_valid(fs),
    ensures
        array_grammar(array_encoding(digits, fs)) == Outcome::Done(
            ValueModel::Array(form_values(fs)),
            seq![],
        ),
        array_grammar(array_encoding(digits, fs) + rest) == Outcome::Done(
            ValueModel::Array(form_values(fs)),
            rest,
        ),
        forall|p: int|
            0 <= p < array_encoding(digits, fs).len() ==> #[trigger] array_grammar(
                array_encoding(digits, fs).take(p),
            ) == Outcome::Incomplete,
{
    let e = array_encoding(digits, fs);
    lemma_array(digits, fs, rest);
    lemma_array(digits, fs, seq![]);
    assert(e + seq![] =~= e);
}

/// The nil array `*-1` CR LF decodes to nil, with nothing left over; bytes
/// after it are handed back unread; and every strict prefix of it is
/// incomplete.
pub proof fn array_nil_round_trip(rest: Seq<u8>)
    ensures
        array_grammar(encode_nil(STAR)) == Outcome::Done(ValueModel::Nil, seq![]),
        array_grammar(encode_nil(STAR) + rest) == Outcome::Done(ValueModel::Nil, rest),
        forall|p: int|
            0 <= p < encode_nil(STAR).len() ==> #[trigger] array_grammar(encode_nil(STAR).take(p))
                == Outcome::Incomplete,
{
    lemma_array_nil(rest);
    lemma_array_nil(seq![]);
    assert(encode_nil(STAR) + seq![] =~= encode_nil(STAR));
}

/// Decoding the encodings of several elements, laid end to end, one element
/// at a time and each from the remainder the one before it handed back,
/// gives the same elements in the same order, and then exactly the bytes
/// that followed them.
pub proof fn sequence_round_trip(fs: Seq<ElementForm>, rest: Seq<u8>)
    requires
        all_valid(fs),
    ensures
        elements(concat_forms(fs) + rest, fs.len()) == Elements::Done(form_values(fs), rest),
        elements(concat_forms(fs), fs.len()) == Elements::Done(form_values(fs), seq![]),
{
    lemma_elements(fs, rest);
    lemma_elements(fs, seq![]);
    assert(concat_forms(fs) + seq![] =~= concat_forms(fs));
}

/// Every decoder asks for more input when it is given none.
pub proof fn empty_input_is_incomplete()
    ensures
        integer_grammar(seq![]) == Outcome::Incomplete,
        status_grammar(seq![]) == Outcome::Incomplete,
        error_grammar(seq![]) == Outcome::Incomplete,
        bulk_string_grammar(seq![]) == Outcome::Incomplete,
        element_grammar(seq![]) == Outcome::Incomplete,
        array_grammar(seq![]) == Outcome::Incomplete,
{
    reveal(element_grammar);
}

} // verus!
