//! How a cell is written into a JSON record.
use vstd::prelude::*;
use vstd::utf8::encode_utf8;
use crate::data::json::{
    byte_at, digits_end, exponent_stop, fraction_stop, is_digit, number_stop, Kind,
};
use crate::data::json_writer::{json_value, passes, quoted};
use crate::data::jsonl::ColumnType;

verus! {

/// Digits from one place up to another, and at least one.
pub open spec fn digits_between(text: Seq<u8>, from: int, to: int) -> bool {
    0 <= from < to <= text.len() && forall|i: int| from <= i < to ==> 48 <= #[trigger] text[i] <= 57
}

/// The parts of a number: a minus or none in front of `whole`, digits without a
/// needless zero up to `point`, a point and digits or nothing up to `power`.
pub open spec fn has_parts(text: Seq<u8>, whole: int, point: int, power: int) -> bool {
    &&& whole == 0 || (whole == 1 && text.len() > 0 && text[0] == 45)
    &&& digits_between(text, whole, point)
    &&& text[whole] == 48 ==> point == whole + 1
    &&& power == point || (point < text.len() && text[point] == 46 && digits_between(
        text,
        point + 1,
        power,
    ))
}

/// Behind it an `e`, a sign or none, and digits to the end.
pub open spec fn has_power(text: Seq<u8>, power: int, digits: int) -> bool {
    &&& 0 <= power < text.len()
    &&& text[power] == 101 || text[power] == 69
    &&& digits == power + 1 || (digits == power + 2 && digits <= text.len() && (text[power + 1] == 43
        || text[power + 1] == 45))
    &&& digits_between(text, digits, text.len() as int)
}

/// A whole number and nothing else.
pub open spec fn is_whole_number(text: Seq<u8>) -> bool {
    exists|whole: int| #[trigger] has_parts(text, whole, text.len() as int, text.len() as int)
}

/// A number with a fraction or an exponent and nothing else.
pub open spec fn is_broken_number(text: Seq<u8>) -> bool {
    exists|whole: int, point: int, power: int| #[trigger]
        has_parts(text, whole, point, power) && ((power == text.len() && point < power) || exists|
            digits: int,
        | #[trigger] has_power(text, power, digits))
}

proof fn lemma_digits(text: Seq<u8>, at: int)
    requires
        0 <= at <= text.len(),
    ensures
        at <= digits_end(text, at) <= text.len(),
        forall|j: int| at <= j < digits_end(text, at) ==> is_digit(#[trigger] text[j]),
        digits_end(text, at) < text.len() ==> !is_digit(text[digits_end(text, at)]),
    decreases text.len() - at,
{
    if at < text.len() && is_digit(text[at]) {
        lemma_digits(text, at + 1);
    }
}

proof fn lemma_digits_stop(text: Seq<u8>, from: int, to: int)
    requires
        digits_between(text, from, to),
        to < text.len() ==> !is_digit(text[to]),
    ensures
        digits_end(text, from) == to,
{
    lemma_digits(text, from);
    let end = digits_end(text, from);
    if end < to {
        assert(48 <= text[end] <= 57);
    } else if end > to {
        assert(is_digit(text[to]));
    }
}

/// Reading a number from the front finds its parts.
proof fn lemma_number_read(text: Seq<u8>, whole: int, point: int, power: int)
    requires
        has_parts(text, whole, point, power),
        power == text.len() || exists|digits: int| #[trigger] has_power(text, power, digits),
    ensures
        number_stop(text, 0) == Some(
            (
                if point == text.len() {
                    Kind::Int
                } else {
                    Kind::Float
                },
                text.len() as int,
            ),
        ),
{
    assert(48 <= text[whole] <= 57);
    assert(byte_at(text, 0) == Some(45u8) <==> whole == 1);
    lemma_digits_stop(text, whole, point);
    if power > point {
        lemma_digits_stop(text, point + 1, power);
        assert(fraction_stop(text, point) == Some(power));
    } else {
        assert(fraction_stop(text, point) == Some(power));
    }
    if power < text.len() {
        let digits = choose|digits: int| #[trigger] has_power(text, power, digits);
        assert(48 <= text[digits] <= 57);
        lemma_digits_stop(text, digits, text.len() as int);
        assert(exponent_stop(text, power) == Some(text.len() as int));
    } else {
        assert(exponent_stop(text, power) == Some(power));
    }
}

/// What reads as a number to its end has the parts of one.
proof fn lemma_number_has_parts(text: Seq<u8>)
    requires
        number_stop(text, 0) matches Some((_, end)) && end == text.len(),
        text.len() > 0,
    ensures
        is_whole_number(text) || is_broken_number(text),
        number_stop(text, 0)->Some_0.0 == Kind::Int ==> is_whole_number(text),
{
    let whole: int = if text[0] == 45 { 1 } else { 0 };
    lemma_digits(text, whole);
    let point = digits_end(text, whole);
    assert(digits_between(text, whole, point));
    let power = fraction_stop(text, point)->Some_0;
    if byte_at(text, point) == Some(46u8) {
        lemma_digits(text, point + 1);
        assert(digits_between(text, point + 1, power));
    }
    assert(has_parts(text, whole, point, power));
    if byte_at(text, power) == Some(101u8) || byte_at(text, power) == Some(69u8) {
        let sign = byte_at(text, power + 1) == Some(43u8) || byte_at(text, power + 1) == Some(45u8);
        let digits = if sign { power + 2 } else { power + 1 };
        lemma_digits(text, digits);
        assert(has_power(text, power, digits));
    }
}

proof fn lemma_bytes_of_some(text: Seq<char>)
    requires
        text.len() > 0,
    ensures
        encode_utf8(text).len() > 0,
{
    crate::text::lemma_scalar_bytes(text[0], 0);
}

/// What is not a number, or not of the column's kind, is put between quotes.
proof fn lemma_quoted(text: Seq<char>)
    ensures
        encode_utf8(quoted(text)).len() > 0,
        encode_utf8(quoted(text))[0] == 34,
{
    crate::data::json_read_back::lemma_quoted_bytes(text);
}

/// A whole number typed into a column of whole numbers is written as its own
/// bytes, and anything else that is not empty as a string.
pub proof fn a_whole_number_is_written_as_it_was_typed(text: Seq<char>)
    requires
        text.len() > 0,
    ensures
        is_whole_number(encode_utf8(text)) ==> json_value(text, ColumnType::Int) == encode_utf8(text),
        !is_whole_number(encode_utf8(text)) ==> json_value(text, ColumnType::Int)[0] == 34,
{
    let b = encode_utf8(text);
    lemma_bytes_of_some(text);
    lemma_quoted(text);
    if is_whole_number(b) {
        let whole = choose|whole: int| #[trigger] has_parts(b, whole, b.len() as int, b.len() as int);
        lemma_number_read(b, whole, b.len() as int, b.len() as int);
    } else if passes(b, ColumnType::Int) {
        lemma_number_has_parts(b);
    }
}

/// A number typed into a column of numbers that need not be whole is written as
/// its own bytes, whole or not, and anything else that is not empty as a string.
pub proof fn a_number_is_written_as_it_was_typed(text: Seq<char>)
    requires
        text.len() > 0,
    ensures
        is_whole_number(encode_utf8(text)) || is_broken_number(encode_utf8(text)) ==> json_value(
            text,
            ColumnType::Float,
        ) == encode_utf8(text),
        !is_whole_number(encode_utf8(text)) && !is_broken_number(encode_utf8(text)) ==> json_value(
            text,
            ColumnType::Float,
        )[0] == 34,
{
    let b = encode_utf8(text);
    let n = b.len() as int;
    lemma_bytes_of_some(text);
    lemma_quoted(text);
    if is_whole_number(b) {
        let whole = choose|whole: int| #[trigger] has_parts(b, whole, n, n);
        lemma_number_read(b, whole, n, n);
    } else if is_broken_number(b) {
        let (whole, point, power) = choose|whole: int, point: int, power: int| #[trigger]
            has_parts(b, whole, point, power) && ((power == n && point < power) || exists|digits: int|
             #[trigger] has_power(b, power, digits));
        lemma_number_read(b, whole, point, power);
    } else if passes(b, ColumnType::Float) {
        lemma_number_has_parts(b);
    }
}

/// Of the texts typed into a column of truth values just the two words go in
/// without quotes, and into a column of text nothing does. Whatever the column,
/// an empty text is `null`.
pub proof fn words_and_text_are_written_so(text: Seq<char>, kind: ColumnType)
    ensures
        text.len() == 0 ==> json_value(text, kind) == seq![110u8, 117, 108, 108],
        text.len() > 0 && (encode_utf8(text) == seq![116u8, 114, 117, 101] || encode_utf8(text) == seq![
            102u8,
            97,
            108,
            115,
            101,
        ]) ==> json_value(text, ColumnType::Bool) == encode_utf8(text),
        text.len() > 0 && encode_utf8(text) != seq![116u8, 114, 117, 101] && encode_utf8(text) != seq![
            102u8,
            97,
            108,
            115,
            101,
        ] ==> json_value(text, ColumnType::Bool)[0] == 34,
        text.len() > 0 ==> json_value(text, ColumnType::Text)[0] == 34,
{
    lemma_quoted(text);
    if text.len() > 0 {
        lemma_bytes_of_some(text);
    }
}

} // verus!
