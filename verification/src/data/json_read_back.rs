//! Reading a written record back.
//!
//! An edit is spliced into the bytes of a record. That what was typed is what
//! is read afterwards, and that everything else in the record is as it was,
//! rests on how values and fields are told apart, whatever stands around them.
use vstd::prelude::*;
use vstd::utf8::encode_utf8;
use crate::data::json::{
    byte_at, closing, digits_end, exponent_stop, false_word, fraction_stop, is_digit, is_space,
    members, null_word, number_stop, space_end, string_stop, text_end, true_word, value_stop, word_at,
    Kind, Member,
};
use crate::data::json_path::{
    adding_at, found, lemma_found_within, lemma_named, lemma_places_bounds, lemma_places_within, lemma_value_bounds,
    members_at, named, places, places_from, places_hold_the_fields, value_under, Place,
};
use crate::data::json_writer::{
    escape_of, escaped, field_text, hex_char, is_open, json_body, json_output, json_value,
    lemma_record_lines, passes, placed, quoted, spliced, Adding, JsonColumn,
};
use crate::data::edit::Pending;
use crate::data::jsonl::{
    code_text, decoded, escape_char, hex_digit, hex_digits, hex_number, record_lines, unescaped,
    well_encoded, ColumnType,
};
use crate::data::loader::lines_of;
use crate::text::{lemma_encode_concat, lemma_encode_one, lemma_scalar_bytes};

verus! {

/// The first `n` bytes are the same.
spec fn agree(a: Seq<u8>, b: Seq<u8>, n: int) -> bool {
    &&& 0 <= n <= a.len()
    &&& n <= b.len()
    &&& forall|k: int| 0 <= k < n ==> #[trigger] a[k] == b[k]
}

/// A byte that goes on with no number.
spec fn is_break(line: Seq<u8>, at: int) -> bool {
    byte_at(line, at) matches Some(b) && !is_digit(b) && b != 46 && b != 101 && b != 69
}

/// What ends at `end` ends there in both.
spec fn ends(a: Seq<u8>, b: Seq<u8>, n: int, end: int) -> bool {
    end < n || (end == n && (n == a.len() || is_break(a, n)) && is_break(b, n))
}

proof fn lemma_space_agree(a: Seq<u8>, b: Seq<u8>, n: int, at: int)
    requires
        agree(a, b, n),
        0 <= at <= space_end(a, at),
        ({
            let end = space_end(a, at);
            end < n || (end == n && end < b.len() && !is_space(b[end]))
        }),
    ensures
        space_end(b, at) == space_end(a, at),
    decreases a.len() - at,
{
    if at < a.len() && is_space(a[at]) {
        lemma_space_from(a, at + 1);
        assert(a[at] == b[at]);
        lemma_space_agree(a, b, n, at + 1);
    } else if at < n {
        assert(a[at] == b[at]);
    }
}

proof fn lemma_space_from(line: Seq<u8>, at: int)
    requires
        0 <= at <= line.len(),
    ensures
        at <= space_end(line, at) <= line.len(),
        forall|j: int| at <= j < space_end(line, at) ==> is_space(#[trigger] line[j]),
        space_end(line, at) < line.len() ==> !is_space(line[space_end(line, at)]),
    decreases line.len() - at,
{
    if at < line.len() && is_space(line[at]) {
        lemma_space_from(line, at + 1);
    }
}

proof fn lemma_text_from(line: Seq<u8>, at: int)
    requires
        0 <= at,
    ensures
        text_end(line, at) matches Some(end) ==> at < end <= line.len(),
    decreases line.len() - at,
{
    if at < line.len() {
        if line[at] == 92 {
            if at + 1 < line.len() {
                lemma_text_from(line, at + 2);
            }
        } else if line[at] != 34 && line[at] >= 32 {
            lemma_text_from(line, at + 1);
        }
    }
}

proof fn lemma_text_agree(a: Seq<u8>, b: Seq<u8>, n: int, at: int)
    requires
        agree(a, b, n),
        0 <= at,
        text_end(a, at) matches Some(end) && end <= n,
    ensures
        text_end(b, at) == text_end(a, at),
    decreases a.len() - at,
{
    lemma_text_from(a, at);
    assert(a[at] == b[at]);
    if a[at] == 92 {
        lemma_text_from(a, at + 2);
        lemma_text_agree(a, b, n, at + 2);
    } else if a[at] != 34 {
        lemma_text_from(a, at + 1);
        lemma_text_agree(a, b, n, at + 1);
    }
}

proof fn lemma_digits_from(line: Seq<u8>, at: int)
    requires
        0 <= at,
    ensures
        at <= digits_end(line, at),
        at <= line.len() ==> digits_end(line, at) <= line.len(),
        at > line.len() ==> digits_end(line, at) == at,
        forall|j: int| at <= j < digits_end(line, at) ==> is_digit(#[trigger] line[j]),
        digits_end(line, at) < line.len() ==> !is_digit(line[digits_end(line, at)]),
    decreases line.len() - at,
{
    if at < line.len() && is_digit(line[at]) {
        lemma_digits_from(line, at + 1);
    }
}

proof fn lemma_digits_agree(a: Seq<u8>, b: Seq<u8>, n: int, at: int)
    requires
        agree(a, b, n),
        0 <= at,
        ends(a, b, n, digits_end(a, at)),
    ensures
        digits_end(b, at) == digits_end(a, at),
    decreases a.len() - at,
{
    lemma_digits_from(a, at);
    if at < n {
        assert(a[at] == b[at]);
        if is_digit(a[at]) {
            lemma_digits_agree(a, b, n, at + 1);
        }
    }
}

proof fn lemma_number_agree(a: Seq<u8>, b: Seq<u8>, n: int, at: int)
    requires
        agree(a, b, n),
        0 <= at < n,
        number_stop(a, at) matches Some((kind, end)) && ends(a, b, n, end),
    ensures
        number_stop(b, at) == number_stop(a, at),
{
    let end = number_stop(a, at)->Some_0.1;
    assert(a[at] == b[at]);
    let whole = if byte_at(a, at) == Some(45u8) { at + 1 } else { at };
    let point = digits_end(a, whole);
    lemma_digits_from(a, whole);
    let exponent = fraction_stop(a, point)->Some_0;
    if byte_at(a, point) == Some(46u8) {
        lemma_digits_from(a, point + 1);
    }
    if byte_at(a, exponent) == Some(101u8) || byte_at(a, exponent) == Some(69u8) {
        let sign = byte_at(a, exponent + 1) == Some(43u8) || byte_at(a, exponent + 1) == Some(45u8);
        let start = if sign { exponent + 2 } else { exponent + 1 };
        lemma_digits_from(a, start);
        assert(end == digits_end(a, start));
        assert(a[exponent] == b[exponent]);
        assert(a[exponent + 1] == b[exponent + 1]);
        lemma_digits_agree(a, b, n, start);
    }
    assert(ends(a, b, n, point));
    lemma_digits_agree(a, b, n, whole);
    assert(a[whole] == b[whole]);
    if point < n {
        assert(a[point] == b[point]);
    }
    if byte_at(a, point) == Some(46u8) {
        assert(ends(a, b, n, exponent));
        lemma_digits_agree(a, b, n, point + 1);
    }
    if exponent < n {
        assert(a[exponent] == b[exponent]);
    }
    assert(fraction_stop(b, point) == fraction_stop(a, point));
    assert(exponent_stop(b, exponent) == exponent_stop(a, exponent));
}

pub(crate) proof fn lemma_closing_from(line: Seq<u8>, at: int, depth: nat)
    requires
        0 <= at,
    ensures
        closing(line, at, depth) matches Some(end) ==> at < end <= line.len() && (line[end - 1] == 125
            || line[end - 1] == 93),
    decreases line.len() - at,
{
    if at < line.len() {
        if line[at] == 34 {
            if let Some(end) = text_end(line, at + 1) {
                lemma_text_from(line, at + 1);
                lemma_closing_from(line, end, depth);
            }
        } else if line[at] == 123 || line[at] == 91 {
            lemma_closing_from(line, at + 1, depth + 1);
        } else if line[at] == 125 || line[at] == 93 {
            if depth > 1 {
                lemma_closing_from(line, at + 1, (depth - 1) as nat);
            }
        } else {
            lemma_closing_from(line, at + 1, depth);
        }
    }
}

proof fn lemma_closing_agree(a: Seq<u8>, b: Seq<u8>, n: int, at: int, depth: nat)
    requires
        agree(a, b, n),
        0 <= at,
        closing(a, at, depth) matches Some(end) && end <= n,
    ensures
        closing(b, at, depth) == closing(a, at, depth),
    decreases a.len() - at,
{
    lemma_closing_from(a, at, depth);
    assert(a[at] == b[at]);
    if a[at] == 34 {
        let end = text_end(a, at + 1)->Some_0;
        lemma_text_from(a, at + 1);
        lemma_closing_from(a, end, depth);
        lemma_text_agree(a, b, n, at + 1);
        lemma_closing_agree(a, b, n, end, depth);
    } else if a[at] == 123 || a[at] == 91 {
        lemma_closing_agree(a, b, n, at + 1, depth + 1);
    } else if a[at] == 125 || a[at] == 93 {
        if depth > 1 {
            lemma_closing_agree(a, b, n, at + 1, (depth - 1) as nat);
        }
    } else {
        lemma_closing_agree(a, b, n, at + 1, depth);
    }
}

proof fn lemma_word_agree(a: Seq<u8>, b: Seq<u8>, n: int, at: int, word: Seq<u8>)
    requires
        agree(a, b, n),
        0 <= at,
        word_at(a, at, word),
        at + word.len() <= n,
    ensures
        word_at(b, at, word),
{
    assert(b.subrange(at, at + word.len()) =~= a.subrange(at, at + word.len()));
}

proof fn lemma_value_agree(a: Seq<u8>, b: Seq<u8>, n: int, at: int)
    requires
        agree(a, b, n),
        0 <= at,
        value_stop(a, at) matches Some((kind, end)) && ends(a, b, n, end),
    ensures
        value_stop(b, at) == value_stop(a, at),
{
    lemma_value_bounds(a, at);
    assert(a[at] == b[at]);
    if a[at] == 34 {
        lemma_text_agree(a, b, n, at + 1);
    } else if a[at] == 123 || a[at] == 91 {
        lemma_closing_agree(a, b, n, at, 0);
    } else if a[at] == 116 {
        lemma_word_agree(a, b, n, at, true_word());
    } else if a[at] == 102 {
        lemma_word_agree(a, b, n, at, false_word());
    } else if a[at] == 110 {
        lemma_word_agree(a, b, n, at, null_word());
    } else {
        lemma_number_agree(a, b, n, at);
    }
}

/// Looking on from `i` is looking through what follows.
proof fn lemma_space_shift(line: Seq<u8>, i: int, x: int)
    requires
        0 <= i <= line.len(),
        0 <= x,
    ensures
        space_end(line, i + x) == i + space_end(line.skip(i), x),
    decreases line.len() - i - x,
{
    let tail = line.skip(i);
    if i + x < line.len() {
        assert(tail[x] == line[i + x]);
        if is_space(line[i + x]) {
            lemma_space_shift(line, i, x + 1);
        }
    }
}

proof fn lemma_digits_shift(line: Seq<u8>, i: int, x: int)
    requires
        0 <= i <= line.len(),
        0 <= x,
    ensures
        digits_end(line, i + x) == i + digits_end(line.skip(i), x),
    decreases line.len() - i - x,
{
    let tail = line.skip(i);
    if i + x < line.len() {
        assert(tail[x] == line[i + x]);
        if is_digit(line[i + x]) {
            lemma_digits_shift(line, i, x + 1);
        }
    }
}

spec fn later(end: Option<int>, i: int) -> Option<int> {
    match end {
        Some(end) => Some(i + end),
        None => None,
    }
}

proof fn lemma_text_shift(line: Seq<u8>, i: int, x: int)
    requires
        0 <= i <= line.len(),
        0 <= x,
    ensures
        text_end(line, i + x) == later(text_end(line.skip(i), x), i),
    decreases line.len() - i - x,
{
    let tail = line.skip(i);
    if i + x < line.len() {
        assert(tail[x] == line[i + x]);
        if line[i + x] == 92 {
            if i + x + 1 < line.len() {
                lemma_text_shift(line, i, x + 2);
            }
        } else if line[i + x] != 34 && line[i + x] >= 32 {
            lemma_text_shift(line, i, x + 1);
        }
    }
}

proof fn lemma_closing_shift(line: Seq<u8>, i: int, x: int, depth: nat)
    requires
        0 <= i <= line.len(),
        0 <= x,
    ensures
        closing(line, i + x, depth) == later(closing(line.skip(i), x, depth), i),
    decreases line.len() - i - x,
{
    let tail = line.skip(i);
    if i + x < line.len() {
        let b = line[i + x];
        assert(tail[x] == b);
        if b == 34 {
            lemma_text_shift(line, i, x + 1);
            lemma_text_from(tail, x + 1);
            if let Some(end) = text_end(tail, x + 1) {
                lemma_closing_shift(line, i, end, depth);
            }
        } else if b == 123 || b == 91 {
            lemma_closing_shift(line, i, x + 1, depth + 1);
        } else if b == 125 || b == 93 {
            if depth > 1 {
                lemma_closing_shift(line, i, x + 1, (depth - 1) as nat);
            }
        } else {
            lemma_closing_shift(line, i, x + 1, depth);
        }
    }
}

proof fn lemma_byte_shift(line: Seq<u8>, i: int, x: int)
    requires
        0 <= i <= line.len(),
        0 <= x,
    ensures
        byte_at(line, i + x) == byte_at(line.skip(i), x),
{
}

spec fn kind_later(end: Option<(Kind, int)>, i: int) -> Option<(Kind, int)> {
    match end {
        Some((kind, end)) => Some((kind, i + end)),
        None => None,
    }
}

proof fn lemma_number_shift(line: Seq<u8>, i: int, x: int)
    requires
        0 <= i,
        0 <= x,
        i + x < line.len(),
    ensures
        number_stop(line, i + x) == kind_later(number_stop(line.skip(i), x), i),
{
    let tail = line.skip(i);
    lemma_byte_shift(line, i, x);
    let whole = if byte_at(tail, x) == Some(45u8) { x + 1 } else { x };
    let point = digits_end(tail, whole);
    lemma_digits_shift(line, i, whole);
    lemma_digits_from(tail, whole);
    if point > whole {
        assert(tail[whole] == line[i + whole]);
        lemma_byte_shift(line, i, point);
        lemma_digits_shift(line, i, point + 1);
        lemma_digits_from(tail, point + 1);
        if let Some(exponent) = fraction_stop(tail, point) {
            lemma_byte_shift(line, i, exponent);
            lemma_byte_shift(line, i, exponent + 1);
            lemma_digits_shift(line, i, exponent + 1);
            lemma_digits_shift(line, i, exponent + 2);
        }
    }
}

proof fn lemma_word_shift(line: Seq<u8>, i: int, x: int, word: Seq<u8>)
    requires
        0 <= i <= line.len(),
        0 <= x,
    ensures
        word_at(line, i + x, word) == word_at(line.skip(i), x, word),
{
    let tail = line.skip(i);
    if i + x + word.len() <= line.len() {
        assert(line.subrange(i + x, i + x + word.len()) =~= tail.subrange(x, x + word.len()));
    }
}

proof fn lemma_value_shift(line: Seq<u8>, i: int, x: int)
    requires
        0 <= i <= line.len(),
        0 <= x,
    ensures
        value_stop(line, i + x) == kind_later(value_stop(line.skip(i), x), i),
{
    let tail = line.skip(i);
    lemma_byte_shift(line, i, x);
    if i + x < line.len() {
        lemma_text_shift(line, i, x + 1);
        lemma_closing_shift(line, i, x, 0);
        lemma_number_shift(line, i, x);
        lemma_word_shift(line, i, x, true_word());
        lemma_word_shift(line, i, x, false_word());
        lemma_word_shift(line, i, x, null_word());
    }
}

spec fn all_later(ps: Option<Seq<Place>>, i: int) -> Option<Seq<Place>> {
    match ps {
        Some(ps) => Some(moved(ps, i)),
        None => None,
    }
}

/// Places as they stand in a line that begins `by` bytes earlier.
pub open spec fn moved(ps: Seq<Place>, by: int) -> Seq<Place> {
    ps.map_values(|p: Place| p.moved(by))
}

proof fn lemma_places_shift(line: Seq<u8>, i: int, x: int)
    requires
        0 <= i <= line.len(),
        0 <= x,
        i + x <= line.len(),
    ensures
        places_from(line, i + x) == all_later(places_from(line.skip(i), x), i),
    decreases line.len() - i - x,
{
    let tail = line.skip(i);
    lemma_space_shift(line, i, x);
    lemma_space_from(tail, x);
    let start = space_end(tail, x);
    lemma_byte_shift(line, i, start);
    lemma_text_shift(line, i, start + 1);
    lemma_text_from(tail, start + 1);
    if let Some(key_end) = string_stop(tail, start) {
        lemma_space_shift(line, i, key_end);
        lemma_space_from(tail, key_end);
        let colon = space_end(tail, key_end);
        lemma_byte_shift(line, i, colon);
        if byte_at(tail, colon) == Some(58u8) {
            lemma_space_shift(line, i, colon + 1);
            lemma_space_from(tail, colon + 1);
            let value = space_end(tail, colon + 1);
            lemma_value_shift(line, i, value);
            lemma_value_bounds(tail, value);
            if let Some((kind, end)) = value_stop(tail, value) {
                lemma_space_shift(line, i, end);
                lemma_space_from(tail, end);
                let next = space_end(tail, end);
                lemma_byte_shift(line, i, next);
                let place = Place {
                    key: tail.subrange(start + 1, key_end - 1),
                    kind,
                    from: value,
                    to: end,
                };
                assert(line.subrange(i + start + 1, i + key_end - 1) =~= place.key);
                let here = Place {
                    key: line.subrange(i + start + 1, i + key_end - 1),
                    kind,
                    from: i + value,
                    to: i + end,
                };
                assert(here =~= place.moved(i));
                assert(moved(seq![place], i) =~= seq![here]);
                if byte_at(tail, next) == Some(44u8) {
                    lemma_places_shift(line, i, next + 1);
                    if let Some(rest) = places_from(tail, next + 1) {
                        assert(moved(seq![place] + rest, i) =~= seq![here] + moved(rest, i));
                    }
                } else if byte_at(tail, next) == Some(125u8) {
                    lemma_space_shift(line, i, next + 1);
                }
            }
        }
    }
}

/// The value stands alone: it is read whole, and as what.
pub open spec fn is_value(value: Seq<u8>, kind: Kind) -> bool {
    value_stop(value, 0) == Some((kind, value.len() as int))
}

/// Places with the value of one replaced by one of another length.
pub open spec fn with_value(ps: Seq<Place>, i: int, kind: Kind, len: int) -> Seq<Place> {
    let by = len - (ps[i].to - ps[i].from);
    Seq::new(
        ps.len(),
        |j: int|
            if j < i {
                ps[j]
            } else if j == i {
                Place { kind, to: ps[i].from + len, ..ps[i] }
            } else {
                ps[j].moved(by)
            },
    )
}

/// Where the parts of the first field behind `at` stand.
#[verifier::ext_equal]
struct Parts {
    start: int,
    key_end: int,
    colon: int,
    from: int,
    to: int,
    next: int,
}

spec fn parts_of(line: Seq<u8>, at: int) -> Parts {
    let start = space_end(line, at);
    let key_end = string_stop(line, start)->Some_0;
    let colon = space_end(line, key_end);
    let from = space_end(line, colon + 1);
    let to = value_stop(line, from)->Some_0.1;
    Parts { start, key_end, colon, from, to, next: space_end(line, to) }
}

proof fn lemma_parts(line: Seq<u8>, at: int)
    requires
        0 <= at <= line.len(),
        places_from(line, at) is Some,
    ensures
        ({
            let p = parts_of(line, at);
            let ps = places_from(line, at)->Some_0;
            &&& at <= p.start < p.key_end - 1
            &&& p.key_end <= p.colon < p.from < p.to <= p.next < line.len()
            &&& line[p.start] == 34 && line[p.colon] == 58
            &&& text_end(line, p.start + 1) == Some(p.key_end)
            &&& ps.len() > 0 && ps[0].from == p.from && ps[0].to == p.to && ps[0].key == line.subrange(
                p.start + 1,
                p.key_end - 1,
            )
            &&& value_stop(line, p.from) == Some((ps[0].kind, p.to))
            &&& is_break(line, p.to)
            &&& line[p.next] == 44 ==> places_from(line, p.next + 1) is Some && ps =~= seq![ps[0]]
                + places_from(line, p.next + 1)->Some_0
            &&& line[p.next] != 44 ==> ps.len() == 1 && line[p.next] == 125 && space_end(
                line,
                p.next + 1,
            ) == line.len()
        }),
{
    let p = parts_of(line, at);
    lemma_space_from(line, at);
    lemma_text_from(line, p.start + 1);
    lemma_space_from(line, p.key_end);
    lemma_space_from(line, p.colon + 1);
    lemma_value_bounds(line, p.from);
    lemma_space_from(line, p.to);
}

/// In front of a value that is replaced everything is as it was.
proof fn lemma_front(line: Seq<u8>, now: Seq<u8>, at: int)
    requires
        0 <= at <= line.len(),
        places_from(line, at) is Some,
        agree(line, now, parts_of(line, at).from),
        parts_of(line, at).from < now.len(),
        !is_space(now[parts_of(line, at).from]),
    ensures
        ({
            let p = parts_of(line, at);
            &&& space_end(now, at) == p.start
            &&& string_stop(now, p.start) == Some(p.key_end)
            &&& space_end(now, p.key_end) == p.colon
            &&& byte_at(now, p.colon) == Some(58u8)
            &&& space_end(now, p.colon + 1) == p.from
            &&& now.subrange(p.start + 1, p.key_end - 1) == line.subrange(p.start + 1, p.key_end - 1)
        }),
{
    let p = parts_of(line, at);
    lemma_parts(line, at);
    lemma_space_agree(line, now, p.from, at);
    lemma_text_agree(line, now, p.from, p.start + 1);
    assert(line[p.start] == now[p.start]);
    lemma_space_agree(line, now, p.from, p.key_end);
    assert(line[p.colon] == now[p.colon]);
    lemma_space_agree(line, now, p.from, p.colon + 1);
    assert(now.subrange(p.start + 1, p.key_end - 1) =~= line.subrange(p.start + 1, p.key_end - 1));
}

/// A value put in front of what follows another is read as itself.
proof fn lemma_value_put(line: Seq<u8>, from: int, to: int, value: Seq<u8>, kind: Kind)
    requires
        0 <= from <= to < line.len(),
        is_break(line, to),
        is_value(value, kind),
    ensures
        ({
            let now = spliced(line, from, to, value);
            &&& value_stop(now, from) == Some((kind, from + value.len()))
            &&& now.skip(from + value.len()) == line.skip(to)
            &&& now.len() == line.len() + value.len() - (to - from)
            &&& value.len() > 0
            &&& now[from] == value[0]
            &&& !is_space(value[0])
            &&& agree(line, now, from)
        }),
{
    let now = spliced(line, from, to, value);
    let n = value.len() as int;
    lemma_value_bounds(value, 0);
    let tail = now.skip(from);
    let rest = line.skip(to);
    assert(tail =~= value + rest);
    lemma_value_shift(now, from, 0);
    assert(rest[0] == line[to]);
    assert(agree(value, tail, n));
    assert(byte_at(tail, n) == byte_at(line, to));
    lemma_value_agree(value, tail, n, 0);
    assert(now.skip(from + n) =~= rest);
}

/// A field and those behind it.
proof fn lemma_field_read(line: Seq<u8>, at: int, p: Parts, kind: Kind, rest: Seq<Place>)
    requires
        at <= p.next,
        space_end(line, at) == p.start,
        string_stop(line, p.start) == Some(p.key_end),
        space_end(line, p.key_end) == p.colon,
        byte_at(line, p.colon) == Some(58u8),
        space_end(line, p.colon + 1) == p.from,
        value_stop(line, p.from) == Some((kind, p.to)),
        space_end(line, p.to) == p.next,
        if byte_at(line, p.next) == Some(44u8) {
            places_from(line, p.next + 1) == Some(rest)
        } else {
            byte_at(line, p.next) == Some(125u8) && space_end(line, p.next + 1) == line.len() && rest.len()
                == 0
        },
    ensures
        places_from(line, at) == Some(
            seq![
                Place {
                    key: line.subrange(p.start + 1, p.key_end - 1),
                    kind,
                    from: p.from,
                    to: p.to,
                },
            ] + rest,
        ),
{
    let place = Place {
        key: line.subrange(p.start + 1, p.key_end - 1),
        kind,
        from: p.from,
        to: p.to,
    };
    if byte_at(line, p.next) != Some(44u8) {
        assert(seq![place] + rest =~= seq![place]);
    }
}

/// What follows a value reads the same behind another one.
proof fn lemma_tail(line: Seq<u8>, to: int, now: Seq<u8>, end: int, next: int)
    requires
        0 <= to <= next < line.len(),
        0 <= end <= now.len(),
        now.skip(end) == line.skip(to),
        space_end(line, to) == next,
    ensures
        space_end(now, end) == next - to + end,
        byte_at(now, next - to + end) == byte_at(line, next),
        space_end(line, next + 1) == line.len() ==> space_end(now, next - to + end + 1) == now.len(),
        match places_from(line.skip(to), next + 1 - to) {
            Some(after) => places_from(line, next + 1) == Some(moved(after, to)) && places_from(
                now,
                next - to + end + 1,
            ) == Some(moved(after, end)),
            None => places_from(line, next + 1) is None,
        },
{
    let rest = line.skip(to);
    assert(rest.len() == now.len() - end);
    lemma_space_shift(now, end, 0);
    lemma_space_shift(line, to, 0);
    lemma_byte_shift(now, end, next - to);
    lemma_byte_shift(line, to, next - to);
    lemma_space_shift(now, end, next + 1 - to);
    lemma_space_shift(line, to, next + 1 - to);
    lemma_places_shift(line, to, next + 1 - to);
    lemma_places_shift(now, end, next + 1 - to);
}

/// The field whose value is replaced is the first.
proof fn lemma_replaced_here(line: Seq<u8>, at: int, value: Seq<u8>, kind: Kind)
    requires
        0 <= at <= line.len(),
        places_from(line, at) is Some,
        is_value(value, kind),
    ensures
        ({
            let ps = places_from(line, at)->Some_0;
            let now = spliced(line, ps[0].from, ps[0].to, value);
            places_from(now, at) == Some(with_value(ps, 0, kind, value.len() as int))
        }),
{
    let ps = places_from(line, at)->Some_0;
    let p = parts_of(line, at);
    lemma_parts(line, at);
    let n = value.len() as int;
    let end = p.from + n;
    let now = spliced(line, p.from, p.to, value);
    lemma_value_put(line, p.from, p.to, value, kind);
    lemma_front(line, now, at);
    lemma_tail(line, p.to, now, end, p.next);
    let q = Parts { to: end, next: p.next - p.to + end, ..p };
    let place = Place { key: ps[0].key, kind, from: p.from, to: end };
    if line[p.next] == 44 {
        let after = places_from(line.skip(p.to), p.next + 1 - p.to)->Some_0;
        lemma_field_read(now, at, q, kind, moved(after, end));
        lemma_moved_behind(ps, place, after, p.to, end, kind, n);
    } else {
        lemma_field_read(now, at, q, kind, Seq::empty());
        assert(seq![place] + Seq::<Place>::empty() =~= with_value(ps, 0, kind, n));
    }
}

proof fn lemma_moved_behind(
    ps: Seq<Place>,
    place: Place,
    after: Seq<Place>,
    to: int,
    end: int,
    kind: Kind,
    n: int,
)
    requires
        ps.len() > 0,
        ps == seq![ps[0]] + moved(after, to),
        ps[0].to == to,
        end == ps[0].from + n,
        place == (Place { kind, to: end, ..ps[0] }),
    ensures
        seq![place] + moved(after, end) == with_value(ps, 0, kind, n),
{
    let got = seq![place] + moved(after, end);
    let by = n - (ps[0].to - ps[0].from);
    assert forall|j: int| 0 < j < ps.len() implies (#[trigger] got[j]) == ps[j].moved(by) by {
        assert(ps[j] == moved(after, to)[j - 1]);
        assert(got[j] == moved(after, end)[j - 1]);
    }
    assert(got =~= with_value(ps, 0, kind, n));
}

/// Any field's value is replaced.
proof fn lemma_replaced(line: Seq<u8>, at: int, i: int, value: Seq<u8>, kind: Kind)
    requires
        0 <= at <= line.len(),
        places_from(line, at) matches Some(ps) && 0 <= i < ps.len(),
        is_value(value, kind),
    ensures
        ({
            let ps = places_from(line, at)->Some_0;
            let now = spliced(line, ps[i].from, ps[i].to, value);
            places_from(now, at) == Some(with_value(ps, i, kind, value.len() as int))
        }),
    decreases i,
{
    if i == 0 {
        lemma_replaced_here(line, at, value, kind);
    } else {
        let ps = places_from(line, at)->Some_0;
        lemma_places_bounds(line, at);
        let (from, to) = (ps[i].from, ps[i].to);
        let now = spliced(line, from, to, value);
        let p = parts_of(line, at);
        lemma_parts(line, at);
        let next = p.next;
        let rest = places_from(line, next + 1)->Some_0;
        assert(rest[i - 1] == ps[i]);
        lemma_places_bounds(line, next + 1);
        assert(next < from);
        assert(agree(line, now, from));
        assert(line[p.from] == now[p.from]);
        assert(!is_space(line[p.from]));
        assert(agree(line, now, p.from));
        lemma_front(line, now, at);
        lemma_value_agree(line, now, from, p.from);
        lemma_space_agree(line, now, from, p.to);
        assert(line[next] == now[next]);
        lemma_replaced(line, next + 1, i - 1, value, kind);
        let n = value.len() as int;
        let new_rest = with_value(rest, i - 1, kind, n);
        assert(places_from(now, next + 1) == Some(new_rest));
        assert(seq![ps[0]] + new_rest =~= with_value(ps, i, kind, n)) by {
            assert forall|j: int| 0 <= j < ps.len() implies #[trigger] (seq![ps[0]] + new_rest)[j]
                == with_value(ps, i, kind, n)[j] by {
                if j > 0 {
                    assert(ps[j] == rest[j - 1]);
                }
            }
        }
    }
}

/// Where the fields of an object begin.
pub(crate) proof fn lemma_object(doc: Seq<u8>)
    requires
        places(doc) is Some,
    ensures
        ({
            let open = space_end(doc, 0);
            let first = space_end(doc, open + 1);
            let ps = places(doc)->Some_0;
            &&& 0 <= open < first < doc.len()
            &&& doc[open] == 123
            &&& ps.len() == 0 <==> doc[first] == 125
            &&& ps.len() == 0 ==> space_end(doc, first + 1) == doc.len()
            &&& ps.len() > 0 ==> places_from(doc, first) == Some(ps) && doc[first] == 34 && space_end(
                doc,
                first,
            ) == first
        }),
{
    let open = space_end(doc, 0);
    let first = space_end(doc, open + 1);
    lemma_space_from(doc, 0);
    lemma_space_from(doc, open + 1);
    if doc[first] != 125 {
        lemma_parts(doc, first);
    }
}

/// Replacing a value replaces it and nothing else: the fields are found where
/// they were, but for the length of the value.
proof fn lemma_places_replaced(doc: Seq<u8>, i: int, value: Seq<u8>, kind: Kind)
    requires
        places(doc) matches Some(ps) && 0 <= i < ps.len(),
        is_value(value, kind),
    ensures
        ({
            let ps = places(doc)->Some_0;
            places(spliced(doc, ps[i].from, ps[i].to, value)) == Some(
                with_value(ps, i, kind, value.len() as int),
            )
        }),
{
    let ps = places(doc)->Some_0;
    lemma_object(doc);
    let open = space_end(doc, 0);
    let first = space_end(doc, open + 1);
    lemma_places_bounds(doc, first);
    lemma_replaced(doc, first, i, value, kind);
    let (from, to) = (ps[i].from, ps[i].to);
    let now = spliced(doc, from, to, value);
    assert(agree(doc, now, from));
    lemma_space_agree(doc, now, from, 0);
    lemma_space_agree(doc, now, from, open + 1);
    assert(doc[open] == now[open]);
    assert(doc[first] == now[first]);
}

proof fn lemma_members_replaced(doc: Seq<u8>, ps: Seq<Place>, i: int, value: Seq<u8>, kind: Kind)
    requires
        places(doc) == Some(ps),
        0 <= i < ps.len(),
    ensures
        members_at(
            spliced(doc, ps[i].from, ps[i].to, value),
            with_value(ps, i, kind, value.len() as int),
        ) == members_at(doc, ps).update(i, Member { key: ps[i].key, kind, raw: value }),
{
    let (from, to) = (ps[i].from, ps[i].to);
    let n = value.len() as int;
    let now = spliced(doc, from, to, value);
    let got = with_value(ps, i, kind, n);
    lemma_object(doc);
    lemma_places_bounds(doc, space_end(doc, space_end(doc, 0) + 1));
    assert forall|j: int| 0 <= j < ps.len() implies #[trigger] members_at(now, got)[j] == members_at(
        doc,
        ps,
    ).update(i, Member { key: ps[i].key, kind, raw: value })[j] by {
        if j < i {
            assert(ps[j].to < ps[i].from);
            assert(now.subrange(ps[j].from, ps[j].to) =~= doc.subrange(ps[j].from, ps[j].to));
        } else if j == i {
            assert(now.subrange(from, from + n) =~= value);
        } else {
            assert(ps[i].to < ps[j].from);
            let by = n - (to - from);
            assert(now.subrange(ps[j].from + by, ps[j].to + by) =~= doc.subrange(ps[j].from, ps[j].to));
        }
    }
    assert(members_at(now, got) =~= members_at(doc, ps).update(
        i,
        Member { key: ps[i].key, kind, raw: value },
    ));
}

/// An edit of a record replaces the bytes of one value and nothing else: read
/// again, the record has the same fields in the same order, and only the edited
/// one holds something new.
pub proof fn an_edit_replaces_one_value(
    line: Seq<u8>,
    key: Seq<u8>,
    value: Seq<u8>,
    kind: Kind,
    adding: Adding,
)
    requires
        places(line) matches Some(ps) && named(ps, key) is Some,
        is_value(value, kind),
    ensures
        ({
            let i = named(places(line)->Some_0, key)->Some_0;
            let now = placed(line, seq![key], value, adding);
            &&& now is Some
            &&& members(now->Some_0) == Some(
                members(line)->Some_0.update(i, Member { key, kind, raw: value }),
            )
        }),
{
    let ps = places(line)->Some_0;
    lemma_named(ps, key);
    let i = named(ps, key)->Some_0;
    let now = spliced(line, ps[i].from, ps[i].to, value);
    assert(placed(line, seq![key], value, adding) == Some(now));
    lemma_places_replaced(line, i, value, kind);
    lemma_members_replaced(line, ps, i, value, kind);
    places_hold_the_fields(line);
    places_hold_the_fields(now);
}

/// Bytes that open and close nothing.
proof fn lemma_closing_pass(line: Seq<u8>, at: int, end: int, depth: nat)
    requires
        0 <= at <= end <= line.len(),
        forall|j: int| at <= j < end ==> is_flat(#[trigger] line[j]),
    ensures
        closing(line, at, depth) == closing(line, end, depth),
    decreases end - at,
{
    if at < end {
        assert(is_flat(line[at]));
        lemma_closing_pass(line, at + 1, end, depth);
    }
}

pub open spec fn is_flat(b: u8) -> bool {
    b != 34 && b != 123 && b != 91 && b != 125 && b != 93
}

proof fn lemma_closing_spaces(line: Seq<u8>, at: int, depth: nat)
    requires
        0 <= at <= line.len(),
    ensures
        closing(line, at, depth) == closing(line, space_end(line, at), depth),
{
    lemma_space_from(line, at);
    assert forall|j: int| at <= j < space_end(line, at) implies is_flat(#[trigger] line[j]) by {
        assert(is_space(line[j]));
    }
    lemma_closing_pass(line, at, space_end(line, at), depth);
}

/// Within another, a document that closes leaves as many open as before it.
proof fn lemma_closing_deeper(line: Seq<u8>, at: int, depth: nat, outer: nat)
    requires
        0 <= at,
        depth >= 1,
        outer >= 1,
        closing(line, at, depth) is Some,
    ensures
        closing(line, at, depth + outer) == closing(line, closing(line, at, depth)->Some_0, outer),
    decreases line.len() - at,
{
    let b = line[at];
    if b == 34 {
        lemma_text_from(line, at + 1);
        lemma_closing_deeper(line, text_end(line, at + 1)->Some_0, depth, outer);
    } else if b == 123 || b == 91 {
        lemma_closing_deeper(line, at + 1, depth + 1, outer);
    } else if b == 125 || b == 93 {
        if depth > 1 {
            lemma_closing_deeper(line, at + 1, (depth - 1) as nat, outer);
        }
    } else {
        lemma_closing_deeper(line, at + 1, depth, outer);
    }
}

pub(crate) proof fn lemma_number_flat(line: Seq<u8>, at: int)
    requires
        0 <= at < line.len(),
        number_stop(line, at) is Some,
    ensures
        ({
            let end = number_stop(line, at)->Some_0.1;
            at <= end <= line.len() && forall|j: int|
                at <= j < end ==> is_flat(#[trigger] line[j]) && line[j] != 10
        }),
{
    let end = number_stop(line, at)->Some_0.1;
    let whole = if byte_at(line, at) == Some(45u8) { at + 1 } else { at };
    let point = digits_end(line, whole);
    lemma_digits_from(line, whole);
    let exponent = fraction_stop(line, point)->Some_0;
    if byte_at(line, point) == Some(46u8) {
        lemma_digits_from(line, point + 1);
    }
    let sign = byte_at(line, exponent + 1) == Some(43u8) || byte_at(line, exponent + 1) == Some(45u8);
    let start = if sign { exponent + 2 } else { exponent + 1 };
    if byte_at(line, exponent) == Some(101u8) || byte_at(line, exponent) == Some(69u8) {
        lemma_digits_from(line, start);
    }
    assert forall|j: int| at <= j < end implies is_flat(#[trigger] line[j]) && line[j] != 10 by {
        if whole <= j < point {
            assert(is_digit(line[j]));
        } else if point < j < exponent {
            assert(is_digit(line[j]));
        } else if start <= j {
            assert(is_digit(line[j]));
        }
    }
}

/// A value leaves as many documents open as it found.
proof fn lemma_closing_value(line: Seq<u8>, at: int, depth: nat)
    requires
        depth >= 1,
        value_stop(line, at) is Some,
    ensures
        closing(line, at, depth) == closing(line, value_stop(line, at)->Some_0.1, depth),
{
    lemma_value_bounds(line, at);
    let end = value_stop(line, at)->Some_0.1;
    let b = line[at];
    if b == 34 {
    } else if b == 123 || b == 91 {
        assert(closing(line, at, 0) == closing(line, at + 1, 1));
        lemma_closing_deeper(line, at + 1, 1, depth);
        assert(closing(line, at, depth) == closing(line, at + 1, depth + 1));
    } else if b == 116 || b == 102 || b == 110 {
        let word = if b == 116 {
            true_word()
        } else if b == 102 {
            false_word()
        } else {
            null_word()
        };
        assert(line.subrange(at, end) == word);
        assert forall|j: int| at <= j < end implies is_flat(#[trigger] line[j]) by {
            assert(line[j] == line.subrange(at, end)[j - at]);
            assert(is_flat(word[j - at]));
        }
        lemma_closing_pass(line, at, end, depth);
    } else {
        lemma_number_flat(line, at);
        lemma_closing_pass(line, at, end, depth);
    }
}

/// The fields of an object end in the brace that closes it.
proof fn lemma_fields_close(line: Seq<u8>, at: int)
    requires
        0 <= at <= line.len(),
        places_from(line, at) is Some,
    ensures
        closing(line, at, 1) matches Some(end) && 0 < end <= line.len() && space_end(line, end)
            == line.len(),
    decreases line.len() - at,
{
    let p = parts_of(line, at);
    lemma_parts(line, at);
    lemma_closing_spaces(line, at, 1);
    assert(closing(line, p.start, 1) == closing(line, p.key_end, 1));
    lemma_closing_spaces(line, p.key_end, 1);
    assert(closing(line, p.colon, 1) == closing(line, p.colon + 1, 1));
    lemma_closing_spaces(line, p.colon + 1, 1);
    lemma_closing_value(line, p.from, 1);
    lemma_closing_spaces(line, p.to, 1);
    if line[p.next] == 44 {
        assert(closing(line, p.next, 1) == closing(line, p.next + 1, 1));
        lemma_fields_close(line, p.next + 1);
    }
}

/// An object with nothing around it is a value.
pub(crate) proof fn lemma_object_is_a_value(doc: Seq<u8>)
    requires
        places(doc) is Some,
        doc[0] == 123,
        !is_space(doc.last()),
    ensures
        is_value(doc, Kind::Nested),
{
    lemma_object(doc);
    assert(space_end(doc, 0) == 0);
    let first = space_end(doc, 1);
    assert(closing(doc, 0, 0) == closing(doc, 1, 1));
    lemma_closing_spaces(doc, 1, 1);
    if doc[first] == 125 {
        assert(closing(doc, first, 1) == Some(first + 1));
    } else {
        lemma_fields_close(doc, first);
    }
    let end = closing(doc, 1, 1)->Some_0;
    lemma_space_from(doc, end);
    if end < doc.len() {
        assert(is_space(doc[doc.len() - 1]));
    }
}

/// The same keys in the same order.
proof fn lemma_named_alike(a: Seq<Place>, b: Seq<Place>, key: Seq<u8>)
    requires
        a.len() == b.len(),
        forall|j: int| 0 <= j < a.len() ==> (#[trigger] a[j]).key == b[j].key,
    ensures
        named(a, key) == named(b, key),
    decreases a.len(),
{
    if a.len() > 0 {
        let (x, y) = (a.drop_last(), b.drop_last());
        assert forall|j: int| 0 <= j < x.len() implies (#[trigger] x[j]).key == y[j].key by {
            assert(a[j].key == b[j].key);
        }
        assert(a[a.len() - 1].key == b[b.len() - 1].key);
        lemma_named_alike(x, y, key);
    }
}

proof fn lemma_found_replaced(
    doc: Seq<u8>,
    key: Seq<u8>,
    i: int,
    value: Seq<u8>,
    kind: Kind,
)
    requires
        places(doc) matches Some(ps) && named(ps, key) == Some(i),
        is_value(value, kind),
    ensures
        ({
            let ps = places(doc)->Some_0;
            let now = spliced(doc, ps[i].from, ps[i].to, value);
            &&& 0 <= i < ps.len()
            &&& places(now) matches Some(qs) && named(qs, key) == Some(i) && qs[i] == (Place {
                kind,
                to: ps[i].from + value.len(),
                ..ps[i]
            })
            &&& now.subrange(ps[i].from, ps[i].from + value.len()) == value
        }),
{
    let ps = places(doc)->Some_0;
    lemma_named(ps, key);
    lemma_places_within(doc);
    lemma_places_replaced(doc, i, value, kind);
    let n = value.len() as int;
    let qs = with_value(ps, i, kind, n);
    lemma_named_alike(ps, qs, key);
    let now = spliced(doc, ps[i].from, ps[i].to, value);
    assert(now.subrange(ps[i].from, ps[i].from + n) =~= value);
}

/// Where a path of keys leads to a value, another can always be put in its place,
/// at the top of a record or in a document within it, and is what is found there.
pub proof fn a_value_that_stands_is_replaced(
    doc: Seq<u8>,
    path: Seq<Seq<u8>>,
    value: Seq<u8>,
    kind: Kind,
    adding: Adding,
)
    requires
        found(doc, path) is Some,
        is_value(value, kind),
    ensures
        placed(doc, path, value, adding) matches Some(now) && value_under(now, path) == Some((kind, value)),
    decreases path.len(),
{
    let ps = places(doc)->Some_0;
    let key = path[0];
    lemma_named(ps, key);
    lemma_places_within(doc);
    let i = named(ps, key)->Some_0;
    let (from, to) = (ps[i].from, ps[i].to);
    if path.len() == 1 {
        lemma_found_replaced(doc, key, i, value, kind);
    } else {
        let inner = doc.subrange(from, to);
        let rest = path.skip(1);
        a_value_that_stands_is_replaced(inner, rest, value, kind, adding.within());
        let put = placed(inner, rest, value, adding.within())->Some_0;
        lemma_found_within(put, rest);
        lemma_within(doc, from, to, put, rest, value, adding.within());
        lemma_object_is_a_value(put);
        lemma_found_replaced(doc, key, i, put, Kind::Nested);
        let now = spliced(doc, from, to, put);
        let (k, a, b) = found(put, rest)->Some_0;
        assert(now.subrange(from + a, from + b) =~= put.subrange(a, b));
        assert(value_under(now, path) == Some((kind, value)));
    }
}

/// A document with something put into it begins and ends as it did.
proof fn lemma_within(
    doc: Seq<u8>,
    from: int,
    to: int,
    put: Seq<u8>,
    rest: Seq<Seq<u8>>,
    value: Seq<u8>,
    adding: Adding,
)
    requires
        0 <= from < to <= doc.len(),
        value_stop(doc, from) matches Some((kind, end)) && end == to,
        found(doc.subrange(from, to), rest) is Some,
        placed(doc.subrange(from, to), rest, value, adding) == Some(put),
    ensures
        put.len() > 1,
        put[0] == 123,
        !is_space(put.last()),
{
    let inner = doc.subrange(from, to);
    lemma_object(inner);
    lemma_places_within(inner);
    let ps = places(inner)->Some_0;
    lemma_named(ps, rest[0]);
    let i = named(ps, rest[0])->Some_0;
    assert(inner[0] == doc[from]);
    assert(!is_space(doc[from]));
    assert(space_end(inner, 0) == 0);
    lemma_closing_from(doc, from, 0);
    assert(inner.last() == doc[to - 1]);
    let (f, t) = (ps[i].from, ps[i].to);
    let bytes = if rest.len() == 1 {
        value
    } else {
        placed(inner.subrange(f, t), rest.skip(1), value, adding.within())->Some_0
    };
    assert(put == spliced(inner, f, t, bytes));
    assert(put[0] == inner[0]);
    assert(put.last() == inner.last());
}

/// A key as it can stand between quotes.
pub open spec fn is_key(key: Seq<u8>) -> bool {
    text_end(key.push(34), 0) == Some(key.len() as int + 1)
}

/// A field more, with what closes the object behind it.
#[verifier::spinoff_prover]
#[verifier::rlimit(60)]
proof fn lemma_last_field(line: Seq<u8>, at: int, key: Seq<u8>, value: Seq<u8>, kind: Kind, rest: Seq<u8>)
    requires
        0 <= at <= line.len(),
        line.skip(at) == field_text(seq![key], value) + rest,
        is_key(key),
        is_value(value, kind),
        ({
            let close = space_end(rest, 0);
            &&& 0 <= close < rest.len()
            &&& rest[close] == 125
            &&& space_end(rest, close + 1) == rest.len()
        }),
    ensures
        ({
            let from = at + key.len() + 3;
            places_from(line, at) == Some(
                seq![Place { key, kind, from, to: from + value.len() }],
            )
        }),
{
    let tail = line.skip(at);
    let field = seq![34u8] + key + seq![34u8, 58u8] + value;
    assert(field_text(seq![key], value) == field);
    let (m, n) = (key.len() as int, value.len() as int);
    assert(tail[0] == 34);
    assert(space_end(tail, 0) == 0);
    // The key.
    let behind = tail.skip(1);
    let quoted_key = key.push(34);
    assert(agree(quoted_key, behind, m + 1)) by {
        assert forall|k: int| 0 <= k < m + 1 implies #[trigger] quoted_key[k] == behind[k] by {
            assert(behind[k] == tail[k + 1]);
            assert(tail[k + 1] == field[k + 1]);
        }
    }
    lemma_text_agree(quoted_key, behind, m + 1, 0);
    lemma_text_shift(tail, 1, 0);
    assert(string_stop(tail, 0) == Some(m + 2));
    assert(tail[m + 2] == field[m + 2]);
    assert(tail[m + 2] == 58);
    assert(space_end(tail, m + 2) == m + 2);
    // The value.
    lemma_value_bounds(value, 0);
    assert(tail[m + 3] == value[0]) by {
        assert(tail[m + 3] == field[m + 3]);
    }
    assert(!is_space(value[0]));
    assert(space_end(tail, m + 3) == m + 3);
    let from_value = tail.skip(m + 3);
    assert(from_value =~= value + rest);
    lemma_value_shift(tail, m + 3, 0);
    lemma_space_from(rest, 0);
    assert(is_break(rest, 0)) by {
        if space_end(rest, 0) > 0 {
            assert(is_space(rest[0]));
        }
    }
    assert(byte_at(from_value, n) == byte_at(rest, 0));
    lemma_value_agree(value, from_value, n, 0);
    assert(value_stop(tail, m + 3) == Some((kind, m + 3 + n)));
    // What closes the object.
    let close = space_end(rest, 0);
    assert(tail.skip(m + 3 + n) =~= rest);
    lemma_space_shift(tail, m + 3 + n, 0);
    lemma_byte_shift(tail, m + 3 + n, close);
    lemma_space_shift(tail, m + 3 + n, close + 1);
    let p = Parts {
        start: 0,
        key_end: m + 2,
        colon: m + 2,
        from: m + 3,
        to: m + 3 + n,
        next: m + 3 + n + close,
    };
    lemma_field_read(tail, 0, p, kind, Seq::empty());
    assert(tail.subrange(1, m + 1) =~= key) by {
        assert forall|k: int| 0 <= k < m implies #[trigger] tail.subrange(1, m + 1)[k] == key[k] by {
            assert(tail[k + 1] == field[k + 1]);
        }
    }
    let place = Place { key, kind, from: m + 3, to: m + 3 + n };
    assert(seq![place] + Seq::<Place>::empty() =~= seq![place]);
    lemma_places_shift(line, at, 0);
    assert(moved(seq![place], at) =~= seq![place.moved(at)]);
}

/// What a key more adds to the bytes of an object that has fields.
pub open spec fn one_more(key: Seq<u8>, value: Seq<u8>) -> Seq<u8> {
    seq![44u8] + field_text(seq![key], value)
}

/// The line with one more field behind its first, which is its last.
#[verifier::spinoff_prover]
#[verifier::rlimit(60)]
proof fn lemma_added_behind_last(line: Seq<u8>, at: int, key: Seq<u8>, value: Seq<u8>, kind: Kind)
    requires
        0 <= at <= line.len(),
        places_from(line, at) is Some,
        line[parts_of(line, at).next] != 44,
        is_key(key),
        is_value(value, kind),
    ensures
        ({
            let ps = places_from(line, at)->Some_0;
            let end = ps[0].to;
            let from = end + key.len() + 4;
            &&& ps.len() == 1
            &&& places_from(spliced(line, end, end, one_more(key, value)), at) == Some(
                seq![ps[0], Place { key, kind, from, to: from + value.len() }],
            )
        }),
{
    let ps = places_from(line, at)->Some_0;
    let p = parts_of(line, at);
    lemma_parts(line, at);
    let end = p.to;
    let now = spliced(line, end, end, one_more(key, value));
    let from = end + key.len() + 4;
    let added = Place { key, kind, from, to: from + value.len() };
    lemma_spliced_in(line, end, key, value);
    assert(line[p.from] == now[p.from]);
    lemma_front(line, now, at);
    lemma_value_agree(line, now, end, p.from);
    let rest = line.skip(end);
    lemma_space_shift(line, end, 0);
    lemma_byte_shift(line, end, p.next - end);
    lemma_space_shift(line, end, p.next + 1 - end);
    lemma_last_field(now, end + 1, key, value, kind, rest);
    let q = Parts { next: end, ..p };
    lemma_field_read(now, at, q, ps[0].kind, seq![added]);
    assert(seq![ps[0]] + seq![added] =~= seq![ps[0], added]);
}

proof fn lemma_spliced_in(line: Seq<u8>, end: int, key: Seq<u8>, value: Seq<u8>)
    requires
        0 <= end < line.len(),
    ensures
        ({
            let now = spliced(line, end, end, one_more(key, value));
            &&& agree(line, now, end)
            &&& now.len() > end
            &&& now[end] == 44
            &&& space_end(now, end) == end
            &&& is_break(now, end)
            &&& now.skip(end + 1) == field_text(seq![key], value) + line.skip(end)
        }),
{
    let now = spliced(line, end, end, one_more(key, value));
    assert(now[end] == 44);
    assert(now.skip(end + 1) =~= field_text(seq![key], value) + line.skip(end));
}

proof fn lemma_fields_added(line: Seq<u8>, at: int, key: Seq<u8>, value: Seq<u8>, kind: Kind)
    requires
        0 <= at <= line.len(),
        places_from(line, at) is Some,
        is_key(key),
        is_value(value, kind),
    ensures
        ({
            let ps = places_from(line, at)->Some_0;
            let end = ps.last().to;
            let from = end + key.len() + 4;
            places_from(spliced(line, end, end, one_more(key, value)), at) == Some(
                ps.push(Place { key, kind, from, to: from + value.len() }),
            )
        }),
    decreases line.len() - at,
{
    let ps = places_from(line, at)->Some_0;
    let p = parts_of(line, at);
    lemma_parts(line, at);
    let end = ps.last().to;
    let now = spliced(line, end, end, one_more(key, value));
    let from = end + key.len() + 4;
    let added = Place { key, kind, from, to: from + value.len() };
    if line[p.next] == 44 {
        let rest = places_from(line, p.next + 1)->Some_0;
        lemma_places_bounds(line, at);
        lemma_places_bounds(line, p.next + 1);
        assert(rest.last() == ps.last());
        assert(rest[rest.len() - 1].from > p.next + 1);
        lemma_spliced_in(line, end, key, value);
        assert(line[p.from] == now[p.from]);
        assert(agree(line, now, p.from));
        lemma_front(line, now, at);
        lemma_value_agree(line, now, end, p.from);
        lemma_space_agree(line, now, end, p.to);
        assert(line[p.next] == now[p.next]);
        lemma_fields_added(line, p.next + 1, key, value, kind);
        lemma_field_read(now, at, p, ps[0].kind, rest.push(added));
        assert(seq![ps[0]] + rest.push(added) =~= ps.push(added));
    } else {
        lemma_added_behind_last(line, at, key, value, kind);
        assert(ps.push(added) =~= seq![ps[0], added]);
    }
}

/// An object without fields gets its first.
proof fn lemma_first_field(line: Seq<u8>, key: Seq<u8>, value: Seq<u8>, kind: Kind)
    requires
        places(line) matches Some(ps) && ps.len() == 0,
        is_key(key),
        is_value(value, kind),
    ensures
        ({
            let at = space_end(line, 0) + 1;
            let from = at + key.len() + 3;
            places(spliced(line, at, at, field_text(seq![key], value))) == Some(
                seq![Place { key, kind, from, to: from + value.len() }],
            )
        }),
{
    lemma_object(line);
    let open = space_end(line, 0);
    let at = open + 1;
    let first = space_end(line, at);
    lemma_space_from(line, at);
    let field = field_text(seq![key], value);
    let now = spliced(line, at, at, field);
    let rest = line.skip(at);
    assert(now.skip(at) =~= field + rest);
    lemma_space_shift(line, at, 0);
    lemma_byte_shift(line, at, first - at);
    lemma_space_shift(line, at, first + 1 - at);
    lemma_last_field(now, at, key, value, kind, rest);
    assert(agree(line, now, at));
    lemma_space_agree(line, now, at, 0);
    assert(now[open] == line[open]);
    assert(field[0] == 34);
    assert(now[at] == 34);
    assert(space_end(now, at) == at);
}

/// An object with fields gets one more.
proof fn lemma_field_more(line: Seq<u8>, key: Seq<u8>, value: Seq<u8>, kind: Kind)
    requires
        places(line) matches Some(ps) && ps.len() > 0,
        is_key(key),
        is_value(value, kind),
    ensures
        ({
            let ps = places(line)->Some_0;
            let at = ps.last().to;
            let from = at + key.len() + 4;
            places(spliced(line, at, at, one_more(key, value))) == Some(
                ps.push(Place { key, kind, from, to: from + value.len() }),
            )
        }),
{
    let ps = places(line)->Some_0;
    lemma_object(line);
    let open = space_end(line, 0);
    let first = space_end(line, open + 1);
    let at = ps.last().to;
    let now = spliced(line, at, at, one_more(key, value));
    lemma_places_bounds(line, first);
    assert(ps[ps.len() - 1].from > first);
    lemma_fields_added(line, first, key, value, kind);
    lemma_spliced_in(line, at, key, value);
    lemma_space_agree(line, now, at, 0);
    lemma_space_agree(line, now, at, open + 1);
    assert(now[open] == line[open]);
    assert(now[first] == line[first]);
}

proof fn lemma_members_added(line: Seq<u8>, ps: Seq<Place>, at: int, more: Seq<u8>, added: Place)
    requires
        places(line) == Some(ps),
        at == adding_at(line, ps),
        at <= added.from <= added.to == at + more.len(),
    ensures
        members_at(spliced(line, at, at, more), ps.push(added)) == members_at(line, ps).push(
            Member {
                key: added.key,
                kind: added.kind,
                raw: more.subrange(added.from - at, added.to - at),
            },
        ),
{
    let now = spliced(line, at, at, more);
    let member = Member {
        key: added.key,
        kind: added.kind,
        raw: more.subrange(added.from - at, added.to - at),
    };
    lemma_object(line);
    lemma_places_within(line);
    lemma_places_bounds(line, space_end(line, space_end(line, 0) + 1));
    assert(now.subrange(added.from, added.to) =~= member.raw);
    assert forall|j: int| 0 <= j < ps.len() implies #[trigger] members_at(now, ps.push(added))[j]
        == members_at(line, ps)[j] by {
        assert(ps.push(added)[j] == ps[j]);
        if j < ps.len() - 1 {
            assert(ps[j].to < ps[ps.len() - 1].from);
        }
        assert(now.subrange(ps[j].from, ps[j].to) =~= line.subrange(ps[j].from, ps[j].to));
    }
    assert(members_at(now, ps.push(added)) =~= members_at(line, ps).push(member));
}

/// What is written where a key is missing: the field, with a comma in front of
/// it unless it is the first.
spec fn missing_field(ps: Seq<Place>, key: Seq<u8>, value: Seq<u8>) -> Seq<u8> {
    if ps.len() == 0 {
        field_text(seq![key], value)
    } else {
        one_more(key, value)
    }
}

#[verifier::spinoff_prover]
proof fn lemma_put_here(line: Seq<u8>, key: Seq<u8>, value: Seq<u8>)
    requires
        places(line) matches Some(ps) && named(ps, key) is None,
    ensures
        ({
            let ps = places(line)->Some_0;
            let at = adding_at(line, ps);
            let more = missing_field(ps, key, value);
            &&& placed(line, seq![key], value, Adding::Here) == Some(spliced(line, at, at, more))
            &&& more.len() >= value.len()
            &&& more.skip(more.len() - value.len()) == value
        }),
{
    let ps = places(line)->Some_0;
    let field = field_text(seq![key], value);
    let more = missing_field(ps, key, value);
    let comma = if ps.len() == 0 { Seq::empty() } else { seq![44u8] };
    assert(comma + field =~= more);
    assert(field.len() == key.len() + 3 + value.len());
    assert(more.skip(more.len() - value.len()) =~= value);
}

#[verifier::spinoff_prover]
proof fn lemma_places_here(line: Seq<u8>, key: Seq<u8>, value: Seq<u8>, kind: Kind)
    requires
        places(line) matches Some(ps) && named(ps, key) is None,
        is_key(key),
        is_value(value, kind),
    ensures
        ({
            let ps = places(line)->Some_0;
            let at = adding_at(line, ps);
            let more = missing_field(ps, key, value);
            let from = at + more.len() - value.len();
            places(spliced(line, at, at, more)) == Some(
                ps.push(Place { key, kind, from, to: from + value.len() }),
            )
        }),
{
    let ps = places(line)->Some_0;
    if ps.len() == 0 {
        lemma_first_field(line, key, value, kind);
        let at = adding_at(line, ps);
        let more = missing_field(ps, key, value);
        let from = at + more.len() - value.len();
        let added = Place { key, kind, from, to: from + value.len() };
        assert(ps.push(added) =~= seq![added]);
    } else {
        lemma_field_more(line, key, value, kind);
    }
}

/// A key that a record does not have is added at the end of it: read again, the
/// record has all its fields as they were, and the new one behind them.
#[verifier::spinoff_prover]
pub proof fn a_missing_key_is_added_behind_the_others(
    line: Seq<u8>,
    key: Seq<u8>,
    value: Seq<u8>,
    kind: Kind,
)
    requires
        places(line) matches Some(ps) && named(ps, key) is None,
        is_key(key),
        is_value(value, kind),
    ensures
        placed(line, seq![key], value, Adding::Here) matches Some(now) && members(now) == Some(
            members(line)->Some_0.push(Member { key, kind, raw: value }),
        ),
{
    let ps = places(line)->Some_0;
    let at = adding_at(line, ps);
    let more = missing_field(ps, key, value);
    let now = spliced(line, at, at, more);
    let from = at + more.len() - value.len();
    let added = Place { key, kind, from, to: from + value.len() };
    lemma_put_here(line, key, value);
    lemma_places_here(line, key, value, kind);
    assert(more.subrange(from - at, from + value.len() - at) =~= value);
    lemma_members_added(line, ps, at, more, added);
    places_hold_the_fields(line);
    places_hold_the_fields(now);
}

proof fn lemma_escaped_front(c: char, rest: Seq<char>)
    ensures
        escaped(seq![c] + rest) == escape_of(c) + escaped(rest),
    decreases rest.len(),
{
    if rest.len() == 0 {
        assert(seq![c] + rest =~= seq![c]);
        assert(seq![c].drop_last() =~= Seq::empty());
        reveal_with_fuel(escaped, 2);
        assert(escape_of(c) + escaped(rest) =~= escape_of(c));
        assert(escaped(Seq::empty()) + escape_of(c) =~= escape_of(c));
    } else {
        lemma_escaped_front(c, rest.drop_last());
        assert((seq![c] + rest).drop_last() =~= seq![c] + rest.drop_last());
        assert(escaped(seq![c] + rest) =~= escape_of(c) + escaped(rest));
    }
}

proof fn lemma_hex(n: u32)
    requires
        n < 32,
    ensures
        hex_number(seq!['0', '0', hex_char(n / 16), hex_char(n % 16)]) == Some(n as nat),
{
    let hex = seq!['0', '0', hex_char(n / 16), hex_char(n % 16)];
    let three = seq!['0', '0', hex_char(n / 16)];
    let two = seq!['0', '0'];
    let one = seq!['0'];
    assert(hex.drop_last() =~= three);
    assert(three.drop_last() =~= two);
    assert(two.drop_last() =~= one);
    assert(one.drop_last() =~= Seq::empty());
    assert(hex_digit('0') == Some(0u32));
    assert(hex_digit(hex_char(n / 16)) == Some(n / 16));
    assert(hex_digit(hex_char(n % 16)) == Some(n % 16));
    assert(hex_digits(Seq::empty()) == Some(0nat));
    assert(hex_digits(one) == Some(0nat));
    assert(hex_digits(two) == Some(0nat));
    assert(hex_digits(three) == Some((n / 16) as nat));
    assert(hex_digits(hex) == Some(n as nat));
    assert(hex[0] == '0');
}

proof fn lemma_unescape_one(c: char, rest: Seq<char>)
    ensures
        unescaped(escape_of(c) + rest) == seq![c] + unescaped(rest),
{
    let text = escape_of(c) + rest;
    if c == '"' || c == '\\' || c == '\n' || c == '\r' || c == '\t' {
        assert(text.skip(2) =~= rest);
        assert(escape_char(text[1]) == c);
    } else if (c as u32) < 32 {
        let n = c as u32;
        lemma_hex(n);
        assert(text.subrange(2, 6) =~= seq!['0', '0', hex_char(n / 16), hex_char(n % 16)]);
        assert(text.skip(6) =~= rest);
        assert(vstd::utf8::is_scalar(n));
        assert(code_text(text.subrange(2, 6)) == seq![c]);
    } else {
        assert(text.skip(1) =~= rest);
    }
}

/// A text written as a JSON string is read as itself.
pub proof fn text_survives_quoting(text: Seq<char>)
    ensures
        unescaped(escaped(text)) == text,
    decreases text.len(),
{
    if text.len() > 0 {
        let rest = text.skip(1);
        assert(text =~= seq![text[0]] + rest);
        lemma_escaped_front(text[0], rest);
        lemma_unescape_one(text[0], escaped(rest));
        text_survives_quoting(rest);
    } else {
        assert(unescaped(escaped(text)) =~= text);
    }
}

/// Bytes that neither end a string nor begin an escape.
proof fn lemma_text_pass(line: Seq<u8>, at: int, end: int)
    requires
        0 <= at <= end <= line.len(),
        forall|j: int| at <= j < end ==> #[trigger] line[j] >= 32 && line[j] != 34 && line[j] != 92,
    ensures
        text_end(line, at) == text_end(line, end),
    decreases end - at,
{
    if at < end {
        assert(line[at] >= 32 && line[at] != 34 && line[at] != 92);
        lemma_text_pass(line, at + 1, end);
    }
}

proof fn lemma_ascii_bytes(text: Seq<char>)
    requires
        vstd::utf8::is_ascii_chars(text),
    ensures
        encode_utf8(text).len() == text.len(),
        forall|i: int| 0 <= i < text.len() ==> #[trigger] encode_utf8(text)[i] == text[i] as u8,
{
    vstd::utf8::is_ascii_chars_encode_utf8(text);
}

/// A character written into a string leaves the string open.
proof fn lemma_escape_open(line: Seq<u8>, at: int, c: char)
    requires
        0 <= at,
        at + encode_utf8(escape_of(c)).len() <= line.len(),
        line.subrange(at, at + encode_utf8(escape_of(c)).len()) == encode_utf8(escape_of(c)),
    ensures
        text_end(line, at) == text_end(line, at + encode_utf8(escape_of(c)).len()),
{
    let text = escape_of(c);
    let bytes = encode_utf8(text);
    let n = bytes.len() as int;
    let here = line.subrange(at, at + n);
    assert forall|j: int| 0 <= j < n implies line[at + j] == #[trigger] bytes[j] by {
        assert(here[j] == line[at + j]);
    }
    if c == '"' || c == '\\' || c == '\n' || c == '\r' || c == '\t' {
        lemma_ascii_bytes(text);
        assert(bytes[0] == text[0] as u8);
        assert(line[at + 0] == bytes[0]);
    } else if (c as u32) < 32 {
        lemma_ascii_bytes(text);
        assert(bytes[0] == text[0] as u8);
        assert(line[at + 0] == bytes[0]);
        assert forall|j: int| at + 2 <= j < at + 6 implies #[trigger] line[j] >= 32 && line[j] != 34
            && line[j] != 92 by {
            assert(line[at + (j - at)] == bytes[j - at]);
            assert(bytes[j - at] == text[j - at] as u8);
        }
        lemma_text_pass(line, at + 2, at + 6);
    } else {
        lemma_encode_one(c);
        lemma_scalar_bytes(c, 34);
        lemma_scalar_bytes(c, 92);
        assert(34u8 as char == '"' && 92u8 as char == '\\');
        assert forall|j: int| at <= j < at + n implies #[trigger] line[j] >= 32 && line[j] != 34 && line[j]
            != 92 by {
            assert(line[at + (j - at)] == bytes[j - at]);
            let b = bytes[j - at];
            assert(bytes.contains(b));
            if b < 128 {
                lemma_scalar_bytes(c, b);
                assert(c == b as char);
            }
        }
        lemma_text_pass(line, at, at + n);
    }
}

proof fn lemma_text_open(line: Seq<u8>, at: int, text: Seq<char>)
    requires
        0 <= at,
        at + encode_utf8(escaped(text)).len() <= line.len(),
        line.subrange(at, at + encode_utf8(escaped(text)).len()) == encode_utf8(escaped(text)),
    ensures
        text_end(line, at) == text_end(line, at + encode_utf8(escaped(text)).len()),
    decreases text.len(),
{
    if text.len() > 0 {
        let front = text.drop_last();
        let c = text.last();
        let a = encode_utf8(escaped(front));
        let b = encode_utf8(escape_of(c));
        lemma_encode_concat(escaped(front), escape_of(c));
        let all = line.subrange(at, at + a.len() + b.len());
        assert(all == a + b);
        assert(line.subrange(at, at + a.len()) =~= a) by {
            assert(all.subrange(0, a.len() as int) =~= a);
        }
        assert(line.subrange(at + a.len(), at + a.len() + b.len()) =~= b) by {
            assert(all.subrange(a.len() as int, (a.len() + b.len()) as int) =~= b);
        }
        lemma_text_open(line, at, front);
        lemma_escape_open(line, at + a.len(), c);
    }
}

pub(crate) proof fn lemma_quoted_bytes(text: Seq<char>)
    ensures
        encode_utf8(quoted(text)) == seq![34u8] + encode_utf8(escaped(text)) + seq![34u8],
{
    lemma_encode_concat(seq!['"'] + escaped(text), seq!['"']);
    lemma_encode_concat(seq!['"'], escaped(text));
    lemma_ascii_bytes(seq!['"']);
    assert(seq!['"'][0] as u8 == 34);
    assert(encode_utf8(seq!['"'])[0] == seq!['"'][0] as u8);
    assert(encode_utf8(seq!['"']) =~= seq![34u8]);
}

proof fn lemma_string_is_a_value(text: Seq<char>)
    ensures
        is_value(encode_utf8(quoted(text)), Kind::Str),
{
    lemma_quoted_bytes(text);
    let bytes = encode_utf8(quoted(text));
    let body = encode_utf8(escaped(text));
    let n = body.len() as int;
    assert(bytes.subrange(1, 1 + n) =~= body);
    lemma_text_open(bytes, 1, text);
    assert(bytes[0] == 34);
    assert(bytes[1 + n] == 34);
    assert(bytes.len() == n + 2);
}

/// What a cell is written as.
pub open spec fn kind_written(text: Seq<char>, column: ColumnType) -> Kind {
    if text.len() == 0 {
        Kind::Null
    } else if passes(encode_utf8(text), column) {
        match column {
            ColumnType::Bool => Kind::Bool,
            _ => number_stop(encode_utf8(text), 0)->Some_0.0,
        }
    } else {
        Kind::Str
    }
}

/// A cell is written as a JSON value, and reading that value gives what was
/// typed: the text itself, and nothing where nothing was typed.
pub proof fn a_typed_cell_reads_back(text: Seq<char>, column: ColumnType)
    ensures
        ({
            let bytes = json_value(text, column);
            let kind = kind_written(text, column);
            &&& is_value(bytes, kind)
            &&& well_encoded(kind, bytes)
            &&& decoded(kind, bytes) == if text.len() == 0 {
                None
            } else {
                Some(text)
            }
        }),
{
    let bytes = json_value(text, column);
    if text.len() == 0 {
        assert(bytes.subrange(0, 4) =~= null_word());
        lemma_ascii_bytes(seq!['n', 'u', 'l', 'l']);
        let word = encode_utf8(seq!['n', 'u', 'l', 'l']);
        assert(word =~= null_word()) by {
            assert(word[0] == seq!['n', 'u', 'l', 'l'][0] as u8);
            assert(word[1] == seq!['n', 'u', 'l', 'l'][1] as u8);
            assert(word[2] == seq!['n', 'u', 'l', 'l'][2] as u8);
            assert(word[3] == seq!['n', 'u', 'l', 'l'][3] as u8);
        }
        vstd::utf8::encode_utf8_valid_utf8(seq!['n', 'u', 'l', 'l']);
    } else if passes(encode_utf8(text), column) {
        vstd::utf8::encode_utf8_valid_utf8(text);
        vstd::utf8::encode_utf8_decode_utf8(text);
        if column == ColumnType::Bool {
            assert(bytes.subrange(0, bytes.len() as int) =~= bytes);
        } else {
            let whole = if byte_at(bytes, 0) == Some(45u8) { 1int } else { 0 };
            lemma_digits_from(bytes, whole);
            assert(bytes[0] == 45 || is_digit(bytes[0]));
            assert(value_stop(bytes, 0) == number_stop(bytes, 0));
        }
    } else {
        lemma_string_is_a_value(text);
        lemma_quoted_bytes(text);
        assert(bytes.subrange(1, bytes.len() - 1) =~= encode_utf8(escaped(text)));
        vstd::utf8::encode_utf8_valid_utf8(escaped(text));
        vstd::utf8::encode_utf8_decode_utf8(escaped(text));
        text_survives_quoting(text);
    }
}

/// Lines, each with a newline behind it.
spec fn closed_lines(lines: Seq<Seq<u8>>) -> Seq<u8>
    decreases lines.len(),
{
    if lines.len() == 0 {
        Seq::empty()
    } else {
        closed_lines(lines.drop_last()) + lines.last() + seq![10u8]
    }
}

proof fn lemma_lines_hold_the_bytes(bytes: Seq<u8>)
    ensures
        lines_of(bytes).len() > 0,
        closed_lines(lines_of(bytes).drop_last()) + lines_of(bytes).last() == bytes,
    decreases bytes.len(),
{
    let lines = lines_of(bytes);
    if bytes.len() == 0 {
        assert(lines.drop_last() =~= Seq::empty());
        assert(closed_lines(lines.drop_last()) + lines.last() =~= bytes);
    } else {
        let front = bytes.drop_last();
        let before = lines_of(front);
        lemma_lines_hold_the_bytes(front);
        assert(bytes =~= front.push(bytes.last()));
        if bytes.last() == 10 {
            assert(lines.drop_last() =~= before);
            assert(closed_lines(before) + Seq::<u8>::empty() =~= closed_lines(before.drop_last())
                + before.last() + seq![10u8]);
            assert(closed_lines(lines.drop_last()) + lines.last() =~= bytes);
        } else {
            assert(lines.drop_last() =~= before.drop_last());
            assert(closed_lines(lines.drop_last()) + lines.last() =~= bytes);
        }
    }
}

proof fn lemma_untouched_row(row: usize, doc: Seq<u8>, columns: Seq<JsonColumn>, adding: Adding, n: nat)
    ensures
        Pending::empty().json_row(row, doc, columns, adding, n) == (doc, 0nat),
    decreases n,
{
    if n > 0 {
        lemma_untouched_row(row, doc, columns, adding, (n - 1) as nat);
    }
}

proof fn lemma_untouched(columns: Seq<JsonColumn>, lines: Seq<Seq<u8>>, open: bool, n: nat)
    requires
        n <= lines.len(),
    ensures
        json_body(Pending::empty(), columns, lines, open, n).bytes == if open && n == lines.len() && n > 0 {
            closed_lines(lines.drop_last()) + lines.last()
        } else {
            closed_lines(lines.take(n as int))
        },
    decreases n,
{
    let p = Pending::empty();
    if n > 0 {
        lemma_untouched(columns, lines, open, (n - 1) as nat);
        let row = (n - 1) as usize;
        let before = json_body(p, columns, lines, open, (n - 1) as nat);
        lemma_untouched_row(row, lines[n - 1], columns, Adding::Here, columns.len());
        assert(p.added_at(row) =~= Seq::empty());
        assert(lines.take(n as int).drop_last() =~= lines.take(n - 1));
        assert(before.bytes + Seq::<u8>::empty() =~= before.bytes);
        if open && n == lines.len() {
            assert(lines.take(n - 1) =~= lines.drop_last());
            assert(json_body(p, columns, lines, open, n).bytes =~= before.bytes + lines.last());
        }
    }
}

/// With nothing pending a file of JSON records is copied byte for byte.
pub proof fn nothing_pending_copies_the_records(bytes: Seq<u8>, columns: Seq<JsonColumn>)
    ensures
        json_output(Pending::empty(), columns, bytes).bytes == bytes,
{
    let lines = record_lines(bytes);
    let all = lines_of(bytes);
    lemma_record_lines(bytes);
    lemma_lines_hold_the_bytes(bytes);
    lemma_untouched(columns, lines, is_open(bytes), lines.len());
    assert(lines.take(lines.len() as int) =~= lines);
    assert(Pending::empty().added_at(lines.len() as usize) =~= Seq::empty());
    if !is_open(bytes) {
        assert(all.last().len() == 0);
        assert(closed_lines(all.drop_last()) + all.last() =~= closed_lines(all.drop_last()));
    }
}

} // verus!
