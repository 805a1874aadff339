//! What a text reads as.
use vstd::prelude::*;
use crate::app::motion::spelled;
use crate::app::session::all_digits;
use crate::data::jsonl::ColumnType;
use crate::data::natural::run_len;
use crate::text;

verus! {

/// A sign in front, or none.
pub open spec fn unsigned(t: Seq<char>) -> Seq<char> {
    if t.len() > 0 && (t[0] == '+' || t[0] == '-') {
        t.skip(1)
    } else {
        t
    }
}

/// A whole number that 64 bits hold, behind a sign or not.
pub open spec fn reads_as_int(t: Seq<char>) -> bool {
    let digits = unsigned(t);
    let bound: nat = if t.len() > 0 && t[0] == '-' { 9223372036854775808 } else { 9223372036854775807 };
    digits.len() > 0 && all_digits(digits) && spelled(digits) <= bound
}

/// Nothing, or an exponent: an `e`, a sign or none, and digits.
pub open spec fn is_exponent(t: Seq<char>) -> bool {
    t.len() == 0 || ((t[0] == 'e' || t[0] == 'E') && unsigned(t.skip(1)).len() > 0 && all_digits(
        unsigned(t.skip(1)),
    ))
}

/// Digits on either side of a point or without one, and an exponent or none.
pub open spec fn is_decimal(t: Seq<char>) -> bool {
    let whole = run_len(t);
    let rest = t.skip(whole as int);
    if rest.len() > 0 && rest[0] == '.' {
        let part = run_len(rest.skip(1));
        whole + part > 0 && is_exponent(rest.skip(1 + part as int))
    } else {
        whole > 0 && is_exponent(rest)
    }
}

/// A letter without regard to case.
pub open spec fn letter_is(c: char, low: char, up: char) -> bool {
    c == low || c == up
}

pub open spec fn is_nan(t: Seq<char>) -> bool {
    t.len() == 3 && letter_is(t[0], 'n', 'N') && letter_is(t[1], 'a', 'A') && letter_is(t[2], 'n', 'N')
}

pub open spec fn is_inf(t: Seq<char>) -> bool {
    t.len() >= 3 && letter_is(t[0], 'i', 'I') && letter_is(t[1], 'n', 'N') && letter_is(t[2], 'f', 'F') && (
    t.len() == 3 || (t.len() == 8 && letter_is(t[3], 'i', 'I') && letter_is(t[4], 'n', 'N') && letter_is(
        t[5],
        'i',
        'I',
    ) && letter_is(t[6], 't', 'T') && letter_is(t[7], 'y', 'Y')))
}

/// A number that need not be whole: a decimal, an infinity or not a number,
/// behind a sign or not.
pub open spec fn reads_as_float(t: Seq<char>) -> bool {
    let u = unsigned(t);
    is_decimal(u) || is_nan(u) || is_inf(u)
}

/// The text reads back as a value of its column's type. An empty one is no
/// value, which any column takes.
pub open spec fn fits(kind: ColumnType, t: Seq<char>) -> bool {
    t.len() == 0 || match kind {
        ColumnType::Int => reads_as_int(t),
        ColumnType::Float => reads_as_float(t),
        ColumnType::Bool => t == "true"@ || t == "false"@,
        ColumnType::Text => true,
    }
}

/// What a type is called.
pub open spec fn kind_name(kind: ColumnType) -> Seq<char> {
    match kind {
        ColumnType::Int => "i64"@,
        ColumnType::Float => "f64"@,
        ColumnType::Bool => "bool"@,
        ColumnType::Text => "str"@,
    }
}

pub fn type_label(kind: ColumnType) -> (s: &'static str)
    ensures
        s@ == kind_name(kind),
{
    match kind {
        ColumnType::Int => "i64",
        ColumnType::Float => "f64",
        ColumnType::Bool => "bool",
        ColumnType::Text => "str",
    }
}

fn sign_len(chars: &Vec<char>, from: usize) -> (n: usize)
    requires
        from <= chars.len(),
    ensures
        n <= 1,
        from + n <= chars.len(),
        unsigned(chars@.skip(from as int)) == chars@.skip(from + n),
{
    let ghost rest = chars@.skip(from as int);
    if from < chars.len() && (chars[from] == '+' || chars[from] == '-') {
        assert(rest.skip(1) =~= chars@.skip(from + 1));
        1
    } else {
        0
    }
}

fn digits_to_end(chars: &Vec<char>, from: usize) -> (b: bool)
    requires
        from <= chars.len(),
    ensures
        b == (chars@.skip(from as int).len() > 0 && all_digits(chars@.skip(from as int))),
{
    let ghost rest = chars@.skip(from as int);
    if from == chars.len() {
        return false;
    }
    let mut i = from;
    while i < chars.len()
        invariant
            from <= i <= chars.len(),
            rest == chars@.skip(from as int),
            forall|k: int| 0 <= k < i - from ==> '0' <= #[trigger] rest[k] <= '9',
        decreases chars.len() - i,
    {
        assert(rest[i - from] == chars@[i as int]);
        if !('0' <= chars[i] && chars[i] <= '9') {
            return false;
        }
        i += 1;
    }
    true
}

/// What digits spell, where 64 bits hold it.
fn spelled_out(digits: &str) -> (n: Option<u64>)
    requires
        all_digits(digits@),
    ensures
        match n {
            Some(n) => n == spelled(digits@),
            None => spelled(digits@) > u64::MAX,
        },
{
    let chars = text::chars(digits);
    let mut n: u64 = 0;
    let mut i: usize = 0;
    assert(digits@.take(0) =~= Seq::empty());
    while i < chars.len()
        invariant
            i <= chars.len(),
            chars@ == digits@,
            all_digits(digits@),
            n == spelled(digits@.take(i as int)),
        decreases chars.len() - i,
    {
        let ghost upto = digits@.take(i + 1);
        assert(upto.drop_last() =~= digits@.take(i as int));
        assert('0' <= digits@[i as int] <= '9');
        let d: u64 = (chars[i] as u32 - 48) as u64;
        proof {
            crate::app::motion::lemma_spelled_front(digits@, i + 1);
        }
        match n.checked_mul(10) {
            None => {
                return None;
            },
            Some(tens) => match tens.checked_add(d) {
                None => {
                    return None;
                },
                Some(sum) => {
                    n = sum;
                },
            },
        }
        i += 1;
    }
    assert(digits@.take(i as int) =~= digits@);
    Some(n)
}

/// The whole number that a text reads as.
pub open spec fn whole_number(t: Seq<char>) -> int {
    if t.len() > 0 && t[0] == '-' {
        -spelled(unsigned(t))
    } else {
        spelled(unsigned(t)) as int
    }
}

/// The whole number that a text reads as, if it does.
pub fn whole(value: &str) -> (out: Option<i64>)
    ensures
        match out {
            Some(n) => reads_as_int(value@) && n == whole_number(value@),
            None => !reads_as_int(value@),
        },
{
    let chars = text::chars(value);
    assert(value@.skip(0) =~= value@);
    let sign = sign_len(&chars, 0);
    if !digits_to_end(&chars, sign) {
        return None;
    }
    let digits = text::from_chars(vstd::slice::slice_subrange(chars.as_slice(), sign, chars.len()));
    assert(digits@ =~= chars@.skip(sign as int));
    match spelled_out(digits.as_str()) {
        None => None,
        Some(n) => if chars[0] == '-' {
            if n > 9223372036854775808 {
                None
            } else if n == 9223372036854775808 {
                Some(i64::MIN)
            } else {
                Some(-(n as i64))
            }
        } else if n > 9223372036854775807 {
            None
        } else {
            Some(n as i64)
        },
    }
}

fn digit_end(chars: &Vec<char>, from: usize) -> (to: usize)
    requires
        from <= chars.len(),
    ensures
        from <= to <= chars.len(),
        to == from + run_len(chars@.skip(from as int)),
{
    let mut to = from;
    while to < chars.len() && '0' <= chars[to] && chars[to] <= '9'
        invariant
            from <= to <= chars.len(),
            run_len(chars@.skip(from as int)) == (to - from) + run_len(chars@.skip(to as int)),
        decreases chars.len() - to,
    {
        assert(chars@.skip(to as int).drop_first() =~= chars@.skip(to + 1));
        to += 1;
    }
    to
}

fn exponent_from(chars: &Vec<char>, from: usize) -> (b: bool)
    requires
        from <= chars.len(),
    ensures
        b == is_exponent(chars@.skip(from as int)),
{
    let ghost rest = chars@.skip(from as int);
    if from == chars.len() {
        return true;
    }
    if chars[from] != 'e' && chars[from] != 'E' {
        return false;
    }
    assert(rest.skip(1) =~= chars@.skip(from + 1));
    let sign = sign_len(chars, from + 1);
    digits_to_end(chars, from + 1 + sign)
}

fn decimal_from(chars: &Vec<char>, from: usize) -> (b: bool)
    requires
        from <= chars.len(),
    ensures
        b == is_decimal(chars@.skip(from as int)),
{
    let ghost t = chars@.skip(from as int);
    let point = digit_end(chars, from);
    assert(t.skip(point - from) =~= chars@.skip(point as int));
    if point < chars.len() && chars[point] == '.' {
        let ghost rest = chars@.skip(point as int);
        assert(rest.skip(1) =~= chars@.skip(point + 1));
        let end = digit_end(chars, point + 1);
        assert(rest.skip(end - point) =~= chars@.skip(end as int));
        let some = (point - from) > 0 || (end - (point + 1)) > 0;
        some && exponent_from(chars, end)
    } else {
        point > from && exponent_from(chars, point)
    }
}

fn either(c: char, low: char, up: char) -> (b: bool)
    ensures
        b == letter_is(c, low, up),
{
    c == low || c == up
}

/// Whether a text reads as a number, whole or not.
pub fn is_number(value: &str) -> (b: bool)
    ensures
        b == reads_as_float(value@),
{
    let chars = text::chars(value);
    assert(value@.skip(0) =~= value@);
    let from = sign_len(&chars, 0);
    let ghost u = chars@.skip(from as int);
    if decimal_from(&chars, from) {
        return true;
    }
    let n: usize = chars.len() - from;
    if n < 3 {
        return false;
    }
    let (a, b, c) = (chars[from], chars[from + 1], chars[from + 2]);
    assert(u[0] == a && u[1] == b && u[2] == c);
    if n == 3 {
        return (either(a, 'n', 'N') && either(b, 'a', 'A') && either(c, 'n', 'N')) || (either(
            a,
            'i',
            'I',
        ) && either(b, 'n', 'N') && either(c, 'f', 'F'));
    }
    if n != 8 {
        return false;
    }
    let (d, e, f) = (chars[from + 3], chars[from + 4], chars[from + 5]);
    let (g, h) = (chars[from + 6], chars[from + 7]);
    assert(u[3] == d && u[4] == e && u[5] == f && u[6] == g && u[7] == h);
    either(a, 'i', 'I') && either(b, 'n', 'N') && either(c, 'f', 'F') && either(d, 'i', 'I') && either(
        e,
        'n',
        'N',
    ) && either(f, 'i', 'I') && either(g, 't', 'T') && either(h, 'y', 'Y')
}

/// Whether a text reads back as a value of this type.
pub fn reads_as(kind: ColumnType, value: &str) -> (b: bool)
    ensures
        b == fits(kind, value@),
{
    if value.is_empty() {
        return true;
    }
    match kind {
        ColumnType::Int => whole(value).is_some(),
        ColumnType::Float => is_number(value),
        ColumnType::Bool => text::same(value, "true") || text::same(value, "false"),
        ColumnType::Text => true,
    }
}

} // verus!
