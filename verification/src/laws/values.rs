//! What text is taken for a number or a truth value.
use vstd::prelude::*;
use crate::app::motion::spelled;
use crate::app::session::all_digits;
use crate::app::values::{
    fits, is_decimal, is_exponent, reads_as_float, reads_as_int, unsigned, whole_number,
};
use crate::data::jsonl::ColumnType;
use crate::data::natural::run_len;
use crate::data::typed::typed_cell;
use crate::laws::moving::digits_say_their_number;
use crate::text::{decimal_text, signed_text};

verus! {

pub(crate) proof fn lemma_decimal_digits(n: nat)
    ensures
        all_digits(decimal_text(n)),
        decimal_text(n).len() > 0,
    decreases n,
{
    if n >= 10 {
        lemma_decimal_digits(n / 10);
        assert forall|i: int| 0 <= i < decimal_text(n).len() implies '0' <= #[trigger] decimal_text(n)[i] <= '9' by {
            if i < decimal_text(n / 10).len() {
                assert(decimal_text(n)[i] == decimal_text(n / 10)[i]);
            }
        }
    }
}

/// A whole number that fits in sixty-four bits is taken for one, with a plus in
/// front or not, and one that does not fit is not.
pub proof fn whole_numbers_are_read(n: int)
    ensures
        reads_as_int(signed_text(n)) <==> i64::MIN <= n <= i64::MAX,
        n >= 0 ==> (reads_as_int(seq!['+'] + signed_text(n)) <==> n <= i64::MAX),
        whole_number(signed_text(n)) == n,
        n >= 0 ==> whole_number(seq!['+'] + signed_text(n)) == n,
{
    let size = if n < 0 { (-n) as nat } else { n as nat };
    lemma_decimal_digits(size);
    digits_say_their_number(size, 0);
    let digits = decimal_text(size);
    assert('0' <= digits[0] <= '9');
    let t = signed_text(n);
    if n < 0 {
        assert(t.skip(1) =~= digits);
    } else {
        let plus = seq!['+'] + t;
        assert(plus.skip(1) =~= digits);
        assert(unsigned(t) == digits);
        assert(spelled(digits) == n);
        assert(plus[0] == '+');
    }
}

/// What is taken for a whole number is digits, perhaps behind a sign.
pub proof fn only_digits_are_whole_numbers(t: Seq<char>, i: int)
    requires
        reads_as_int(t),
        0 <= i < t.len(),
    ensures
        '0' <= t[i] <= '9' || (i == 0 && t.len() > 1 && (t[0] == '+' || t[0] == '-')),
{
    let digits = unsigned(t);
    if t[0] == '+' || t[0] == '-' {
        if i > 0 {
            assert(digits[i - 1] == t[i]);
        }
    }
}

proof fn lemma_run(digits: Seq<char>, rest: Seq<char>)
    requires
        all_digits(digits),
        rest.len() > 0 ==> !('0' <= rest[0] <= '9'),
    ensures
        run_len(digits + rest) == digits.len(),
    decreases digits.len(),
{
    let t = digits + rest;
    if digits.len() > 0 {
        let fewer = digits.drop_first();
        assert('0' <= digits[0] <= '9');
        assert(all_digits(fewer)) by {
            assert forall|i: int| 0 <= i < fewer.len() implies '0' <= #[trigger] fewer[i] <= '9' by {
                assert(fewer[i] == digits[i + 1]);
            }
        }
        lemma_run(fewer, rest);
        assert(t.drop_first() =~= fewer + rest);
    } else {
        assert(t =~= rest);
    }
}

/// A power of ten behind a number: a letter, a sign or none, and digits; or
/// nothing.
pub open spec fn is_power(t: Seq<char>, letter: Seq<char>, sign: Seq<char>, digits: Seq<char>) -> bool {
    &&& t == letter + sign + digits
    &&& letter == seq!['e'] || letter == seq!['E']
    &&& sign.len() == 0 || sign == seq!['+'] || sign == seq!['-']
    &&& digits.len() > 0 && all_digits(digits)
}

proof fn lemma_power(t: Seq<char>, letter: Seq<char>, sign: Seq<char>, digits: Seq<char>)
    requires
        is_power(t, letter, sign, digits),
    ensures
        is_exponent(t),
        t.len() > 0,
        !('0' <= t[0] <= '9') && t[0] != '.',
{
    assert(t[0] == letter[0]);
    assert(t.skip(1) =~= sign + digits);
    assert('0' <= digits[0] <= '9');
    if sign.len() == 0 {
        assert(t.skip(1) =~= digits);
        assert(unsigned(t.skip(1)) == digits);
    } else {
        assert(t.skip(1)[0] == sign[0]);
        assert(t.skip(1).skip(1) =~= digits);
    }
}

/// Digits are a number, with a point among them or at an end of them or without
/// one, and with a power of ten behind them or without one, and with a sign in
/// front or without one.
pub proof fn numbers_are_read(
    sign: Seq<char>,
    whole: Seq<char>,
    part: Seq<char>,
    power: Seq<char>,
    letter: Seq<char>,
    power_sign: Seq<char>,
    digits: Seq<char>,
)
    requires
        sign.len() == 0 || sign == seq!['+'] || sign == seq!['-'],
        all_digits(whole),
        all_digits(part),
        whole.len() + part.len() > 0,
        power.len() == 0 || is_power(power, letter, power_sign, digits),
    ensures
        reads_as_float(sign + (whole + seq!['.'] + part + power)),
        whole.len() > 0 ==> reads_as_float(sign + (whole + power)),
{
    if power.len() > 0 {
        lemma_power(power, letter, power_sign, digits);
    }
    assert(is_exponent(power));
    let dotted = whole + seq!['.'] + part + power;
    let rest = seq!['.'] + part + power;
    assert(dotted =~= whole + rest);
    assert(rest[0] == '.');
    lemma_run(whole, rest);
    assert(dotted.skip(whole.len() as int) =~= rest);
    assert(rest.skip(1) =~= part + power);
    lemma_run(part, power);
    assert(rest.skip(1 + part.len() as int) =~= power);
    assert(is_decimal(dotted));
    let signed = sign + dotted;
    if sign.len() > 0 {
        assert(signed[0] == sign[0]);
        assert(signed.skip(1) =~= dotted);
    } else {
        assert(signed =~= dotted);
        if whole.len() > 0 {
            assert(dotted[0] == whole[0]);
            assert('0' <= whole[0] <= '9');
        } else {
            assert(dotted[0] == '.');
        }
    }
    if whole.len() > 0 {
        let plain = whole + power;
        lemma_run(whole, power);
        assert(plain.skip(whole.len() as int) =~= power);
        assert(is_decimal(plain));
        let signed = sign + plain;
        if sign.len() > 0 {
            assert(signed[0] == sign[0]);
            assert(signed.skip(1) =~= plain);
        } else {
            assert(signed =~= plain);
            assert(plain[0] == whole[0]);
            assert('0' <= whole[0] <= '9');
        }
    }
}

proof fn lemma_run_digits(t: Seq<char>)
    ensures
        run_len(t) <= t.len(),
        forall|i: int| 0 <= i < run_len(t) ==> '0' <= #[trigger] t[i] <= '9',
    decreases t.len(),
{
    if t.len() > 0 && '0' <= t[0] <= '9' {
        lemma_run_digits(t.drop_first());
        assert forall|i: int| 0 <= i < run_len(t) implies '0' <= #[trigger] t[i] <= '9' by {
            if i > 0 {
                assert(t[i] == t.drop_first()[i - 1]);
            }
        }
    }
}

/// A character that can stand in a number.
pub open spec fn stands_in_numbers(c: char) -> bool {
    '0' <= c <= '9' || c == '.' || c == 'e' || c == 'E' || c == '+' || c == '-'
}

proof fn lemma_exponent_characters(t: Seq<char>, i: int)
    requires
        is_exponent(t),
        0 <= i < t.len(),
    ensures
        stands_in_numbers(t[i]),
{
    let rest = t.skip(1);
    let digits = unsigned(rest);
    if i > 0 {
        assert(rest[i - 1] == t[i]);
        if rest[0] == '+' || rest[0] == '-' {
            if i > 1 {
                assert(digits[i - 2] == t[i]);
            }
        } else {
            assert(digits[i - 1] == t[i]);
        }
    }
}

proof fn lemma_decimal_characters(t: Seq<char>, i: int)
    requires
        is_decimal(t),
        0 <= i < t.len(),
    ensures
        stands_in_numbers(t[i]),
{
    lemma_run_digits(t);
    let whole = run_len(t);
    let rest = t.skip(whole as int);
    if i >= whole {
        assert(t[i] == rest[i - whole]);
        if rest[0] == '.' {
            let tail = rest.skip(1);
            lemma_run_digits(tail);
            let part = run_len(tail);
            if i - whole > 0 {
                assert(rest[i - whole] == tail[i - whole - 1]);
                if i - whole - 1 >= part {
                    let power = rest.skip(1 + part as int);
                    assert(power[i - whole - 1 - part] == rest[i - whole]);
                    lemma_exponent_characters(power, i - whole - 1 - part);
                }
            }
        } else {
            lemma_exponent_characters(rest, i - whole);
        }
    }
}

/// Text with anything in it that does not stand in numbers is none, but for what
/// is infinite and what is no number, in letters; and nothing is no number.
pub proof fn other_text_is_no_number(t: Seq<char>, i: int)
    requires
        0 <= i < t.len(),
        !stands_in_numbers(t[i]),
        t[i] != 'n' && t[i] != 'N' && t[i] != 'i' && t[i] != 'I' && t[i] != 'a' && t[i] != 'A' && t[i] != 'f'
            && t[i] != 'F' && t[i] != 't' && t[i] != 'T' && t[i] != 'y' && t[i] != 'Y',
    ensures
        !reads_as_float(t),
        !reads_as_float(Seq::empty()),
        !reads_as_int(Seq::empty()),
{
    let u = unsigned(t);
    let k = if u == t { i } else { i - 1 };
    assert(u[k] == t[i]);
    if is_decimal(u) {
        lemma_decimal_characters(u, k);
    }
    let none = Seq::<char>::empty();
    assert(run_len(none) == 0);
    assert(none.skip(0) =~= none);
}

/// A cell is shown as its column's kind: a number as its number, a truth value as
/// its word, and text as it is; what is not of the kind is not shown.
pub proof fn a_cell_is_shown_as_its_kind(text: Seq<char>, n: int)
    ensures
        typed_cell(ColumnType::Text, Some(text)) == Some(text),
        typed_cell(ColumnType::Bool, Some(text)) == (if text == "true"@ || text == "false"@ {
            Some(text)
        } else {
            None
        }),
        i64::MIN <= n <= i64::MAX ==> typed_cell(ColumnType::Int, Some(signed_text(n))) == Some(signed_text(n)),
        0 <= n <= i64::MAX ==> typed_cell(ColumnType::Int, Some(seq!['+'] + signed_text(n))) == Some(
            signed_text(n),
        ),
        !reads_as_int(text) ==> typed_cell(ColumnType::Int, Some(text)) is None,
        !reads_as_float(text) ==> typed_cell(ColumnType::Float, Some(text)) is None,
        typed_cell(ColumnType::Int, None) is None,
        typed_cell(ColumnType::Float, None) is None,
        typed_cell(ColumnType::Bool, None) is None,
        typed_cell(ColumnType::Text, None) is None,
{
    whole_numbers_are_read(n);
}

/// What a column takes: nothing always, and else what its kind is.
pub proof fn a_column_takes_what_it_holds(t: Seq<char>)
    requires
        t.len() > 0,
    ensures
        fits(ColumnType::Text, t),
        fits(ColumnType::Int, t) <==> reads_as_int(t),
        fits(ColumnType::Float, t) <==> reads_as_float(t),
        fits(ColumnType::Bool, t) <==> t == "true"@ || t == "false"@,
        fits(ColumnType::Int, Seq::empty()),
        fits(ColumnType::Float, Seq::empty()),
        fits(ColumnType::Bool, Seq::empty()),
        fits(ColumnType::Text, Seq::empty()),
{
}

} // verus!
