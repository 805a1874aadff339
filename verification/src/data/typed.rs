//! Values as the type of their column has them.
use vstd::prelude::*;
use polars::prelude::{Column, DataType};
use crate::app::motion::spelled;
use crate::app::session::all_digits;
use crate::app::values::{is_number, reads_as_float, reads_as_int, whole, whole_number};
use crate::data::jsonl::{maybe_text, ColumnType};
use crate::text;
use crate::text::{decimal_text, signed_text};

verus! {

/// The most rows that a column of Polars can have.
pub const MOST_ROWS: usize = 4294967294;

/// Cells that are handed to Polars at a time.
pub const BLOCK: usize = 65536;

/// A text of no more bytes than a cell of Polars holds.
pub open spec fn is_short(text: Seq<char>) -> bool {
    vstd::utf8::encode_utf8(text).len() <= 4294967295
}

/// A cell as Polars can hold it: one that is too long for it is nothing.
pub open spec fn short_cell(cell: Option<Seq<char>>) -> Option<Seq<char>> {
    match cell {
        Some(text) => if is_short(text) {
            Some(text)
        } else {
            None
        },
        None => None,
    }
}

/// Cells that Polars can hold as a column: not too many, and none too long.
pub open spec fn are_held(cells: Seq<Option<String>>) -> bool {
    &&& cells.len() <= MOST_ROWS
    &&& forall|k: int|
        0 <= k < cells.len() ==> (#[trigger] cells[k] matches Some(text) ==> is_short(text@))
}

pub(crate) fn short(text: &str) -> (b: bool)
    ensures
        b == is_short(text@),
{
    text.as_bytes().len() <= 4294967295
}

/// The number that a text reads as, as Polars writes it.
pub uninterp spec fn float_text(text: Seq<char>) -> Option<Seq<char>>;

/// Reads each cell as floating point by Polars' `Column::cast`, and writes it
/// again by a second cast, to text. What is written depends on the cell alone,
/// and nothing comes of one that is no number. More rows than Polars counts, or a
/// cell longer than it counts, make it panic.
#[verifier::external_body]
fn float_texts(cells: Vec<Option<String>>) -> (out: Option<Vec<Option<String>>>)
    requires
        are_held(cells@),
    ensures
        match out {
            Some(out) => out@.len() == cells@.len() && forall|k: int|
                0 <= k < cells@.len() ==> maybe_text(#[trigger] out@[k]) == (match cells@[k] {
                    Some(text) => float_text(text@),
                    None => None,
                }),
            None => false,
        },
{
    let numbers = Column::new("".into(), cells).cast(&DataType::Float64).ok()?;
    let texts = numbers.cast(&DataType::String).ok()?;
    Some(texts.str().ok()?.iter().map(|v| v.map(str::to_string)).collect())
}

/// A value as its column's type has it. A whole number is written without a plus
/// or leading zeros, and one that need not be whole the way such numbers are. A
/// value that will not read as the type is nothing, and so is a number too long
/// for any type.
pub open spec fn typed_cell(kind: ColumnType, cell: Option<Seq<char>>) -> Option<Seq<char>> {
    match cell {
        None => None,
        Some(text) => match kind {
            ColumnType::Int => if reads_as_int(text) {
                Some(signed_text(whole_number(text)))
            } else {
                None
            },
            ColumnType::Float => if reads_as_float(text) && is_short(text) {
                float_text(text)
            } else {
                None
            },
            ColumnType::Bool => if text == "true"@ || text == "false"@ {
                Some(text)
            } else {
                None
            },
            ColumnType::Text => Some(text),
        },
    }
}

/// A column's values, each as the type has it.
pub open spec fn are_typed(
    out: Seq<Option<String>>,
    values: Seq<Option<String>>,
    kind: ColumnType,
) -> bool {
    &&& out.len() == values.len()
    &&& forall|k: int|
        0 <= k < values.len() ==> maybe_text(#[trigger] out[k]) == typed_cell(
            kind,
            maybe_text(values[k]),
        )
}

/// Values `from` up to `to` of a column, as far as Polars can hold them.
pub(crate) fn part(values: &Vec<Option<String>>, from: usize, to: usize) -> (out: Vec<Option<String>>)
    requires
        from <= to <= values@.len(),
    ensures
        out@.len() == to - from,
        forall|k: int|
            0 <= k < to - from ==> maybe_text(#[trigger] out@[k]) == short_cell(
                maybe_text(values@[from + k]),
            ),
{
    let mut out: Vec<Option<String>> = Vec::new();
    let mut i: usize = from;
    while i < to
        invariant
            from <= i <= to <= values@.len(),
            out@.len() == i - from,
            forall|k: int|
                0 <= k < i - from ==> maybe_text(#[trigger] out@[k]) == short_cell(
                    maybe_text(values@[from + k]),
                ),
        decreases to - i,
    {
        let cell: Option<String> = match &values[i] {
            Some(text) => if short(text.as_str()) {
                Some(text.clone())
            } else {
                None
            },
            None => None,
        };
        out.push(cell);
        i += 1;
    }
    out
}

/// The values that are numbers.
fn only_numbers(values: &Vec<Option<String>>, from: usize, to: usize) -> (out: Vec<Option<String>>)
    requires
        from <= to <= values@.len(),
    ensures
        out@.len() == to - from,
        forall|k: int|
            0 <= k < to - from ==> maybe_text(#[trigger] out@[k]) == (match maybe_text(
                values@[from + k],
            ) {
                Some(text) => if reads_as_float(text) && is_short(text) {
                    Some(text)
                } else {
                    None
                },
                None => None,
            }),
{
    let mut out: Vec<Option<String>> = Vec::new();
    let mut i: usize = from;
    while i < to
        invariant
            from <= i <= to <= values@.len(),
            out@.len() == i - from,
            forall|k: int|
                0 <= k < i - from ==> maybe_text(#[trigger] out@[k]) == (match maybe_text(
                    values@[from + k],
                ) {
                    Some(text) => if reads_as_float(text) && is_short(text) {
                        Some(text)
                    } else {
                        None
                    },
                    None => None,
                }),
        decreases to - i,
    {
        let cell: Option<String> = match &values[i] {
            Some(text) => if is_number(text.as_str()) && short(text.as_str()) {
                Some(text.clone())
            } else {
                None
            },
            None => None,
        };
        out.push(cell);
        i += 1;
    }
    out
}

fn floats(values: &Vec<Option<String>>) -> (out: Vec<Option<String>>)
    ensures
        are_typed(out@, values@, ColumnType::Float),
{
    let mut out: Vec<Option<String>> = Vec::new();
    let mut from: usize = 0;
    while from < values.len()
        invariant
            from <= values@.len(),
            out@.len() == from,
            forall|k: int|
                0 <= k < from ==> maybe_text(#[trigger] out@[k]) == typed_cell(
                    ColumnType::Float,
                    maybe_text(values@[k]),
                ),
        decreases values.len() - from,
    {
        let to: usize = if values.len() - from > BLOCK {
            from + BLOCK
        } else {
            values.len()
        };
        let numbers = only_numbers(values, from, to);
        let ghost asked = numbers@;
        assert forall|k: int| 0 <= k < asked.len() implies (#[trigger] asked[k] matches Some(text)
            ==> is_short(text@)) by {
            assert(maybe_text(asked[k]) == (match maybe_text(values@[from + k]) {
                Some(text) => if reads_as_float(text) && is_short(text) {
                    Some(text)
                } else {
                    None
                },
                None => None,
            }));
        }
        match float_texts(numbers) {
            None => {},
            Some(texts) => {
                let mut i: usize = 0;
                let n: usize = texts.len();
                while i < n
                    invariant
                        i <= n == texts@.len() == to - from,
                        from <= to <= values@.len(),
                        asked.len() == n,
                        out@.len() == from + i,
                        forall|k: int|
                            0 <= k < n ==> maybe_text(#[trigger] texts@[k]) == (match asked[k] {
                                Some(text) => float_text(text@),
                                None => None,
                            }),
                        forall|k: int|
                            0 <= k < n ==> maybe_text(#[trigger] asked[k]) == (match maybe_text(
                                values@[from + k],
                            ) {
                                Some(text) => if reads_as_float(text) && is_short(text) {
                                    Some(text)
                                } else {
                                    None
                                },
                                None => None,
                            }),
                        forall|k: int|
                            0 <= k < from + i ==> maybe_text(#[trigger] out@[k]) == typed_cell(
                                ColumnType::Float,
                                maybe_text(values@[k]),
                            ),
                    decreases n - i,
                {
                    assert(maybe_text(texts@[i as int]) == (match asked[i as int] {
                        Some(text) => float_text(text@),
                        None => None,
                    }));
                    assert(maybe_text(asked[i as int]) == (match maybe_text(values@[from + i]) {
                        Some(text) => if reads_as_float(text) && is_short(text) {
                            Some(text)
                        } else {
                            None
                        },
                        None => None,
                    }));
                    let cell: Option<String> = match &texts[i] {
                        Some(text) => Some(text.clone()),
                        None => None,
                    };
                    out.push(cell);
                    i += 1;
                }
            },
        }
        from = to;
    }
    out
}

/// One value as a type other than floating point has it.
fn typed_one(value: &Option<String>, kind: ColumnType) -> (out: Option<String>)
    requires
        kind != ColumnType::Float,
    ensures
        maybe_text(out) == typed_cell(kind, maybe_text(*value)),
{
    match value {
        None => None,
        Some(value) => match kind {
            ColumnType::Int => match whole(value.as_str()) {
                Some(n) => Some(text::signed(n)),
                None => None,
            },
            ColumnType::Bool => if text::same(value.as_str(), "true") || text::same(
                value.as_str(),
                "false",
            ) {
                Some(value.clone())
            } else {
                None
            },
            _ => Some(value.clone()),
        },
    }
}

/// A column's values, each as the type has it.
pub fn typed(values: Vec<Option<String>>, kind: ColumnType) -> (out: Vec<Option<String>>)
    ensures
        are_typed(out@, values@, kind),
{
    match kind {
        ColumnType::Text => values,
        ColumnType::Float => floats(&values),
        _ => {
            let mut out: Vec<Option<String>> = Vec::new();
            let mut i: usize = 0;
            while i < values.len()
                invariant
                    i <= values.len(),
                    kind != ColumnType::Float,
                    out@.len() == i,
                    forall|k: int|
                        0 <= k < i ==> maybe_text(#[trigger] out@[k]) == typed_cell(
                            kind,
                            maybe_text(values@[k]),
                        ),
                decreases values.len() - i,
            {
                out.push(typed_one(&values[i], kind));
                i += 1;
            }
            out
        },
    }
}

/// Digits spell the number that they write out.
proof fn lemma_spelled_decimal(n: nat)
    ensures
        spelled(decimal_text(n)) == n,
        all_digits(decimal_text(n)),
        decimal_text(n).len() > 0,
    decreases n,
{
    let d = decimal_text(n);
    if n < 10 {
        let c = (48 + n) as u8 as char;
        assert(d =~= seq![c]);
        assert(d.drop_last() =~= Seq::empty());
        assert(spelled(d.drop_last()) == 0);
        assert(c as u32 == 48 + n);
    } else {
        lemma_spelled_decimal(n / 10);
        let c = (48 + n % 10) as u8 as char;
        assert(d.drop_last() =~= decimal_text(n / 10));
        assert(d.last() == c);
        assert(c as u32 == 48 + n % 10);
        assert forall|i: int| 0 <= i < d.len() implies '0' <= #[trigger] d[i] <= '9' by {
            if i < d.len() - 1 {
                assert(d[i] == d.drop_last()[i]);
            }
        }
    }
}

/// A number written out is the number that was written.
proof fn lemma_signed(n: int)
    requires
        i64::MIN <= n <= i64::MAX,
    ensures
        reads_as_int(signed_text(n)),
        whole_number(signed_text(n)) == n,
{
    let t = signed_text(n);
    if n < 0 {
        lemma_spelled_decimal((-n) as nat);
        assert(t[0] == '-');
        assert(t.skip(1) =~= decimal_text((-n) as nat));
    } else {
        lemma_spelled_decimal(n as nat);
        assert('0' <= t[0] <= '9');
    }
}

/// A value that is of its column's type stays what it is: text and truth values
/// to the letter, a whole number as the number it is, however it was written.
pub proof fn a_value_of_its_type_stays(text: Seq<char>)
    ensures
        typed_cell(ColumnType::Text, Some(text)) == Some(text),
        text == "true"@ || text == "false"@ ==> typed_cell(ColumnType::Bool, Some(text)) == Some(text),
        reads_as_int(text) ==> {
            let shown = typed_cell(ColumnType::Int, Some(text));
            &&& shown is Some
            &&& reads_as_int(shown->Some_0)
            &&& whole_number(shown->Some_0) == whole_number(text)
            &&& typed_cell(ColumnType::Int, shown) == shown
        },
{
    if reads_as_int(text) {
        lemma_signed(whole_number(text));
    }
}

} // verus!
