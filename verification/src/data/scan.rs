//! Which rows of a table a condition keeps, which ones a pattern is found in,
//! and the order that sorting puts them in.
//!
//! All of it goes by the cells as text, which is how a page of any file comes.
use vstd::prelude::*;
use polars::prelude::{ChunkCompareIneq, Column, DataType, SortOptions};
use crate::data::documents::is_column;
use crate::data::jsonl::{maybe_text, page_lines, ColumnType};
use crate::data::natural;
use crate::data::natural::{before, key_text, uneven};
use crate::data::ordered::ascending;
use crate::data::rows::{asked, Asked, Predicate, Test};
use crate::data::span::{
    column_text, columns_text, is_even, is_table, is_window, kind_at, path_at, window_of, Records,
};
use crate::data::typed::{are_held, is_short, part, short, short_cell, BLOCK, MOST_ROWS};
use crate::search;
use crate::search::{regex_accepts, regex_finds};
use crate::text;
use crate::text::texts;
use crate::view::{all_columns, Op, Value};

verus! {

/// Whether the number that a text reads as is below another; nothing where one
/// of the two is no number.
pub uninterp spec fn number_below(text: Seq<char>, number: Seq<char>) -> Option<bool>;

/// Whether the number that a text reads as is above another; nothing where one
/// of the two is no number.
pub uninterp spec fn number_above(text: Seq<char>, number: Seq<char>) -> Option<bool>;

/// What a comparison says of each cell.
pub open spec fn answers(
    out: Seq<Option<bool>>,
    cells: Seq<Option<String>>,
    says: spec_fn(Seq<char>) -> Option<bool>,
) -> bool {
    &&& out.len() == cells.len()
    &&& forall|k: int|
        0 <= k < cells.len() ==> #[trigger] out[k] == (match cells[k] {
            Some(text) => says(text@),
            None => None,
        })
}

/// Compares each cell with a number by Polars' `Column::lt`, both sides read as
/// floating point by `Column::cast`, which makes nothing of what is no number. A
/// comparison with nothing comes to nothing. The order is total, so of two
/// numbers neither of which is below the other each is equal to the other. More
/// rows than Polars counts, or a text longer than it counts, make it panic.
#[verifier::external_body]
fn cells_below(cells: Vec<Option<String>>, number: &str) -> (out: Option<Vec<Option<bool>>>)
    requires
        are_held(cells@),
        is_short(number@),
    ensures
        out matches Some(out) && answers(out@, cells@, |text: Seq<char>| number_below(text, number@)),
{
    let cells = Column::new("".into(), cells).cast(&DataType::Float64).ok()?;
    let number = Column::new("".into(), [number]).cast(&DataType::Float64).ok()?;
    Some(cells.lt(&number).ok()?.iter().collect())
}

/// Compares each cell with a number by Polars' `Column::gt`, as
/// [`cells_below`] does by `Column::lt`.
#[verifier::external_body]
fn cells_above(cells: Vec<Option<String>>, number: &str) -> (out: Option<Vec<Option<bool>>>)
    requires
        are_held(cells@),
        is_short(number@),
    ensures
        out matches Some(out) && answers(out@, cells@, |text: Seq<char>| number_above(text, number@)),
{
    let cells = Column::new("".into(), cells).cast(&DataType::Float64).ok()?;
    let number = Column::new("".into(), [number]).cast(&DataType::Float64).ok()?;
    Some(cells.gt(&number).ok()?.iter().collect())
}

/// The numbers under `height`, each once.
pub open spec fn is_permutation(order: Seq<usize>, height: nat) -> bool {
    &&& order.len() == height
    &&& order.no_duplicates()
    &&& forall|k: int| 0 <= k < order.len() ==> #[trigger] order[k] < height
    &&& forall|row: usize| row < height ==> #[trigger] order.contains(row)
}

/// Whether the number that a text reads as comes before another, both read as
/// numbers of that kind; nothing where one of the two is no such number.
pub uninterp spec fn sorts_below(kind: ColumnType, text: Seq<char>, other: Seq<char>) -> Option<bool>;

/// How two cells of a column compare when it is sorted: whether one sorts before
/// another, or nothing where one of the two has no place in the order.
pub type Compares = spec_fn(Seq<char>, Seq<char>) -> Option<bool>;

/// Whether one text sorts before another in a column. Text goes character by
/// character, and so do truth values.
pub open spec fn below(kind: ColumnType, text: Seq<char>, other: Seq<char>) -> Option<bool> {
    if kind == ColumnType::Text || kind == ColumnType::Bool {
        Some(before(text, other))
    } else {
        sorts_below(kind, text, other)
    }
}

/// A cell that has no place in the order: it holds nothing, or no number where
/// numbers are sorted.
pub open spec fn has_no_place(compares: Compares, cell: Option<Seq<char>>) -> bool {
    match cell {
        None => true,
        Some(text) => compares(text, text) is None,
    }
}

/// A cell comes before another. One that has no place in the order comes before
/// all that have, whichever way the rest goes.
pub open spec fn goes_first(
    compares: Compares,
    descending: bool,
    cell: Option<Seq<char>>,
    other: Option<Seq<char>>,
) -> bool {
    !has_no_place(compares, other) && (has_no_place(compares, cell) || if descending {
        compares(other->Some_0, cell->Some_0) == Some(true)
    } else {
        compares(cell->Some_0, other->Some_0) == Some(true)
    })
}

/// Neither of two cells comes before the other.
pub open spec fn ties(compares: Compares, cell: Option<Seq<char>>, other: Option<Seq<char>>) -> bool {
    &&& has_no_place(compares, cell) == has_no_place(compares, other)
    &&& !has_no_place(compares, cell) ==> compares(cell->Some_0, other->Some_0) == Some(false)
        && compares(other->Some_0, cell->Some_0) == Some(false)
}

/// Cells are sorted by this order of them, and those that tie stay as they were.
pub open spec fn is_order(
    order: Seq<usize>,
    cells: Seq<Option<Seq<char>>>,
    compares: Compares,
    descending: bool,
) -> bool {
    &&& is_permutation(order, cells.len())
    &&& forall|i: int, j: int|
        0 <= i < j < order.len() ==> goes_first(
            compares,
            descending,
            cells[#[trigger] order[i] as int],
            cells[#[trigger] order[j] as int],
        ) || ties(compares, cells[order[i] as int], cells[order[j] as int]) && order[i] < order[j]
}

/// The order that Polars' `Column::arg_sort` gives a column, which is text or is
/// read as numbers by `Column::cast`. What cannot be read is nothing, and nothing
/// comes first whichever way the rest is sorted. Text goes by its bytes, which is
/// the order of its characters; numbers by the total order of their type, which
/// looks at no more than the two. The sort is stable. More rows than Polars
/// counts, or a cell longer than it counts, make it panic.
#[verifier::external_body]
fn order_of(cells: Vec<Option<String>>, kind: ColumnType, descending: bool) -> (out: Option<Vec<usize>>)
    requires
        are_held(cells@),
    ensures
        match out {
            Some(order) => is_order(
                order@,
                column_text(cells@),
                |text: Seq<char>, other: Seq<char>|
                    if kind == ColumnType::Text || kind == ColumnType::Bool {
                        Some(before(text, other))
                    } else {
                        sorts_below(kind, text, other)
                    },
                descending,
            ),
            None => false,
        },
{
    let dtype = match kind {
        ColumnType::Text | ColumnType::Bool => DataType::String,
        ColumnType::Float => DataType::Float64,
        ColumnType::Int => DataType::Int64,
    };
    let cells = Column::new("".into(), cells).cast(&dtype).ok()?;
    let sort = SortOptions::new().with_order_descending(descending).with_maintain_order(true);
    Some(cells.arg_sort(sort).iter().flatten().map(|row| row as usize).collect())
}

/// What an operator makes of an order: whether the cell is below the value, and
/// whether it is above.
pub open spec fn by_order(op: Op, below: bool, above: bool) -> bool {
    match op {
        Op::Eq => !below && !above,
        Op::Ne => below || above,
        Op::Lt => below,
        Op::Le => !above,
        Op::Gt => above,
        Op::Ge => !below,
        Op::Matches | Op::NotMatches => false,
    }
}

fn ordered_so(op: Op, below: bool, above: bool) -> (b: bool)
    ensures
        b == by_order(op, below, above),
{
    match op {
        Op::Eq => !below && !above,
        Op::Ne => below || above,
        Op::Lt => below,
        Op::Le => !above,
        Op::Gt => above,
        Op::Ge => !below,
        Op::Matches | Op::NotMatches => false,
    }
}

/// The truth value that a text is.
pub open spec fn truth(text: Seq<char>) -> Option<bool> {
    if text == "true"@ {
        Some(true)
    } else if text == "false"@ {
        Some(false)
    } else {
        None
    }
}

/// Whether a cell meets a condition. One with nothing in it meets none but the
/// one that asks for that. Numbers compare as numbers, as far as they are not too
/// long to be read, `false` comes before `true`, and text compares character by
/// character.
pub open spec fn meets(asks: Asked, cell: Option<Seq<char>>) -> bool {
    match cell {
        None => asks is Null,
        Some(text) => match asks {
            Asked::Null => false,
            Asked::NotNull => true,
            Asked::Matches(pattern) => regex_finds(pattern, text),
            Asked::NotMatches(pattern) => !regex_finds(pattern, text),
            Asked::Number(op, number) => is_short(text) && is_short(number) && match (
                number_below(text, number),
                number_above(text, number),
            ) {
                (Some(below), Some(above)) => by_order(op, below, above),
                _ => false,
            },
            Asked::Bool(op, value) => match truth(text) {
                Some(holds) => by_order(op, !holds && value, holds && !value),
                None => false,
            },
            Asked::Text(op, value) => by_order(op, before(text, value), before(value, text)),
            Asked::Itself => text == "true"@,
            Asked::Never => false,
        },
    }
}

/// The condition can be asked: a regular expression in it compiles.
pub open spec fn can_ask(asks: Asked) -> bool {
    match asks {
        Asked::Matches(pattern) | Asked::NotMatches(pattern) => regex_accepts(pattern),
        _ => true,
    }
}

/// The place of the first column of that name.
pub open spec fn column_at(names: Seq<Seq<char>>, name: Seq<char>) -> Option<int>
    decreases names.len(),
{
    if names.len() == 0 {
        None
    } else {
        match column_at(names.drop_last(), name) {
            Some(at) => Some(at),
            None => if names.last() == name {
                Some(names.len() - 1)
            } else {
                None
            },
        }
    }
}

/// How many rows a table has.
pub open spec fn height_of(columns: Seq<Vec<Option<String>>>) -> nat {
    if columns.len() == 0 {
        0
    } else {
        columns[0]@.len()
    }
}

/// Columns and their names, all of one height.
pub open spec fn is_named_table(columns: Seq<Vec<Option<String>>>, names: Seq<String>) -> bool {
    columns.len() == names.len() && is_even(columns_text(columns))
}

/// The cell of a row under a name.
pub open spec fn cell_at(
    columns: Seq<Vec<Option<String>>>,
    names: Seq<String>,
    name: Seq<char>,
    row: int,
) -> Option<Seq<char>> {
    match column_at(texts(names), name) {
        Some(at) => maybe_text(columns[at]@[row]),
        None => None,
    }
}

/// The row meets every one of the conditions.
pub open spec fn keeps(
    columns: Seq<Vec<Option<String>>>,
    names: Seq<String>,
    tests: Seq<Predicate>,
    row: int,
) -> bool {
    forall|i: int|
        0 <= i < tests.len() ==> meets(
            asked(#[trigger] tests[i].test),
            cell_at(columns, names, tests[i].column@, row),
        )
}

/// Every condition can be asked of these columns.
pub open spec fn can_ask_all(names: Seq<String>, tests: Seq<Predicate>) -> bool {
    forall|i: int|
        0 <= i < tests.len() ==> can_ask(asked(#[trigger] tests[i].test)) && column_at(
            texts(names),
            tests[i].column@,
        ) is Some
}

/// These are, in order, the rows that are wanted, each counted from `start`.
pub open spec fn are_rows(
    rows: Seq<usize>,
    start: usize,
    height: nat,
    wanted: spec_fn(int) -> bool,
) -> bool {
    &&& ascending(rows)
    &&& forall|row: usize|
        #[trigger] rows.contains(row) <==> start <= row < start + height && wanted(row - start)
}

fn place(names: &[String], name: &str) -> (at: Option<usize>)
    ensures
        match at {
            Some(at) => column_at(texts(names@), name@) == Some(at as int) && at < names@.len(),
            None => column_at(texts(names@), name@) is None,
        },
{
    let ghost all = texts(names@);
    let mut i: usize = 0;
    assert(all.take(0) =~= Seq::empty());
    while i < names.len()
        invariant
            i <= names.len(),
            all == texts(names@),
            column_at(all.take(i as int), name@) is None,
        decreases names.len() - i,
    {
        assert(all.take(i + 1).drop_last() =~= all.take(i as int));
        if text::same(names[i].as_str(), name) {
            proof {
                lemma_column_stays(all, i + 1, name@);
            }
            return Some(i);
        }
        i += 1;
    }
    assert(all.take(i as int) =~= all);
    None
}

/// Columns further on do not move one that was found.
proof fn lemma_column_stays(names: Seq<Seq<char>>, upto: int, name: Seq<char>)
    requires
        0 <= upto <= names.len(),
        column_at(names.take(upto), name) is Some,
    ensures
        column_at(names, name) == column_at(names.take(upto), name),
    decreases names.len() - upto,
{
    if upto == names.len() {
        assert(names.take(upto) =~= names);
    } else {
        assert(names.take(upto + 1).drop_last() =~= names.take(upto));
        lemma_column_stays(names, upto + 1, name);
    }
}

/// Whether one text comes before another, character by character.
fn precedes(a: &Vec<char>, b: &Vec<char>) -> (r: bool)
    ensures
        r == before(a@, b@),
{
    let mut i: usize = 0;
    assert(a@.skip(0) =~= a@);
    assert(b@.skip(0) =~= b@);
    while i < a.len() && i < b.len() && a[i] == b[i]
        invariant
            i <= a.len(),
            i <= b.len(),
            before(a@, b@) == before(a@.skip(i as int), b@.skip(i as int)),
        decreases a.len() - i,
    {
        assert(a@.skip(i as int).drop_first() =~= a@.skip(i + 1));
        assert(b@.skip(i as int).drop_first() =~= b@.skip(i + 1));
        i += 1;
    }
    if i >= b.len() {
        false
    } else if i >= a.len() {
        true
    } else {
        a[i] < b[i]
    }
}

/// What a condition makes of a column.
spec fn is_met(met: Seq<bool>, cells: Seq<Option<String>>, asks: Asked) -> bool {
    &&& met.len() == cells.len()
    &&& forall|k: int| 0 <= k < cells.len() ==> #[trigger] met[k] == meets(asks, maybe_text(cells[k]))
}

fn met_by_pattern(cells: &Vec<Option<String>>, pattern: &str, wanted: bool) -> (met: Option<Vec<bool>>)
    ensures
        match met {
            Some(met) => regex_accepts(pattern@) && is_met(
                met@,
                cells@,
                if wanted {
                    Asked::Matches(pattern@)
                } else {
                    Asked::NotMatches(pattern@)
                },
            ),
            None => !regex_accepts(pattern@),
        },
{
    match search::hits(pattern, cells) {
        None => None,
        Some(found) => {
            let ghost asks = if wanted {
                Asked::Matches(pattern@)
            } else {
                Asked::NotMatches(pattern@)
            };
            let mut met: Vec<bool> = Vec::new();
            let mut k: usize = 0;
            while k < found.len()
                invariant
                    k <= found.len(),
                    found@.len() == cells@.len(),
                    met@.len() == k,
                    asks == if wanted {
                        Asked::Matches(pattern@)
                    } else {
                        Asked::NotMatches(pattern@)
                    },
                    forall|j: int|
                        0 <= j < cells@.len() ==> #[trigger] found@[j] == (match cells@[j] {
                            Some(text) => Some(regex_finds(pattern@, text@)),
                            None => None,
                        }),
                    forall|j: int| 0 <= j < k ==> #[trigger] met@[j] == meets(asks, maybe_text(cells@[j])),
                decreases found.len() - k,
            {
                let ghost cell = cells@[k as int];
                assert(found@[k as int] == (match cell {
                    Some(text) => Some(regex_finds(pattern@, text@)),
                    None => None::<bool>,
                }));
                met.push(
                    match found[k] {
                        Some(found) => found == wanted,
                        None => false,
                    },
                );
                k += 1;
            }
            Some(met)
        },
    }
}

/// Which of a block of cells meet a condition on numbers.
fn block_met(cells: Vec<Option<String>>, again: Vec<Option<String>>, op: Op, number: &str) -> (met: Vec<
    bool,
>)
    requires
        are_held(cells@),
        is_short(number@),
        again@.len() == cells@.len(),
        forall|k: int|
            0 <= k < cells@.len() ==> maybe_text(#[trigger] again@[k]) == maybe_text(cells@[k]),
    ensures
        is_met(met@, cells@, Asked::Number(op, number@)),
{
    assert forall|k: int| 0 <= k < again@.len() implies (#[trigger] again@[k] matches Some(text)
        ==> is_short(text@)) by {
        assert(maybe_text(again@[k]) == maybe_text(cells@[k]));
        assert(cells@[k] matches Some(text) ==> is_short(text@));
    }
    let n: usize = cells.len();
    let ghost (a, b) = (cells@, again@);
    let mut met: Vec<bool> = Vec::new();
    match (cells_below(cells, number), cells_above(again, number)) {
        (Some(below), Some(above)) => {
            let mut k: usize = 0;
            while k < n
                invariant
                    k <= n,
                    met@.len() == k,
                    a.len() == n == b.len(),
                    are_held(a),
                    is_short(number@),
                    forall|j: int| 0 <= j < n ==> maybe_text(#[trigger] b[j]) == maybe_text(a[j]),
                    answers(below@, a, |text: Seq<char>| number_below(text, number@)),
                    answers(above@, b, |text: Seq<char>| number_above(text, number@)),
                    forall|j: int|
                        0 <= j < k ==> #[trigger] met@[j] == meets(
                            Asked::Number(op, number@),
                            maybe_text(a[j]),
                        ),
                decreases n - k,
            {
                assert(maybe_text(b[k as int]) == maybe_text(a[k as int]));
                assert(a[k as int] matches Some(text) ==> is_short(text@));
                met.push(
                    match (below[k], above[k]) {
                        (Some(below), Some(above)) => ordered_so(op, below, above),
                        _ => false,
                    },
                );
                k += 1;
            }
        },
        _ => {},
    }
    met
}

/// Which cells meet a condition on numbers, a block of them at a time.
fn met_by_number(cells: &Vec<Option<String>>, op: Op, number: &str) -> (met: Vec<bool>)
    ensures
        is_met(met@, cells@, Asked::Number(op, number@)),
{
    let ghost asks = Asked::Number(op, number@);
    if !short(number) {
        return none_of(cells.len());
    }
    let mut met: Vec<bool> = Vec::new();
    let mut from: usize = 0;
    while from < cells.len()
        invariant
            from <= cells@.len(),
            is_short(number@),
            asks == Asked::Number(op, number@),
            met@.len() == from,
            forall|j: int| 0 <= j < from ==> #[trigger] met@[j] == meets(asks, maybe_text(cells@[j])),
        decreases cells.len() - from,
    {
        let to: usize = if cells.len() - from > BLOCK {
            from + BLOCK
        } else {
            cells.len()
        };
        let block = part(cells, from, to);
        let again = part(cells, from, to);
        let ghost (before, asked_of) = (met@, block@);
        assert forall|k: int| 0 <= k < asked_of.len() implies (#[trigger] asked_of[k] matches Some(text)
            ==> is_short(text@)) by {
            assert(maybe_text(asked_of[k]) == short_cell(maybe_text(cells@[from + k])));
        }
        assert forall|k: int| 0 <= k < asked_of.len() implies maybe_text(#[trigger] again@[k])
            == maybe_text(asked_of[k]) by {
            assert(maybe_text(asked_of[k]) == short_cell(maybe_text(cells@[from + k])));
        }
        let mut here = block_met(block, again, op, number);
        let ghost found = here@;
        met.append(&mut here);
        assert(met@ == before + found);
        assert forall|j: int| 0 <= j < to implies #[trigger] met@[j] == meets(
            asks,
            maybe_text(cells@[j]),
        ) by {
            if j >= from {
                assert(met@[j] == found[j - from]);
                assert(maybe_text(asked_of[j - from]) == short_cell(
                    maybe_text(cells@[from + (j - from)]),
                ));
            } else {
                assert(met@[j] == before[j]);
            }
        }
        from = to;
    }
    met
}

/// A condition that asks nothing of what lies outside the cell.
spec fn is_plain(asks: Asked) -> bool {
    !(asks is Matches || asks is NotMatches || asks is Number)
}

fn meets_plainly(cell: &Option<String>, test: &Test) -> (r: bool)
    requires
        is_plain(asked(*test)),
    ensures
        r == meets(asked(*test), maybe_text(*cell)),
{
    match cell {
        None => match test {
            Test::Null => true,
            _ => false,
        },
        Some(cell) => match test {
            Test::NotNull => true,
            Test::Compare(op, Value::Bool(value)) => if text::same(cell.as_str(), "true") {
                ordered_so(*op, false, !*value)
            } else if text::same(cell.as_str(), "false") {
                ordered_so(*op, *value, false)
            } else {
                false
            },
            Test::Compare(op, Value::Text(value)) => {
                let a = text::chars(cell.as_str());
                let b = text::chars(value.as_str());
                ordered_so(*op, precedes(&a, &b), precedes(&b, &a))
            },
            Test::Itself => text::same(cell.as_str(), "true"),
            _ => false,
        },
    }
}

fn met_plainly(cells: &Vec<Option<String>>, test: &Test) -> (met: Vec<bool>)
    requires
        is_plain(asked(*test)),
    ensures
        is_met(met@, cells@, asked(*test)),
{
    let mut met: Vec<bool> = Vec::new();
    let mut k: usize = 0;
    while k < cells.len()
        invariant
            k <= cells.len(),
            is_plain(asked(*test)),
            met@.len() == k,
            forall|j: int|
                0 <= j < k ==> #[trigger] met@[j] == meets(asked(*test), maybe_text(cells@[j])),
        decreases cells.len() - k,
    {
        met.push(meets_plainly(&cells[k], test));
        k += 1;
    }
    met
}

/// Which cells of a column meet a condition.
fn met(cells: &Vec<Option<String>>, test: &Test) -> (met: Option<Vec<bool>>)
    ensures
        match met {
            Some(met) => can_ask(asked(*test)) && is_met(met@, cells@, asked(*test)),
            None => !can_ask(asked(*test)),
        },
{
    match test {
        Test::Matches(pattern) => met_by_pattern(cells, pattern.as_str(), true),
        Test::NotMatches(pattern) => met_by_pattern(cells, pattern.as_str(), false),
        Test::Compare(op, Value::Number(number)) => Some(met_by_number(cells, *op, number.as_str())),
        _ => Some(met_plainly(cells, test)),
    }
}

/// The rows marked, counted from `start`.
fn marked(marks: &Vec<bool>, start: usize) -> (rows: Vec<usize>)
    requires
        start + marks@.len() <= usize::MAX,
    ensures
        are_rows(rows@, start, marks@.len(), |row: int| marks@[row]),
{
    let mut rows: Vec<usize> = Vec::new();
    let ghost wanted = |row: int| marks@[row];
    let mut k: usize = 0;
    while k < marks.len()
        invariant
            k <= marks.len(),
            start + marks@.len() <= usize::MAX,
            wanted == (|row: int| marks@[row]),
            are_rows(rows@, start, k as nat, wanted),
            forall|i: int| 0 <= i < rows@.len() ==> #[trigger] rows@[i] < start + k,
        decreases marks.len() - k,
    {
        let ghost before = rows@;
        if marks[k] {
            rows.push(start + k);
            proof {
                assert forall|row: usize| #[trigger] rows@.contains(row) <==> start <= row < start + k
                    + 1 && wanted(row - start) by {
                    assert(rows@[before.len() as int] == start + k);
                    if before.contains(row) {
                        let i = choose|i: int| 0 <= i < before.len() && before[i] == row;
                        assert(rows@[i] == row);
                    }
                    if rows@.contains(row) && row != start + k {
                        let i = choose|i: int| 0 <= i < rows@.len() && rows@[i] == row;
                        assert(before[i] == row);
                    }
                }
            }
        } else {
            assert forall|row: usize| #[trigger] rows@.contains(row) <==> start <= row < start + k + 1
                && wanted(row - start) by {
                assert(before.contains(row) <==> start <= row < start + k && wanted(row - start));
                assert(!wanted(k as int));
            }
        }
        k += 1;
    }
    rows
}

/// Rows wanted for one reason are those wanted for another that comes to the
/// same.
proof fn lemma_same_rows(
    rows: Seq<usize>,
    start: usize,
    height: nat,
    wanted: spec_fn(int) -> bool,
    other: spec_fn(int) -> bool,
)
    requires
        are_rows(rows, start, height, wanted),
        forall|row: int| 0 <= row < height ==> #[trigger] wanted(row) == other(row),
    ensures
        are_rows(rows, start, height, other),
{
    assert forall|row: usize| #[trigger] rows.contains(row) <==> start <= row < start + height && other(
        row - start,
    ) by {
        if start <= row < start + height {
            assert(wanted(row - start) == other(row - start));
        }
    }
}

/// A table's columns are as high as the first.
proof fn lemma_height(columns: Seq<Vec<Option<String>>>, at: int)
    requires
        is_even(columns_text(columns)),
        0 <= at < columns.len(),
    ensures
        columns[at]@.len() == height_of(columns),
{
    let all = columns_text(columns);
    assert(all[at].len() == all[0].len());
    assert(all[at].len() == columns[at]@.len());
    assert(all[0].len() == columns[0]@.len());
}

fn height(columns: &Vec<Vec<Option<String>>>) -> (n: usize)
    ensures
        n == height_of(columns@),
{
    if columns.len() == 0 {
        0
    } else {
        columns[0].len()
    }
}

fn all_of(n: usize) -> (marks: Vec<bool>)
    ensures
        marks@.len() == n,
        forall|k: int| 0 <= k < n ==> #[trigger] marks@[k],
{
    let mut marks: Vec<bool> = Vec::new();
    let mut k: usize = 0;
    while k < n
        invariant
            k <= n,
            marks@.len() == k,
            forall|j: int| 0 <= j < k ==> #[trigger] marks@[j],
        decreases n - k,
    {
        marks.push(true);
        k += 1;
    }
    marks
}

/// Strike the marks that another list does not have.
fn strike(marks: &mut Vec<bool>, other: &Vec<bool>)
    requires
        old(marks)@.len() == other@.len(),
    ensures
        final(marks)@.len() == other@.len(),
        forall|k: int|
            0 <= k < other@.len() ==> #[trigger] final(marks)@[k] == (old(marks)@[k] && other@[k]),
{
    let ghost was = marks@;
    let mut k: usize = 0;
    while k < other.len()
        invariant
            k <= other.len(),
            was.len() == other@.len(),
            marks@.len() == other@.len(),
            forall|j: int| 0 <= j < k ==> #[trigger] marks@[j] == (was[j] && other@[j]),
            forall|j: int| k <= j < other@.len() ==> #[trigger] marks@[j] == was[j],
        decreases other.len() - k,
    {
        let both: bool = marks[k] && other[k];
        marks[k] = both;
        k += 1;
    }
}

/// Which rows of a table meet every condition.
fn all_met(columns: &Vec<Vec<Option<String>>>, names: &[String], tests: &[Predicate]) -> (out: Option<
    Vec<bool>,
>)
    requires
        is_named_table(columns@, names@),
    ensures
        match out {
            Some(marks) => can_ask_all(names@, tests@) && marks@.len() == height_of(columns@) && forall|
                row: int,
            |
                0 <= row < marks@.len() ==> #[trigger] marks@[row] == keeps(
                    columns@,
                    names@,
                    tests@,
                    row,
                ),
            None => !can_ask_all(names@, tests@),
        },
{
    let n = height(columns);
    let mut marks = all_of(n);
    let mut i: usize = 0;
    while i < tests.len()
        invariant
            i <= tests.len(),
            n == height_of(columns@),
            is_named_table(columns@, names@),
            can_ask_all(names@, tests@.take(i as int)),
            marks@.len() == n,
            forall|row: int|
                0 <= row < n ==> #[trigger] marks@[row] == keeps(
                    columns@,
                    names@,
                    tests@.take(i as int),
                    row,
                ),
        decreases tests.len() - i,
    {
        let test = &tests[i];
        let ghost upto = tests@.take(i as int);
        let ghost next = tests@.take(i + 1);
        let at = match place(names, test.column.as_str()) {
            Some(at) => at,
            None => {
                assert(column_at(texts(names@), tests@[i as int].column@) is None);
                return None;
            },
        };
        proof {
            lemma_height(columns@, at as int);
        }
        let here = match met(&columns[at], &test.test) {
            Some(here) => here,
            None => {
                assert(!can_ask(asked(tests@[i as int].test)));
                return None;
            },
        };
        let ghost was = marks@;
        strike(&mut marks, &here);
        proof {
            assert forall|row: int| 0 <= row < n implies #[trigger] marks@[row] == keeps(
                columns@,
                names@,
                next,
                row,
            ) by {
                assert(was[row] == keeps(columns@, names@, upto, row));
                let cell = cell_at(columns@, names@, test.column@, row);
                assert(here@[row] == meets(asked(test.test), cell));
                assert(next[i as int].test == test.test);
                if keeps(columns@, names@, next, row) {
                    assert forall|j: int| 0 <= j < upto.len() implies meets(
                        asked(#[trigger] upto[j].test),
                        cell_at(columns@, names@, upto[j].column@, row),
                    ) by {
                        assert(next[j].test == upto[j].test);
                    }
                }
                if was[row] && here@[row] {
                    assert forall|j: int| 0 <= j < next.len() implies meets(
                        asked(#[trigger] next[j].test),
                        cell_at(columns@, names@, next[j].column@, row),
                    ) by {
                        if j < i {
                            assert(next[j].test == upto[j].test);
                        }
                    }
                }
            }
            assert forall|j: int| 0 <= j < next.len() implies can_ask(asked(#[trigger] next[j].test))
                && column_at(texts(names@), next[j].column@) is Some by {
                if j < i {
                    assert(next[j].test == upto[j].test);
                }
            }
        }
        i += 1;
    }
    assert(tests@.take(i as int) =~= tests@);
    Some(marks)
}

/// The rows that meet every condition, in order, counted from `start`.
///
/// `None` where a condition names no column of the table, or is a pattern that
/// does not compile.
pub fn kept(
    columns: &Vec<Vec<Option<String>>>,
    names: &[String],
    tests: &[Predicate],
    start: usize,
) -> (out: Option<Vec<usize>>)
    requires
        is_named_table(columns@, names@),
        start + height_of(columns@) <= usize::MAX,
    ensures
        match out {
            Some(rows) => can_ask_all(names@, tests@) && are_rows(
                rows@,
                start,
                height_of(columns@),
                |row: int| keeps(columns@, names@, tests@, row),
            ),
            None => !can_ask_all(names@, tests@),
        },
{
    match all_met(columns, names, tests) {
        None => None,
        Some(marks) => {
            let rows = marked(&marks, start);
            proof {
                lemma_same_rows(
                    rows@,
                    start,
                    height_of(columns@),
                    |row: int| marks@[row],
                    |row: int| keeps(columns@, names@, tests@, row),
                );
            }
            Some(rows)
        },
    }
}

/// A column is looked through: the one of that name, or any where none is named.
pub open spec fn is_searched(names: Seq<String>, column: Option<Seq<char>>, at: int) -> bool {
    &&& 0 <= at < names.len()
    &&& column matches Some(name) ==> column_at(texts(names), name) == Some(at)
}

/// The pattern is found in a cell of the row.
pub open spec fn finds(
    columns: Seq<Vec<Option<String>>>,
    names: Seq<String>,
    column: Option<Seq<char>>,
    pattern: Seq<char>,
    row: int,
) -> bool {
    exists|at: int| #[trigger]
        is_searched(names, column, at) && meets(
            Asked::Matches(pattern),
            maybe_text(columns[at]@[row]),
        )
}

/// What may be `None` as text.
pub open spec fn named(column: Option<&str>) -> Option<Seq<char>> {
    match column {
        Some(name) => Some(name@),
        None => None,
    }
}

/// Whether a search can be made: the pattern compiles, and there is the column
/// that is named.
pub open spec fn can_search(names: Seq<String>, column: Option<Seq<char>>, pattern: Seq<char>) -> bool {
    &&& regex_accepts(pattern)
    &&& column matches Some(name) ==> column_at(texts(names), name) is Some
}

/// Add the marks of another list.
fn also(marks: &mut Vec<bool>, other: &Vec<bool>)
    requires
        old(marks)@.len() == other@.len(),
    ensures
        final(marks)@.len() == other@.len(),
        forall|k: int|
            0 <= k < other@.len() ==> #[trigger] final(marks)@[k] == (old(marks)@[k] || other@[k]),
{
    let ghost was = marks@;
    let mut k: usize = 0;
    while k < other.len()
        invariant
            k <= other.len(),
            was.len() == other@.len(),
            marks@.len() == other@.len(),
            forall|j: int| 0 <= j < k ==> #[trigger] marks@[j] == (was[j] || other@[j]),
            forall|j: int| k <= j < other@.len() ==> #[trigger] marks@[j] == was[j],
        decreases other.len() - k,
    {
        let either: bool = marks[k] || other[k];
        marks[k] = either;
        k += 1;
    }
}

fn none_of(n: usize) -> (marks: Vec<bool>)
    ensures
        marks@.len() == n,
        forall|k: int| 0 <= k < n ==> !#[trigger] marks@[k],
{
    let mut marks: Vec<bool> = Vec::new();
    let mut k: usize = 0;
    while k < n
        invariant
            k <= n,
            marks@.len() == k,
            forall|j: int| 0 <= j < k ==> !#[trigger] marks@[j],
        decreases n - k,
    {
        marks.push(false);
        k += 1;
    }
    marks
}

/// Which rows have the pattern in one of the columns `from..to`.
fn found_in(columns: &Vec<Vec<Option<String>>>, from: usize, to: usize, pattern: &str) -> (marks: Vec<bool>)
    requires
        is_even(columns_text(columns@)),
        from <= to <= columns@.len(),
        regex_accepts(pattern@),
    ensures
        marks@.len() == height_of(columns@),
        forall|row: int|
            0 <= row < marks@.len() ==> #[trigger] marks@[row] == exists|at: int|
                from <= at < to && meets(
                    Asked::Matches(pattern@),
                    maybe_text((#[trigger] columns@[at])@[row]),
                ),
{
    let n = height(columns);
    let mut marks = none_of(n);
    let mut c: usize = from;
    while c < to
        invariant
            from <= c <= to <= columns@.len(),
            n == height_of(columns@),
            is_even(columns_text(columns@)),
            regex_accepts(pattern@),
            marks@.len() == n,
            forall|row: int|
                0 <= row < n ==> #[trigger] marks@[row] == exists|at: int|
                    from <= at < c && meets(
                        Asked::Matches(pattern@),
                        maybe_text((#[trigger] columns@[at])@[row]),
                    ),
        decreases to - c,
    {
        proof {
            lemma_height(columns@, c as int);
        }
        let ghost was = marks@;
        match met_by_pattern(&columns[c], pattern, true) {
            Some(here) => {
                also(&mut marks, &here);
                proof {
                    let asks = Asked::Matches(pattern@);
                    assert forall|row: int| 0 <= row < n implies #[trigger] marks@[row] == exists|at: int|
                        from <= at < c + 1 && meets(asks, maybe_text((#[trigger] columns@[at])@[row])) by {
                        assert(here@[row] == meets(asks, maybe_text(columns@[c as int]@[row])));
                        assert(was[row] == exists|at: int|
                            from <= at < c && meets(asks, maybe_text((#[trigger] columns@[at])@[row])));
                        if was[row] {
                            let at = choose|at: int|
                                from <= at < c && meets(
                                    asks,
                                    maybe_text((#[trigger] columns@[at])@[row]),
                                );
                            assert(from <= at < c + 1);
                        }
                    }
                }
            },
            None => {},
        }
        c += 1;
    }
    marks
}

/// The rows that a pattern is found in, in one column or in any, in order,
/// counted from `start`. A cell with nothing in it holds no pattern.
///
/// `None` where the pattern does not compile, or the column is not there.
pub fn matching(
    columns: &Vec<Vec<Option<String>>>,
    names: &[String],
    column: Option<&str>,
    pattern: &str,
    start: usize,
) -> (out: Option<Vec<usize>>)
    requires
        is_named_table(columns@, names@),
        start + height_of(columns@) <= usize::MAX,
    ensures
        match out {
            Some(rows) => can_search(names@, named(column), pattern@) && are_rows(
                rows@,
                start,
                height_of(columns@),
                |row: int| finds(columns@, names@, named(column), pattern@, row),
            ),
            None => !can_search(names@, named(column), pattern@),
        },
{
    if search::compile(pattern).is_err() {
        return None;
    }
    let width: usize = columns.len();
    let (from, to): (usize, usize) = match column {
        Some(name) => match place(names, name) {
            Some(at) => (at, at + 1),
            None => {
                return None;
            },
        },
        None => (0, width),
    };
    let marks = found_in(columns, from, to, pattern);
    let rows = marked(&marks, start);
    proof {
        let wanted = |row: int| marks@[row];
        let other = |row: int| finds(columns@, names@, named(column), pattern@, row);
        let asks = Asked::Matches(pattern@);
        assert forall|row: int| 0 <= row < marks@.len() implies #[trigger] wanted(row) == other(row) by {
            assert(marks@[row] == exists|at: int|
                from <= at < to && meets(asks, maybe_text((#[trigger] columns@[at])@[row])));
            if marks@[row] {
                let at = choose|at: int|
                    from <= at < to && meets(asks, maybe_text((#[trigger] columns@[at])@[row]));
                assert(is_searched(names@, named(column), at));
            }
            if other(row) {
                let at = choose|at: int| #[trigger]
                    is_searched(names@, named(column), at) && meets(
                        asks,
                        maybe_text(columns@[at]@[row]),
                    );
                assert(from <= at < to);
                assert(meets(asks, maybe_text(columns@[at]@[row])));
            }
        }
        lemma_same_rows(rows@, start, height_of(columns@), wanted, other);
    }
    Some(rows)
}

/// What a scan of a file looks for.
pub enum Quest<'a> {
    /// The rows that meet every condition.
    Kept(&'a [Predicate]),
    /// The rows with a pattern in them, in one column or in any.
    Found { column: Option<&'a str>, pattern: &'a str },
}

impl<'a> Quest<'a> {
    /// It can be looked for in columns of these names.
    pub open spec fn can_seek(self, names: Seq<String>) -> bool {
        match self {
            Quest::Kept(tests) => can_ask_all(names, tests@),
            Quest::Found { column, pattern } => can_search(names, named(column), pattern@),
        }
    }

    /// The row is one that is looked for.
    pub open spec fn wants(
        self,
        columns: Seq<Vec<Option<String>>>,
        names: Seq<String>,
        row: int,
    ) -> bool {
        match self {
            Quest::Kept(tests) => keeps(columns, names, tests@, row),
            Quest::Found { column, pattern } => finds(columns, names, named(column), pattern@, row),
        }
    }

    /// This is what looking through a table comes to.
    pub open spec fn is_sought(
        self,
        out: Option<Vec<usize>>,
        columns: Seq<Vec<Option<String>>>,
        names: Seq<String>,
        start: usize,
    ) -> bool {
        match out {
            Some(rows) => self.can_seek(names) && are_rows(
                rows@,
                start,
                height_of(columns),
                |row: int| self.wants(columns, names, row),
            ),
            None => !self.can_seek(names),
        }
    }

    /// The rows of a table that are looked for, in order, counted from `start`.
    pub fn rows_in(&self, columns: &Vec<Vec<Option<String>>>, names: &[String], start: usize) -> (out:
        Option<Vec<usize>>)
        requires
            is_named_table(columns@, names@),
            start + height_of(columns@) <= usize::MAX,
        ensures
            self.is_sought(out, columns@, names@, start),
    {
        let out = match self {
            Quest::Kept(tests) => kept(columns, names, tests, start),
            Quest::Found { column, pattern } => matching(columns, names, *column, pattern, start),
        };
        proof {
            if out is Some {
                let rows = out->Some_0@;
                let wanted = |row: int| self.wants(columns@, names@, row);
                match *self {
                    Quest::Kept(tests) => {
                        lemma_same_rows(
                            rows,
                            start,
                            height_of(columns@),
                            |row: int| keeps(columns@, names@, tests@, row),
                            wanted,
                        );
                    },
                    Quest::Found { column, pattern } => {
                        lemma_same_rows(
                            rows,
                            start,
                            height_of(columns@),
                            |row: int| finds(columns@, names@, named(column), pattern@, row),
                            wanted,
                        );
                    },
                }
            }
        }
        out
    }
}

/// What comes of looking through a span of a file: what is looked for among the
/// rows that are read there, or nothing where they cannot be read.
pub open spec fn is_scan(
    out: Option<Vec<usize>>,
    page: Option<Vec<Vec<Option<String>>>>,
    names: Seq<String>,
    start: usize,
    sought: Quest,
) -> bool {
    match page {
        Some(columns) => is_named_table(columns@, names) && sought.is_sought(
            out,
            columns@,
            names,
            start,
        ),
        None => out is None,
    }
}

/// A page has as many rows in each column, and no more than were asked for.
proof fn lemma_page_is_table(
    records: Records,
    page: Vec<Vec<Option<String>>>,
    bytes: Seq<u8>,
    names: Seq<String>,
    skip: usize,
    take: usize,
)
    requires
        records.wf(),
        records.reads(Some(page), bytes, all_columns(names.len()), skip, take),
        records matches Records::Delimited { separator, names: own, kinds } ==> own@.len()
            == names.len(),
    ensures
        is_named_table(page@, names),
        height_of(page@) <= take,
{
    let wanted = all_columns(names.len());
    let all = columns_text(page@);
    match records {
        Records::Delimited { separator, names: own, kinds } => {
            let cells = choose|cells: Seq<Seq<Option<Seq<char>>>>|
                is_table(cells, own@.len()) && #[trigger] is_window(page@, cells, wanted, skip, take);
            assert forall|a: int, b: int| 0 <= a < all.len() && 0 <= b < all.len() implies (
            #[trigger] all[a]).len() == (#[trigger] all[b]).len() by {
                assert(all[a] == column_text(page@[a]@) && all[b] == column_text(page@[b]@));
                assert(cells[wanted[a] as int].len() == cells[wanted[b] as int].len());
            }
            if page@.len() > 0 {
                assert(column_text(page@[0]@).len() == page@[0]@.len());
                assert(column_text(page@[0]@) == window_of(cells[wanted[0] as int], skip, take));
            }
        },
        Records::Json { paths, kinds } => {
            let lines = page_lines(bytes, skip, take);
            assert forall|a: int| 0 <= a < all.len() implies (#[trigger] all[a]).len() == lines.len() by {
                assert(all[a] == column_text(page@[a]@));
                assert(is_column(
                    page@[a],
                    lines,
                    path_at(paths@, wanted[a]),
                    kind_at(kinds@, wanted[a]),
                ));
            }
            if page@.len() > 0 {
                assert(is_column(
                    page@[0],
                    lines,
                    path_at(paths@, wanted[0]),
                    kind_at(kinds@, wanted[0]),
                ));
            }
        },
    }
}

/// The numbers of so many columns.
fn columns_under(width: usize) -> (out: Vec<usize>)
    ensures
        out@ == all_columns(width as nat),
{
    let mut out: Vec<usize> = Vec::new();
    let mut c: usize = 0;
    while c < width
        invariant
            c <= width,
            out@ == all_columns(c as nat),
        decreases width - c,
    {
        out.push(c);
        c += 1;
        assert(out@ =~= all_columns(c as nat));
    }
    out
}

/// Look through a span of a file: rows `skip` up to `skip + take` of it, the
/// first of which is row `start` of the file.
///
/// A condition names source columns, so what is scanned is read whole however
/// narrow the view is.
pub fn scan_span(
    records: &Records,
    bytes: Vec<u8>,
    names: &[String],
    skip: usize,
    take: usize,
    start: usize,
    sought: &Quest,
) -> (out: Option<Vec<usize>>)
    requires
        records.wf(),
        records matches Records::Delimited { separator, names: own, kinds } ==> own@.len()
            == names@.len(),
        start + take <= usize::MAX,
    ensures
        exists|page: Option<Vec<Vec<Option<String>>>>|
            records.reads(page, bytes@, all_columns(names@.len()), skip, take) && #[trigger] is_scan(
                out,
                page,
                names@,
                start,
                *sought,
            ),
{
    let wanted = columns_under(names.len());
    let page = records.parse(bytes, wanted.as_slice(), skip, take);
    let ghost read = page;
    match page {
        None => {
            assert(is_scan(None, read, names@, start, *sought));
            None
        },
        Some(columns) => {
            proof {
                lemma_page_is_table(*records, columns, bytes@, names@, skip, take);
            }
            let out = sought.rows_in(&columns, names, start);
            assert(is_scan(out, read, names@, start, *sought));
            out
        },
    }
}

/// The cells of a column that hold something.
pub open spec fn present(cells: Seq<Option<Seq<char>>>) -> Seq<Seq<char>>
    decreases cells.len(),
{
    if cells.len() == 0 {
        Seq::empty()
    } else {
        match cells.last() {
            Some(text) => present(cells.drop_last()).push(text),
            None => present(cells.drop_last()),
        }
    }
}

/// The cells that a column is sorted by. Text goes by its natural order, under
/// the keys that give it, where that is another order than the text's own. What is
/// too long to be held goes as nothing.
pub open spec fn sort_cells(cells: Seq<Option<Seq<char>>>, kind: ColumnType) -> Seq<Option<Seq<char>>> {
    if kind == ColumnType::Text && uneven(present(cells)) {
        cells.map_values(|cell: Option<Seq<char>>| short_cell(sort_cell(cell)))
    } else {
        cells.map_values(|cell: Option<Seq<char>>| short_cell(cell))
    }
}

pub open spec fn sort_cell(cell: Option<Seq<char>>) -> Option<Seq<char>> {
    match cell {
        Some(text) => Some(key_text(text)),
        None => None,
    }
}

/// Some rows of a column.
pub open spec fn picked(column: Seq<Option<String>>, rows: Seq<usize>) -> Seq<Option<Seq<char>>> {
    rows.map_values(|row: usize| maybe_text(column[row as int]))
}

fn pick(column: &Vec<Option<String>>, rows: &Vec<usize>) -> (out: Vec<Option<String>>)
    requires
        forall|k: int| 0 <= k < rows@.len() ==> #[trigger] rows@[k] < column@.len(),
    ensures
        column_text(out@) == picked(column@, rows@),
        out@.len() == rows@.len(),
{
    let mut out: Vec<Option<String>> = Vec::new();
    let mut k: usize = 0;
    while k < rows.len()
        invariant
            k <= rows.len(),
            out@.len() == k,
            forall|j: int| 0 <= j < rows@.len() ==> #[trigger] rows@[j] < column@.len(),
            forall|j: int|
                0 <= j < k ==> maybe_text(#[trigger] out@[j]) == maybe_text(column@[rows@[j] as int]),
        decreases rows.len() - k,
    {
        let cell: Option<String> = match &column[rows[k]] {
            Some(text) => Some(text.clone()),
            None => None,
        };
        out.push(cell);
        k += 1;
    }
    assert(column_text(out@) =~= picked(column@, rows@));
    out
}

/// Some rows of a table, in the order they are named.
pub fn taken(columns: &Vec<Vec<Option<String>>>, rows: &Vec<usize>) -> (out: Vec<Vec<Option<String>>>)
    requires
        is_even(columns_text(columns@)),
        forall|k: int| 0 <= k < rows@.len() ==> #[trigger] rows@[k] < height_of(columns@),
    ensures
        out@.len() == columns@.len(),
        forall|c: int|
            0 <= c < columns@.len() ==> column_text(#[trigger] out@[c]@) == picked(columns@[c]@, rows@),
{
    let mut out: Vec<Vec<Option<String>>> = Vec::new();
    let mut c: usize = 0;
    while c < columns.len()
        invariant
            c <= columns@.len(),
            is_even(columns_text(columns@)),
            forall|k: int| 0 <= k < rows@.len() ==> #[trigger] rows@[k] < height_of(columns@),
            out@.len() == c,
            forall|d: int|
                0 <= d < c ==> column_text(#[trigger] out@[d]@) == picked(columns@[d]@, rows@),
        decreases columns.len() - c,
    {
        proof {
            lemma_height(columns@, c as int);
        }
        out.push(pick(&columns[c], rows));
        c += 1;
    }
    out
}

/// Whether the natural order of some cells is another than their own.
fn worth_keying(cells: &Vec<Option<String>>) -> (worth: bool)
    ensures
        worth == uneven(present(column_text(cells@))),
{
    let ghost all = column_text(cells@);
    let mut values: Vec<&str> = Vec::new();
    let mut k: usize = 0;
    assert(all.take(0) =~= Seq::empty());
    assert(natural::strs(values@) =~= Seq::empty());
    while k < cells.len()
        invariant
            k <= cells.len(),
            all == column_text(cells@),
            natural::strs(values@) == present(all.take(k as int)),
        decreases cells.len() - k,
    {
        assert(all.take(k + 1).drop_last() =~= all.take(k as int));
        assert(all.take(k + 1).last() == maybe_text(cells@[k as int]));
        if let Some(text) = &cells[k] {
            let ghost before = values@;
            values.push(text.as_str());
            assert(natural::strs(values@) =~= natural::strs(before).push(text@));
        }
        k += 1;
    }
    assert(all.take(k as int) =~= all);
    natural::worth_keying(values.as_slice())
}

fn sort_keys(cells: &Vec<Option<String>>, kind: ColumnType) -> (out: Vec<Option<String>>)
    ensures
        column_text(out@) == sort_cells(column_text(cells@), kind),
        out@.len() == cells@.len(),
{
    let keyed: bool = match kind {
        ColumnType::Text => worth_keying(cells),
        _ => false,
    };
    let mut out: Vec<Option<String>> = Vec::new();
    let mut k: usize = 0;
    while k < cells.len()
        invariant
            k <= cells.len(),
            out@.len() == k,
            forall|j: int|
                0 <= j < k ==> maybe_text(#[trigger] out@[j]) == short_cell(
                    if keyed {
                        sort_cell(maybe_text(cells@[j]))
                    } else {
                        maybe_text(cells@[j])
                    },
                ),
        decreases cells.len() - k,
    {
        let mut cell: Option<String> = None;
        if let Some(text) = &cells[k] {
            let value: String = if keyed {
                natural::key(text.as_str())
            } else {
                text.clone()
            };
            if short(value.as_str()) {
                cell = Some(value);
            }
        }
        out.push(cell);
        k += 1;
    }
    assert(column_text(out@) =~= sort_cells(column_text(cells@), kind));
    out
}

/// The column that a sort key names.
pub open spec fn key_column(names: Seq<String>, key: (String, bool)) -> int {
    column_at(texts(names), key.0@)->Some_0
}

/// Every sort key names a column.
pub open spec fn keys_known(names: Seq<String>, keys: Seq<(String, bool)>) -> bool {
    forall|k: int| 0 <= k < keys.len() ==> column_at(texts(names), (#[trigger] keys[k]).0@) is Some
}

/// What a row is sorted by under a key.
pub open spec fn sort_value(
    columns: Seq<Vec<Option<String>>>,
    names: Seq<String>,
    kinds: Seq<ColumnType>,
    key: (String, bool),
    row: int,
) -> Option<Seq<char>> {
    let at = key_column(names, key);
    sort_cells(column_text(columns[at]@), kinds[at])[row]
}

/// A row comes before another: by the first key, where they tie by the next, and
/// where they tie under all of them as the file has them. A key's flag says that
/// it ascends.
pub open spec fn row_goes_first(
    columns: Seq<Vec<Option<String>>>,
    names: Seq<String>,
    kinds: Seq<ColumnType>,
    keys: Seq<(String, bool)>,
    row: usize,
    other: usize,
) -> bool
    decreases keys.len(),
{
    if keys.len() == 0 {
        row < other
    } else {
        let key = keys[0];
        let kind = kinds[key_column(names, key)];
        let a = sort_value(columns, names, kinds, key, row as int);
        let b = sort_value(columns, names, kinds, key, other as int);
        let compares = |text: Seq<char>, other: Seq<char>| below(kind, text, other);
        goes_first(compares, !key.1, a, b) || ties(compares, a, b) && row_goes_first(
            columns,
            names,
            kinds,
            keys.drop_first(),
            row,
            other,
        )
    }
}

/// Rows are in the order that the keys put them in.
pub open spec fn rows_sorted(
    columns: Seq<Vec<Option<String>>>,
    names: Seq<String>,
    kinds: Seq<ColumnType>,
    keys: Seq<(String, bool)>,
    rows: Seq<usize>,
) -> bool {
    forall|i: int, j: int|
        0 <= i < j < rows.len() ==> row_goes_first(
            columns,
            names,
            kinds,
            keys,
            #[trigger] rows[i],
            #[trigger] rows[j],
        )
}

/// Rows put into an order.
pub open spec fn arranged(rows: Seq<usize>, order: Seq<usize>) -> Seq<usize> {
    order.map_values(|at: usize| rows[at as int])
}

/// Rows put into an order are the rows they were, each once.
proof fn lemma_arranged(rows: Seq<usize>, order: Seq<usize>)
    requires
        rows.no_duplicates(),
        is_permutation(order, rows.len()),
        rows.len() <= usize::MAX,
    ensures
        arranged(rows, order).no_duplicates(),
        forall|row: usize| arranged(rows, order).contains(row) <==> #[trigger] rows.contains(row),
{
    let out = arranged(rows, order);
    assert forall|row: usize| out.contains(row) <==> #[trigger] rows.contains(row) by {
        if rows.contains(row) {
            let i = choose|i: int| 0 <= i < rows.len() && rows[i] == row;
            assert(order.contains(i as usize));
            let j = choose|j: int| 0 <= j < order.len() && order[j] == i as usize;
            assert(out[j] == row);
        }
        if out.contains(row) {
            let j = choose|j: int| 0 <= j < out.len() && out[j] == row;
            assert(order[j] < rows.len());
            assert(rows[order[j] as int] == row);
        }
    }
    assert forall|i: int, j: int| 0 <= i < out.len() && 0 <= j < out.len() && i != j implies out[i]
        != out[j] by {
        assert(order[i] != order[j]);
        assert(order[i] < rows.len() && order[j] < rows.len());
    }
}

/// A stable sort by one key puts rows that were sorted by the rest in the order
/// of all.
proof fn lemma_sorted_by_one_more(
    columns: Seq<Vec<Option<String>>>,
    names: Seq<String>,
    kinds: Seq<ColumnType>,
    keys: Seq<(String, bool)>,
    rows: Seq<usize>,
    cells: Seq<Option<Seq<char>>>,
    order: Seq<usize>,
)
    requires
        keys.len() > 0,
        rows_sorted(columns, names, kinds, keys.drop_first(), rows),
        cells.len() == rows.len(),
        forall|k: int|
            0 <= k < rows.len() ==> #[trigger] cells[k] == sort_value(
                columns,
                names,
                kinds,
                keys[0],
                rows[k] as int,
            ),
        is_order(
            order,
            cells,
            |text: Seq<char>, other: Seq<char>| below(kinds[key_column(names, keys[0])], text, other),
            !keys[0].1,
        ),
    ensures
        rows_sorted(columns, names, kinds, keys, arranged(rows, order)),
{
    let out = arranged(rows, order);
    assert forall|i: int, j: int| 0 <= i < j < out.len() implies row_goes_first(
        columns,
        names,
        kinds,
        keys,
        #[trigger] out[i],
        #[trigger] out[j],
    ) by {
        let (a, b) = (order[i] as int, order[j] as int);
        assert(order[i] < rows.len() && order[j] < rows.len());
        assert(out[i] == rows[a] && out[j] == rows[b]);
        assert(cells[a] == sort_value(columns, names, kinds, keys[0], rows[a] as int));
        assert(cells[b] == sort_value(columns, names, kinds, keys[0], rows[b] as int));
        if a < b {
            assert(row_goes_first(columns, names, kinds, keys.drop_first(), rows[a], rows[b]));
        }
    }
}

/// Rows in the order that one more key, ahead of those they are sorted by, puts
/// them in.
fn sort_by(
    columns: &Vec<Vec<Option<String>>>,
    names: &[String],
    kinds: &[ColumnType],
    keys: &[(String, bool)],
    from: usize,
    rows: Vec<usize>,
) -> (out: Vec<usize>)
    requires
        is_named_table(columns@, names@),
        kinds@.len() == names@.len(),
        keys_known(names@, keys@),
        from < keys@.len(),
        rows@.no_duplicates(),
        height_of(columns@) <= MOST_ROWS,
        rows@.len() <= height_of(columns@),
        forall|k: int| 0 <= k < rows@.len() ==> #[trigger] rows@[k] < height_of(columns@),
        rows_sorted(columns@, names@, kinds@, keys@.skip(from + 1), rows@),
    ensures
        out@.no_duplicates(),
        out@.len() == rows@.len(),
        forall|row: usize| out@.contains(row) <==> #[trigger] rows@.contains(row),
        rows_sorted(columns@, names@, kinds@, keys@.skip(from as int), out@),
{
    let key = &keys[from];
    assert(column_at(texts(names@), keys@[from as int].0@) is Some);
    let mut out: Vec<usize> = Vec::new();
    if let Some(at) = place(names, key.0.as_str()) {
        proof {
            lemma_height(columns@, at as int);
        }
        let all = sort_keys(&columns[at], kinds[at]);
        let cells = pick(&all, &rows);
        let ghost values = column_text(cells@);
        assert forall|k: int| 0 <= k < rows@.len() implies #[trigger] values[k] == sort_value(
            columns@,
            names@,
            kinds@,
            keys@[from as int],
            rows@[k] as int,
        ) by {
            assert(values[k] == maybe_text(all@[rows@[k] as int]));
            assert(column_text(all@)[rows@[k] as int] == maybe_text(all@[rows@[k] as int]));
        }
        assert forall|k: int| 0 <= k < cells@.len() implies (#[trigger] cells@[k] matches Some(text)
            ==> is_short(text@)) by {
            assert(values[k] == maybe_text(cells@[k]));
            assert(values[k] == maybe_text(all@[rows@[k] as int]));
            assert(column_text(all@)[rows@[k] as int] == maybe_text(all@[rows@[k] as int]));
        }
        if let Some(order) = order_of(cells, kinds[at], !key.1) {
            let mut i: usize = 0;
            while i < order.len()
                invariant
                    i <= order.len(),
                    is_permutation(order@, rows@.len()),
                    out@.len() == i,
                    forall|j: int| 0 <= j < i ==> #[trigger] out@[j] == rows@[order@[j] as int],
                decreases order.len() - i,
            {
                out.push(rows[order[i]]);
                i += 1;
            }
            proof {
                assert(out@ =~= arranged(rows@, order@));
                lemma_arranged(rows@, order@);
                let here = keys@.skip(from as int);
                assert(here.drop_first() =~= keys@.skip(from + 1));
                assert(here[0] == keys@[from as int]);
                let kind = kinds@[at as int];
                assert(is_order(
                    order@,
                    values,
                    |text: Seq<char>, other: Seq<char>| below(kind, text, other),
                    !key.1,
                ));
                lemma_sorted_by_one_more(columns@, names@, kinds@, here, rows@, values, order@);
            }
        }
    }
    out
}

/// No more rows than there are places.
proof fn lemma_at_most(rows: Seq<usize>, height: nat)
    requires
        ascending(rows),
        forall|k: int| 0 <= k < rows.len() ==> #[trigger] rows[k] < height,
    ensures
        rows.len() <= height,
        forall|k: int| 0 <= k < rows.len() ==> k <= #[trigger] rows[k],
    decreases rows.len(),
{
    if rows.len() > 0 {
        let front = rows.drop_last();
        assert forall|k: int| 0 <= k < front.len() implies #[trigger] front[k] < rows.last() by {
            assert(front[k] == rows[k]);
        }
        lemma_at_most(front, rows.last() as nat);
        assert forall|k: int| 0 <= k < rows.len() implies k <= #[trigger] rows[k] by {
            if k < front.len() {
                assert(front[k] == rows[k]);
            }
        }
    }
}

/// The rows that meet every condition, sorted by the keys: each of them once.
///
/// `None` where a condition cannot be asked, a key names no column of the table,
/// or there are more rows than can be sorted.
pub fn sorted_rows(
    columns: &Vec<Vec<Option<String>>>,
    names: &[String],
    kinds: &[ColumnType],
    tests: &[Predicate],
    keys: &[(String, bool)],
) -> (out: Option<Vec<usize>>)
    requires
        is_named_table(columns@, names@),
        kinds@.len() == names@.len(),
    ensures
        out is Some <==> can_ask_all(names@, tests@) && keys_known(names@, keys@) && height_of(columns@)
            <= MOST_ROWS,
        out matches Some(rows) ==> {
            &&& rows@.no_duplicates()
            &&& forall|row: usize| #[trigger]
                rows@.contains(row) <==> row < height_of(columns@) && keeps(
                    columns@,
                    names@,
                    tests@,
                    row as int,
                )
            &&& rows_sorted(columns@, names@, kinds@, keys@, rows@)
        },
{
    if height(columns) > MOST_ROWS {
        return None;
    }
    let mut rows = match kept(columns, names, tests, 0) {
        Some(rows) => rows,
        None => {
            return None;
        },
    };
    let mut k: usize = 0;
    while k < keys.len()
        invariant
            k <= keys.len(),
            forall|j: int| 0 <= j < k ==> column_at(texts(names@), (#[trigger] keys@[j]).0@) is Some,
        decreases keys.len() - k,
    {
        if place(names, keys[k].0.as_str()).is_none() {
            assert(column_at(texts(names@), keys@[k as int].0@) is None);
            return None;
        }
        k += 1;
    }
    let ghost held = rows@;
    let ghost n = height_of(columns@);
    proof {
        assert forall|j: int| 0 <= j < held.len() implies #[trigger] held[j] < n by {
            assert(held.contains(held[j]));
        }
        lemma_at_most(held, n);
        assert(keys@.skip(keys@.len() as int) =~= Seq::empty());
    }
    let mut from: usize = keys.len();
    while from > 0
        invariant
            from <= keys@.len(),
            n == height_of(columns@) <= MOST_ROWS,
            is_named_table(columns@, names@),
            kinds@.len() == names@.len(),
            keys_known(names@, keys@),
            forall|j: int| 0 <= j < held.len() ==> #[trigger] held[j] < n,
            held.len() <= n,
            rows@.no_duplicates(),
            rows@.len() == held.len(),
            forall|row: usize| rows@.contains(row) <==> #[trigger] held.contains(row),
            rows_sorted(columns@, names@, kinds@, keys@.skip(from as int), rows@),
        decreases from,
    {
        proof {
            assert forall|j: int| 0 <= j < rows@.len() implies #[trigger] rows@[j] < n by {
                assert(rows@.contains(rows@[j]));
                assert(held.contains(rows@[j]));
                let i = choose|i: int| 0 <= i < held.len() && held[i] == rows@[j];
                assert(held[i] < n);
            }
        }
        from -= 1;
        let ghost was = rows@;
        rows = sort_by(columns, names, kinds, keys, from, rows);
        assert forall|row: usize| rows@.contains(row) <==> #[trigger] held.contains(row) by {
            assert(was.contains(row) <==> held.contains(row));
        }
    }
    proof {
        assert(keys@.skip(0) =~= keys@);
        let wanted = |row: int| keeps(columns@, names@, tests@, row);
        assert forall|row: usize| #[trigger] rows@.contains(row) <==> row < n && keeps(
            columns@,
            names@,
            tests@,
            row as int,
        ) by {
            assert(held.contains(row) <==> 0 <= row < n && wanted(row - 0));
        }
    }
    Some(rows)
}

/// Scanning a file part by part finds what one scan of all of it would: the rows
/// of the first part, then those of the next, counted from where it begins.
pub proof fn scanning_in_parts_finds_the_same(
    first: Seq<usize>,
    second: Seq<usize>,
    start: usize,
    middle: usize,
    upto: nat,
    wanted: spec_fn(int) -> bool,
)
    requires
        start <= middle <= upto,
        are_rows(first, start, (middle - start) as nat, wanted),
        are_rows(second, middle, (upto - middle) as nat, |row: int| wanted(middle - start + row)),
    ensures
        are_rows(first + second, start, (upto - start) as nat, wanted),
{
    let both = first + second;
    let later = |row: int| wanted(middle - start + row);
    assert forall|row: usize| #[trigger] both.contains(row) <==> start <= row < start + (upto - start)
        && wanted(row - start) by {
        assert(first.contains(row) <==> start <= row < middle && wanted(row - start));
        assert(second.contains(row) <==> middle <= row < upto && later(row - middle));
        if first.contains(row) {
            let i = choose|i: int| 0 <= i < first.len() && first[i] == row;
            assert(both[i] == row);
        }
        if second.contains(row) {
            let i = choose|i: int| 0 <= i < second.len() && second[i] == row;
            assert(both[first.len() + i] == row);
        }
        if both.contains(row) {
            let i = choose|i: int| 0 <= i < both.len() && both[i] == row;
            if i < first.len() {
                assert(first.contains(first[i]));
            } else {
                assert(second.contains(second[i - first.len()]));
            }
        }
    }
    assert forall|i: int, j: int| 0 <= i < j < both.len() implies both[i] < both[j] by {
        if i < first.len() && j >= first.len() {
            assert(first.contains(first[i]));
            assert(second.contains(second[j - first.len()]));
        }
    }
}

/// Of the cells that hold something, a pattern and its opposite each keep what
/// the other does not, and so do any two operators that are each other's
/// opposite. A cell that holds nothing is kept by none of them.
pub proof fn opposites_share_out_the_cells_that_hold_something(
    pattern: Seq<char>,
    value: Seq<char>,
    cell: Option<Seq<char>>,
)
    ensures
        cell is Some ==> meets(Asked::Matches(pattern), cell) != meets(Asked::NotMatches(pattern), cell),
        cell is Some ==> meets(Asked::Text(Op::Eq, value), cell) != meets(
            Asked::Text(Op::Ne, value),
            cell,
        ),
        cell is Some ==> meets(Asked::Text(Op::Lt, value), cell) != meets(
            Asked::Text(Op::Ge, value),
            cell,
        ),
        cell is Some ==> meets(Asked::Text(Op::Gt, value), cell) != meets(
            Asked::Text(Op::Le, value),
            cell,
        ),
        cell is None ==> !meets(Asked::Matches(pattern), cell) && !meets(
            Asked::NotMatches(pattern),
            cell,
        ),
        cell is None ==> forall|op: Op| !#[trigger] meets(Asked::Text(op, value), cell),
        meets(Asked::Null, cell) != meets(Asked::NotNull, cell),
{
}

/// Text equals a value just where it is the same text.
pub proof fn equal_text_is_the_same_text(text: Seq<char>, value: Seq<char>)
    ensures
        meets(Asked::Text(Op::Eq, value), Some(text)) <==> text == value,
{
    lemma_neither_before(text, value);
}

proof fn lemma_neither_before(a: Seq<char>, b: Seq<char>)
    ensures
        !before(a, b) && !before(b, a) <==> a == b,
    decreases a.len(),
{
    if a.len() == 0 || b.len() == 0 {
        if a.len() == 0 && b.len() == 0 {
            assert(a =~= b);
        }
    } else if a[0] == b[0] {
        lemma_neither_before(a.drop_first(), b.drop_first());
        if a.drop_first() == b.drop_first() {
            assert(a =~= seq![a[0]] + a.drop_first());
            assert(b =~= seq![b[0]] + b.drop_first());
        }
    }
}

} // verus!
