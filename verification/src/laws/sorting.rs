//! The order that sorting puts rows in, from the keys asked for to the rows.
use vstd::prelude::*;
use crate::data::jsonl::{maybe_text, ColumnType};
use crate::data::lake_db;
use crate::data::natural::{before, key_text, keys_are_never_tied, uneven};
use crate::data::scan::{
    column_at, present, row_goes_first, rows_sorted, sort_value, sorts_below,
};
use crate::data::span::{column_text, distinct};
use crate::data::store::{named_keys, toggled};
use crate::data::typed::is_short;
use crate::laws::names;
use crate::text::texts;

verus! {

/// The sort entries whose column there is.
pub open spec fn on_columns(sort: Seq<(usize, bool)>, width: nat) -> Seq<(usize, bool)> {
    sort.filter(|key: (usize, bool)| key.0 < width)
}

/// The keys of a sort are the view's sort entries, those on a column that there
/// is, in their order: each the name of its column, and its own direction.
pub proof fn each_key_keeps_its_column_and_direction(names: Seq<Seq<char>>, sort: Seq<(usize, bool)>)
    ensures
        named_keys(names, sort) == on_columns(sort, names.len()).map_values(
            |key: (usize, bool)| (names[key.0 as int], key.1),
        ),
        (forall|k: int| 0 <= k < sort.len() ==> (#[trigger] sort[k]).0 < names.len()) ==> {
            &&& named_keys(names, sort).len() == sort.len()
            &&& forall|k: int|
                0 <= k < sort.len() ==> (#[trigger] named_keys(names, sort)[k]).0
                    == names[sort[k].0 as int] && named_keys(names, sort)[k].1 == sort[k].1
        },
    decreases sort.len(),
{
    reveal(Seq::filter);
    if sort.len() > 0 {
        let front = sort.drop_last();
        each_key_keeps_its_column_and_direction(names, front);
        assert(named_keys(names, sort) =~= on_columns(sort, names.len()).map_values(
            |key: (usize, bool)| (names[key.0 as int], key.1),
        ));
        if forall|k: int| 0 <= k < sort.len() ==> (#[trigger] sort[k]).0 < names.len() {
            assert forall|k: int| 0 <= k < front.len() implies (#[trigger] front[k]).0 < names.len() by {
                assert(front[k] == sort[k]);
            }
            assert(sort[sort.len() - 1].0 < names.len());
            assert forall|k: int| 0 <= k < sort.len() implies (#[trigger] named_keys(names, sort)[k]).0
                == names[sort[k].0 as int] && named_keys(names, sort)[k].1 == sort[k].1 by {
                if k < front.len() {
                    assert(named_keys(names, front)[k].0 == names[front[k].0 as int]);
                    assert(named_keys(names, sort)[k] == named_keys(names, front)[k]);
                }
            }
        }
    } else {
        assert(named_keys(names, sort) =~= on_columns(sort, names.len()).map_values(
            |key: (usize, bool)| (names[key.0 as int], key.1),
        ));
    }
}

/// Keys taken as characters stay the names and directions they are.
pub proof fn keys_taken_as_characters(keys: Seq<(String, bool)>, k: int)
    requires
        0 <= k < keys.len(),
    ensures
        lake_db::sort_keys(keys).len() == keys.len(),
        lake_db::sort_keys(keys)[k].0 == keys[k].0@,
        lake_db::sort_keys(keys)[k].1 == keys[k].1,
{
}

/// What is behind the first key decides between two rows.
pub open spec fn the_rest_decides(
    columns: Seq<Vec<Option<String>>>,
    names: Seq<String>,
    kinds: Seq<ColumnType>,
    keys: Seq<(String, bool)>,
    row: usize,
    other: usize,
) -> bool {
    if keys.len() == 1 {
        row < other
    } else {
        rows_sorted(columns, names, kinds, keys.skip(1), seq![row, other])
    }
}

proof fn lemma_ties_are_the_same(a: Seq<char>, b: Seq<char>)
    ensures
        !before(a, b) && !before(b, a) <==> a == b,
        !(before(a, b) && before(b, a)),
    decreases a.len(),
{
    if a.len() == 0 || b.len() == 0 {
        if a.len() == b.len() {
            assert(a =~= b);
        }
    } else if a[0] == b[0] {
        lemma_ties_are_the_same(a.drop_first(), b.drop_first());
        if a.drop_first() == b.drop_first() {
            assert(a =~= seq![a[0]] + a.drop_first());
            assert(b =~= seq![b[0]] + b.drop_first());
        }
    }
}

proof fn lemma_rest(
    columns: Seq<Vec<Option<String>>>,
    names: Seq<String>,
    kinds: Seq<ColumnType>,
    keys: Seq<(String, bool)>,
    row: usize,
    other: usize,
)
    requires
        keys.len() > 0,
        row_goes_first(columns, names, kinds, keys.drop_first(), row, other),
    ensures
        the_rest_decides(columns, names, kinds, keys, row, other),
{
    let rest = keys.skip(1);
    assert(keys.drop_first() =~= rest);
    if keys.len() > 1 {
        let pair = seq![row, other];
        assert forall|i: int, j: int| 0 <= i < j < pair.len() implies row_goes_first(
            columns,
            names,
            kinds,
            rest,
            #[trigger] pair[i],
            #[trigger] pair[j],
        ) by {
            assert(i == 0 && j == 1);
        }
    }
}

proof fn lemma_value(
    columns: Seq<Vec<Option<String>>>,
    names: Seq<String>,
    kinds: Seq<ColumnType>,
    key: (String, bool),
    at: int,
    row: usize,
)
    requires
        distinct(names),
        0 <= at < names.len(),
        names.len() == columns.len() == kinds.len(),
        names[at]@ == key.0@,
        row < columns[at]@.len(),
    ensures
        column_at(texts(names), key.0@) == Some(at),
        ({
            let cell = maybe_text(columns[at]@[row as int]);
            let keyed = kinds[at] == ColumnType::Text && uneven(present(column_text(columns[at]@)));
            let value = match cell {
                Some(text) => Some(
                    if keyed {
                        key_text(text)
                    } else {
                        text
                    },
                ),
                None => None,
            };
            sort_value(columns, names, kinds, key, row as int) == match value {
                Some(text) => if is_short(text) {
                    Some(text)
                } else {
                    None
                },
                None => None,
            }
        }),
{
    let all = texts(names);
    assert forall|a: int, b: int| 0 <= a < b < all.len() implies (#[trigger] all[a]) != (
    #[trigger] all[b]) by {
        assert(names[a]@ != names[b]@);
    }
    names::lemma_found(all, at);
    assert(all[at] == key.0@);
    assert(column_text(columns[at]@)[row as int] == maybe_text(columns[at]@[row as int]));
}

/// Two rows of a table sorted by text that holds no numbers to tell apart come in
/// the order of the text, or against it where the key descends, and where their
/// texts are the same the next key decides. Rows with nothing under the key come
/// first.
pub proof fn text_sorts_by_itself(
    columns: Seq<Vec<Option<String>>>,
    names: Seq<String>,
    kinds: Seq<ColumnType>,
    keys: Seq<(String, bool)>,
    rows: Seq<usize>,
    at: int,
    i: int,
    j: int,
)
    requires
        rows_sorted(columns, names, kinds, keys, rows),
        distinct(names),
        names.len() == columns.len() == kinds.len(),
        keys.len() > 0,
        0 <= at < names.len(),
        names[at]@ == keys[0].0@,
        kinds[at] == ColumnType::Text || kinds[at] == ColumnType::Bool,
        kinds[at] == ColumnType::Text ==> !uneven(present(column_text(columns[at]@))),
        0 <= i < j < rows.len(),
        rows[i] < columns[at]@.len(),
        rows[j] < columns[at]@.len(),
        maybe_text(columns[at]@[rows[i] as int]) matches Some(text) ==> is_short(text),
        maybe_text(columns[at]@[rows[j] as int]) matches Some(text) ==> is_short(text),
    ensures
        match (
            maybe_text(columns[at]@[rows[i] as int]),
            maybe_text(columns[at]@[rows[j] as int]),
        ) {
            (None, None) => the_rest_decides(columns, names, kinds, keys, rows[i], rows[j]),
            (None, Some(_)) => true,
            (Some(_), None) => false,
            (Some(a), Some(b)) => if a == b {
                the_rest_decides(columns, names, kinds, keys, rows[i], rows[j])
            } else if keys[0].1 {
                before(a, b)
            } else {
                before(b, a)
            },
        },
{
    let (x, y) = (rows[i], rows[j]);
    lemma_value(columns, names, kinds, keys[0], at, x);
    lemma_value(columns, names, kinds, keys[0], at, y);
    assert(row_goes_first(columns, names, kinds, keys, x, y));
    let (a, b) = (maybe_text(columns[at]@[x as int]), maybe_text(columns[at]@[y as int]));
    if a is Some && b is Some {
        lemma_ties_are_the_same(a->Some_0, b->Some_0);
    }
    if row_goes_first(columns, names, kinds, keys.drop_first(), x, y) {
        lemma_rest(columns, names, kinds, keys, x, y);
    }
}

/// Two rows of a table sorted by text with numbers in it come in the order of the
/// keys that put such text in natural order, or against it.
pub proof fn numbered_text_sorts_by_its_natural_order(
    columns: Seq<Vec<Option<String>>>,
    names: Seq<String>,
    kinds: Seq<ColumnType>,
    keys: Seq<(String, bool)>,
    rows: Seq<usize>,
    at: int,
    i: int,
    j: int,
    a: Seq<char>,
    b: Seq<char>,
)
    requires
        rows_sorted(columns, names, kinds, keys, rows),
        distinct(names),
        names.len() == columns.len() == kinds.len(),
        keys.len() > 0,
        0 <= at < names.len(),
        names[at]@ == keys[0].0@,
        kinds[at] == ColumnType::Text,
        uneven(present(column_text(columns[at]@))),
        0 <= i < j < rows.len(),
        rows[i] < columns[at]@.len(),
        rows[j] < columns[at]@.len(),
        maybe_text(columns[at]@[rows[i] as int]) == Some(a),
        maybe_text(columns[at]@[rows[j] as int]) == Some(b),
        is_short(key_text(a)),
        is_short(key_text(b)),
    ensures
        if a == b {
            the_rest_decides(columns, names, kinds, keys, rows[i], rows[j])
        } else if keys[0].1 {
            before(key_text(a), key_text(b))
        } else {
            before(key_text(b), key_text(a))
        },
{
    let (x, y) = (rows[i], rows[j]);
    lemma_value(columns, names, kinds, keys[0], at, x);
    lemma_value(columns, names, kinds, keys[0], at, y);
    assert(row_goes_first(columns, names, kinds, keys, x, y));
    lemma_ties_are_the_same(key_text(a), key_text(b));
    if key_text(a) == key_text(b) {
        keys_are_never_tied(a, b);
    }
    if row_goes_first(columns, names, kinds, keys.drop_first(), x, y) {
        lemma_rest(columns, names, kinds, keys, x, y);
    }
}

/// Two rows of a table sorted by numbers come in the order of the numbers, or
/// against it where the key descends; where neither number is below the other the
/// next key decides. Rows without a number come first.
pub proof fn numbers_sort_as_numbers(
    columns: Seq<Vec<Option<String>>>,
    names: Seq<String>,
    kinds: Seq<ColumnType>,
    keys: Seq<(String, bool)>,
    rows: Seq<usize>,
    at: int,
    i: int,
    j: int,
)
    requires
        rows_sorted(columns, names, kinds, keys, rows),
        distinct(names),
        names.len() == columns.len() == kinds.len(),
        keys.len() > 0,
        0 <= at < names.len(),
        names[at]@ == keys[0].0@,
        kinds[at] == ColumnType::Int || kinds[at] == ColumnType::Float,
        0 <= i < j < rows.len(),
        rows[i] < columns[at]@.len(),
        rows[j] < columns[at]@.len(),
        maybe_text(columns[at]@[rows[i] as int]) matches Some(text) ==> is_short(text),
        maybe_text(columns[at]@[rows[j] as int]) matches Some(text) ==> is_short(text),
    ensures
        ({
            let kind = kinds[at];
            let first = maybe_text(columns[at]@[rows[i] as int]);
            let second = maybe_text(columns[at]@[rows[j] as int]);
            let counts = |cell: Option<Seq<char>>|
                cell is Some && sorts_below(kind, cell->Some_0, cell->Some_0) is Some;
            let rest = the_rest_decides(columns, names, kinds, keys, rows[i], rows[j]);
            &&& counts(first) ==> counts(second)
            &&& !counts(first) && !counts(second) ==> rest
            &&& counts(first) && counts(second) ==> {
                let below = sorts_below(kind, first->Some_0, second->Some_0);
                let above = sorts_below(kind, second->Some_0, first->Some_0);
                (if keys[0].1 {
                    below == Some(true)
                } else {
                    above == Some(true)
                }) || (below == Some(false) && above == Some(false) && rest)
            }
        }),
{
    let (x, y) = (rows[i], rows[j]);
    lemma_value(columns, names, kinds, keys[0], at, x);
    lemma_value(columns, names, kinds, keys[0], at, y);
    assert(row_goes_first(columns, names, kinds, keys, x, y));
    if row_goes_first(columns, names, kinds, keys.drop_first(), x, y) {
        lemma_rest(columns, names, kinds, keys, x, y);
    }
}

/// Sorting by a column that is no key yet adds it behind the others, ascending.
pub proof fn a_new_key_goes_behind_the_others(sort: Seq<(usize, bool)>, column: usize)
    requires
        forall|k: int| 0 <= k < sort.len() ==> (#[trigger] sort[k]).0 != column,
    ensures
        toggled(sort, column) == sort.push((column, true)),
    decreases sort.len(),
{
    if sort.len() > 0 {
        let rest = sort.skip(1);
        assert forall|k: int| 0 <= k < rest.len() implies (#[trigger] rest[k]).0 != column by {
            assert(rest[k] == sort[k + 1]);
        }
        assert(sort[0].0 != column);
        a_new_key_goes_behind_the_others(rest, column);
    }
    assert(toggled(sort, column) =~= sort.push((column, true)));
}

/// Sorting by a column that is a key turns its direction round, and leaves the
/// keys and their order as they are.
pub proof fn a_key_turns_round_in_its_place(sort: Seq<(usize, bool)>, column: usize, at: int)
    requires
        0 <= at < sort.len(),
        sort[at].0 == column,
        forall|k: int| 0 <= k < at ==> (#[trigger] sort[k]).0 != column,
    ensures
        toggled(sort, column) == sort.update(at, (column, !sort[at].1)),
    decreases sort.len(),
{
    if at > 0 {
        let rest = sort.skip(1);
        assert forall|k: int| 0 <= k < at - 1 implies (#[trigger] rest[k]).0 != column by {
            assert(rest[k] == sort[k + 1]);
        }
        assert(sort[0].0 != column);
        assert(rest[at - 1] == sort[at]);
        a_key_turns_round_in_its_place(rest, column, at - 1);
    }
    assert(toggled(sort, column) =~= sort.update(at, (column, !sort[at].1)));
}

} // verus!
