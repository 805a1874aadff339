//! The queries that a lake is asked, and how its answers are read.
use vstd::prelude::*;
use crate::data::jsonl::ColumnType;
use crate::data::lake_db::{
    covers, grouped, ident, keys_in, literal, matches_text, nearest, order_by, search_predicate,
    shown_type, size_text, unit_of, upto, FileSpan, LakeSource, Partition, Piece, TableInfo,
};
use crate::data::lake_values::{column_kind, holds, Datum, Series};
use crate::data::jsonl::maybe_text;
use crate::laws::values::lemma_decimal_digits;
use crate::text::{decimal_text, join_text, signed_text};

verus! {

/// One more text behind others, the separator between them.
proof fn lemma_one_more(parts: Seq<Seq<char>>, part: Seq<char>, separator: Seq<char>)
    ensures
        join_text(seq![part], separator) == part,
        parts.len() > 0 ==> join_text(parts.push(part), separator) == join_text(parts, separator) + separator
            + part,
{
    assert(parts.push(part).drop_last() =~= parts);
}

/// A search of one column asks for a match in it. A search of every column asks
/// for a match in the first or in the second or in any of the others.
pub proof fn a_search_of_every_column_asks_for_any(
    pattern: Seq<char>,
    columns: Seq<Seq<char>>,
    column: Seq<char>,
)
    ensures
        search_predicate(Some(column), pattern, columns) == matches_text(column, pattern),
        search_predicate(None, pattern, seq![column]) == matches_text(column, pattern),
        columns.len() > 0 ==> search_predicate(None, pattern, columns.push(column)) == search_predicate(
            None,
            pattern,
            columns,
        ) + " OR "@ + matches_text(column, pattern),
{
    let f = |c: Seq<char>| matches_text(c, pattern);
    lemma_one_more(columns.map_values(f), matches_text(column, pattern), " OR "@);
    assert(columns.push(column).map_values(f) =~= columns.map_values(f).push(
        matches_text(column, pattern),
    ));
    assert(seq![column].map_values(f) =~= seq![matches_text(column, pattern)]);
}

/// A match is asked of the column's text, whatever its type, without regard to
/// case.
pub proof fn a_match_is_asked_of_the_text(column: Seq<char>, pattern: Seq<char>)
    ensures
        matches_text(column, pattern) == "regexp_matches(CAST("@ + ident(column) + " AS VARCHAR), "@
            + literal(pattern) + ", 'i')"@,
{
}

/// A table is ordered by each key in turn, ascending or descending as it says.
pub proof fn each_key_is_asked_for_in_its_direction(
    keys: Seq<(Seq<char>, bool)>,
    name: Seq<char>,
    ascends: bool,
)
    ensures
        ({
            let one = ident(name) + (if ascends {
                " ASC"@
            } else {
                " DESC"@
            });
            &&& order_by(seq![(name, ascends)]) == one
            &&& keys.len() > 0 ==> order_by(keys.push((name, ascends))) == order_by(keys) + ", "@ + one
        }),
{
    let f = |k: (Seq<char>, bool)| ident(k.0) + " "@ + (if k.1 { "ASC"@ } else { "DESC"@ });
    let one = ident(name) + (if ascends {
        " ASC"@
    } else {
        " DESC"@
    });
    reveal_strlit(" ASC");
    reveal_strlit(" DESC");
    reveal_strlit("ASC");
    reveal_strlit("DESC");
    reveal_strlit(" ");
    assert(f((name, ascends)) =~= one);
    lemma_one_more(keys.map_values(f), one, ", "@);
    assert(keys.push((name, ascends)).map_values(f) =~= keys.map_values(f).push(one));
    assert(seq![(name, ascends)].map_values(f) =~= seq![one]);
}

/// A table is asked for whole, or where a partition's predicate holds; without a
/// key in no order, with one in the order of the keys.
pub proof fn a_table_is_asked_for_whole_or_in_part(source: LakeSource, keys: Seq<(Seq<char>, bool)>)
    ensures
        source.filter is None ==> source.relation_text() == source.table@,
        source.filter matches Some(f) ==> source.relation_text() == source.table@ + " WHERE "@ + f@,
        source.ordered_text(Seq::empty()) == "SELECT * FROM "@ + source.relation_text(),
        keys.len() > 0 ==> source.ordered_text(keys) == source.ordered_text(Seq::empty()) + " ORDER BY "@
            + order_by(keys),
{
}

/// A partition is the rows where every one of its columns holds its value.
pub proof fn a_partition_is_where_all_its_values_hold(p: Partition, q: Partition, name: Seq<char>, value: Seq<char>)
    requires
        q.pairs() == p.pairs().push((name, value)),
    ensures
        p.pairs().len() == 0 ==> q.predicate() == ident(name) + " = "@ + literal(value) && q.label_text()
            == name + "="@ + value,
        p.pairs().len() > 0 ==> q.predicate() == p.predicate() + " AND "@ + (ident(name) + " = "@ + literal(
            value,
        )) && q.label_text() == p.label_text() + "/"@ + (name + "="@ + value),
{
    let f = |v: (Seq<char>, Seq<char>)| ident(v.0) + " = "@ + literal(v.1);
    let g = |v: (Seq<char>, Seq<char>)| v.0 + "="@ + v.1;
    let pair = (name, value);
    lemma_one_more(p.pairs().map_values(f), f(pair), " AND "@);
    lemma_one_more(p.pairs().map_values(g), g(pair), "/"@);
    assert(q.pairs().map_values(f) =~= p.pairs().map_values(f).push(f(pair)));
    assert(q.pairs().map_values(g) =~= p.pairs().map_values(g).push(g(pair)));
    if p.pairs().len() == 0 {
        assert(q.pairs().map_values(f) =~= seq![f(pair)]);
        assert(q.pairs().map_values(g) =~= seq![g(pair)]);
    }
}

/// A table is known by its schema and its name, and in a query by both in quotes
/// inside the lake.
pub proof fn a_table_is_named_within_its_schema(t: TableInfo)
    ensures
        t.qualified() == t.schema@ + "."@ + t.name@,
        t.reference() == ident("lake"@) + "."@ + ident(t.schema@) + "."@ + ident(t.name@),
{
}

/// Digits without what groups them.
pub open spec fn ungrouped(text: Seq<char>) -> Seq<char> {
    text.filter(|c: char| c != ',')
}

proof fn lemma_ungrouped_add(a: Seq<char>, b: Seq<char>)
    ensures
        ungrouped(a + b) == ungrouped(a) + ungrouped(b),
    decreases b.len(),
{
    reveal(Seq::filter);
    if b.len() == 0 {
        assert(a + b =~= a);
        assert(ungrouped(a) + ungrouped(b) =~= ungrouped(a));
    } else {
        lemma_ungrouped_add(a, b.drop_last());
        assert((a + b).drop_last() =~= a + b.drop_last());
        assert(ungrouped(a + b) =~= ungrouped(a) + ungrouped(b));
    }
}

proof fn lemma_ungrouped_digits(text: Seq<char>)
    requires
        forall|i: int| 0 <= i < text.len() ==> #[trigger] text[i] != ',',
    ensures
        ungrouped(text) == text,
    decreases text.len(),
{
    reveal(Seq::filter);
    if text.len() > 0 {
        let front = text.drop_last();
        assert forall|i: int| 0 <= i < front.len() implies #[trigger] front[i] != ',' by {
            assert(front[i] == text[i]);
        }
        lemma_ungrouped_digits(front);
        assert(text[text.len() - 1] != ',');
    }
    assert(ungrouped(text) =~= text);
}

/// A number in groups is the number: without the commas its digits are left, and
/// each comma stands before three of them.
pub proof fn grouping_keeps_the_digits(n: nat)
    ensures
        ungrouped(grouped(n)) == decimal_text(n),
        n < 1000 ==> grouped(n).len() <= 3,
        n >= 1000 ==> {
            let g = grouped(n);
            &&& g.len() >= 5
            &&& g[g.len() - 4] == ','
            &&& g.take(g.len() - 4) == grouped(n / 1000)
        },
    decreases n,
{
    lemma_decimal_digits(n);
    if n < 1000 {
        assert forall|i: int| 0 <= i < decimal_text(n).len() implies #[trigger] decimal_text(n)[i] != ',' by {
            assert('0' <= decimal_text(n)[i] <= '9');
        }
        lemma_ungrouped_digits(decimal_text(n));
        assert(n < 10 ==> decimal_text(n).len() == 1);
        assert(10 <= n < 100 ==> decimal_text(n / 10).len() == 1);
        assert(n >= 100 ==> decimal_text(n / 10 / 10).len() == 1);
        assert(n >= 100 ==> decimal_text(n / 10).len() == 2);
    } else {
        grouping_keeps_the_digits(n / 1000);
        let (a, b, c) = (
            (48 + n / 100 % 10) as u8 as char,
            (48 + n / 10 % 10) as u8 as char,
            (48 + n % 10) as u8 as char,
        );
        let front = grouped(n / 1000);
        let g = grouped(n);
        assert(g =~= front + (seq![','] + seq![a, b, c]));
        lemma_ungrouped_add(front, seq![','] + seq![a, b, c]);
        lemma_ungrouped_add(seq![','], seq![a, b, c]);
        assert(ungrouped(seq![',']) =~= Seq::empty()) by {
            reveal(Seq::filter);
            assert(seq![','].drop_last() =~= Seq::<char>::empty());
            assert(ungrouped(Seq::<char>::empty()) =~= Seq::<char>::empty());
        }
        let tail = seq![a, b, c];
        assert forall|i: int| 0 <= i < tail.len() implies #[trigger] tail[i] != ',' by {
            assert('0' <= a <= '9' && '0' <= b <= '9' && '0' <= c <= '9');
        }
        lemma_ungrouped_digits(tail);
        assert(n / 10 / 10 / 10 == n / 1000);
        assert(n / 10 / 10 == n / 100);
        let d1 = decimal_text(n / 100);
        let d2 = decimal_text(n / 10);
        assert(d1 == decimal_text(n / 1000).push(a));
        assert(d2 == d1.push(b));
        assert(decimal_text(n) == d2.push(c));
        assert(ungrouped(g) =~= decimal_text(n));
        assert(g.take(g.len() - 4) =~= front);
    }
}

/// A size is shown in a unit that it is at least one and, but for the largest,
/// less than a thousand and twenty-four of.
pub proof fn a_size_is_shown_in_a_unit_that_suits_it(bytes: nat)
    requires
        bytes >= 1024,
    ensures
        ({
            let (unit, name) = unit_of(bytes);
            &&& unit <= bytes
            &&& name != "TB"@ ==> bytes < unit * 1024
            &&& (unit == 1024 && name == "KB"@) || (unit == 1024 * 1024 && name == "MB"@) || (unit == 1024
                * 1024 * 1024 && name == "GB"@) || (unit == 1024 * 1024 * 1024 * 1024 && name == "TB"@)
        }),
        bytes < 1024 * 1024 ==> unit_of(bytes).1 == "KB"@,
{
}

/// A size in tenths of its unit is off by no more than half a tenth.
pub proof fn a_size_is_rounded_to_the_nearest_tenth(n: nat, d: nat)
    requires
        d > 0,
    ensures
        2 * (nearest(n, d) * d) <= 2 * n + d,
        2 * n <= 2 * (nearest(n, d) * d) + d,
{
    let (q, r) = (n / d, n % d);
    assert(n == q * d + r && r < d) by (nonlinear_arith)
        requires
            d > 0,
            q == n / d,
            r == n % d,
    ;
    assert((q + 1) * d == q * d + d) by (nonlinear_arith);
}

/// Few bytes are shown as bytes, and more as tenths of a unit.
pub proof fn a_size_is_shown_so(bytes: nat)
    ensures
        bytes < 1024 ==> size_text(bytes) == decimal_text(bytes) + " B"@,
        bytes >= 1024 ==> {
            let (unit, name) = unit_of(bytes);
            let tenths = nearest(bytes * 10, unit);
            size_text(bytes) == decimal_text(tenths / 10) + "."@ + decimal_text(tenths % 10) + " "@ + name
        },
{
}

/// Text up to a character: none of it is that character, and it ends where the
/// text does or the character stands.
pub proof fn upto_a_character(text: Seq<char>, stop: char)
    ensures
        ({
            let front = upto(text, stop);
            &&& front.len() <= text.len()
            &&& front == text.take(front.len() as int)
            &&& !front.contains(stop)
            &&& front.len() < text.len() ==> text[front.len() as int] == stop
        }),
    decreases text.len(),
{
    let front = upto(text, stop);
    if text.len() > 0 && text[0] != stop {
        let rest = text.skip(1);
        upto_a_character(rest, stop);
        assert(front =~= seq![text[0]] + upto(rest, stop));
        assert(front =~= text.take(front.len() as int));
        if front.contains(stop) {
            let i = choose|i: int| 0 <= i < front.len() && front[i] == stop;
            assert(upto(rest, stop)[i - 1] == stop);
        }
    } else {
        assert(front =~= text.take(0));
    }
}

/// A directory of a file's path that sets a key to a value names the key, and one
/// that sets none names nothing.
pub proof fn a_path_names_the_keys_it_sets(parts: Seq<Seq<char>>, key: Seq<char>, value: Seq<char>)
    requires
        !key.contains('='),
    ensures
        keys_in(parts.push(key + seq!['='] + value)) == keys_in(parts).push(key),
        keys_in(parts.push(key)) == keys_in(parts),
        keys_in(Seq::empty()).len() == 0,
{
    let part = key + seq!['='] + value;
    assert(parts.push(part).drop_last() =~= parts);
    assert(parts.push(key).drop_last() =~= parts);
    assert(part[key.len() as int] == '=');
    upto_a_character(part, '=');
    let front = upto(part, '=');
    if front.len() < key.len() {
        assert(part[front.len() as int] == key[front.len() as int]);
        assert(key.contains(key[front.len() as int]));
    } else if front.len() > key.len() {
        assert(front[key.len() as int] == part[key.len() as int]);
    }
    assert(front =~= key);
}

/// A type of the database is shown as numbers, truth values or text.
pub proof fn database_types_are_shown_so(head: Seq<char>)
    ensures
        shown_type(head) == ColumnType::Bool <==> head == "BOOLEAN"@,
        shown_type(head) == ColumnType::Float ==> head == "FLOAT"@ || head == "DOUBLE"@ || head == "REAL"@
            || head == "DECIMAL"@ || head == "NUMERIC"@,
        head == "TINYINT"@ || head == "SMALLINT"@ || head == "INTEGER"@ || head == "BIGINT"@ || head
            == "HUGEINT"@ || head == "UTINYINT"@ || head == "USMALLINT"@ || head == "UINTEGER"@ || head
            == "UBIGINT"@ || head == "UHUGEINT"@ ==> shown_type(head) == ColumnType::Int,
        shown_type(head) == ColumnType::Int ==> head == "TINYINT"@ || head == "SMALLINT"@ || head
            == "INTEGER"@ || head == "BIGINT"@ || head == "HUGEINT"@ || head == "UTINYINT"@ || head
            == "USMALLINT"@ || head == "UINTEGER"@ || head == "UBIGINT"@ || head == "UHUGEINT"@,
        head == "FLOAT"@ || head == "DOUBLE"@ || head == "REAL"@ || head == "DECIMAL"@ || head == "NUMERIC"@
            ==> shown_type(head) == ColumnType::Float,
{
    reveal_strlit("BOOLEAN");
    reveal_strlit("TINYINT");
    reveal_strlit("SMALLINT");
    reveal_strlit("INTEGER");
    reveal_strlit("BIGINT");
    reveal_strlit("HUGEINT");
    reveal_strlit("UTINYINT");
    reveal_strlit("USMALLINT");
    reveal_strlit("UINTEGER");
    reveal_strlit("UBIGINT");
    reveal_strlit("UHUGEINT");
    reveal_strlit("FLOAT");
    reveal_strlit("DOUBLE");
    reveal_strlit("REAL");
    reveal_strlit("DECIMAL");
    reveal_strlit("NUMERIC");
    assert("BOOLEAN"@[0] == 'B' && "BOOLEAN"@[1] == 'O');
    assert("TINYINT"@[0] == 'T');
    assert("SMALLINT"@[0] == 'S');
    assert("INTEGER"@[0] == 'I');
    assert("BIGINT"@[0] == 'B' && "BIGINT"@[1] == 'I');
    assert("HUGEINT"@[0] == 'H');
    assert("UTINYINT"@[0] == 'U');
    assert("USMALLINT"@[0] == 'U');
    assert("UINTEGER"@[0] == 'U');
    assert("UBIGINT"@[0] == 'U');
    assert("UHUGEINT"@[0] == 'U');
    assert("FLOAT"@[0] == 'F');
    assert("DOUBLE"@[0] == 'D');
    assert("REAL"@[0] == 'R');
    assert("DECIMAL"@[0] == 'D');
    assert("NUMERIC"@[0] == 'N');
}

/// Every row asked for is in one of the pieces, at its place in the file that
/// holds it, and a piece holds no row that was not asked for.
pub proof fn pieces_hold_the_rows_asked_for(
    pieces: Seq<Piece>,
    files: Seq<FileSpan>,
    from: int,
    to: int,
    row: int,
)
    requires
        covers(pieces, files, from, to),
    ensures
        from <= to,
        from <= row < to <==> exists|i: int|
            0 <= i < pieces.len() && #[trigger] holds_row(pieces[i], files, row),
        forall|i: int| 0 <= i < pieces.len() ==> (#[trigger] pieces[i]).file < files.len() && pieces[i].local
            + pieces[i].take <= files[pieces[i].file as int].rows,
    decreases pieces.len(),
{
    if pieces.len() > 0 {
        let front = pieces.drop_last();
        let p = pieces.last();
        let middle = files[p.file as int].start + p.local;
        pieces_hold_the_rows_asked_for(front, files, from, middle, row);
        assert(holds_row(pieces[pieces.len() - 1], files, row) <==> middle <= row < to);
        assert forall|i: int| 0 <= i < front.len() implies #[trigger] holds_row(front[i], files, row)
            == holds_row(pieces[i], files, row) by {
            assert(front[i] == pieces[i]);
        }
        if from <= row < middle {
            let i = choose|i: int| 0 <= i < front.len() && #[trigger] holds_row(front[i], files, row);
            assert(holds_row(pieces[i], files, row));
        }
        if exists|i: int| 0 <= i < pieces.len() && #[trigger] holds_row(pieces[i], files, row) {
            let i = choose|i: int| 0 <= i < pieces.len() && #[trigger] holds_row(pieces[i], files, row);
            if i < front.len() {
                assert(holds_row(front[i], files, row));
            }
        }
        assert forall|i: int| 0 <= i < pieces.len() implies (#[trigger] pieces[i]).file < files.len()
            && pieces[i].local + pieces[i].take <= files[pieces[i].file as int].rows by {
            if i < front.len() {
                assert(front[i] == pieces[i]);
            }
        }
    }
}

/// A row of the table is one of those that a piece takes from its file.
pub open spec fn holds_row(piece: Piece, files: Seq<FileSpan>, row: int) -> bool {
    let start = files[piece.file as int].start;
    start + piece.local <= row < start + piece.local + piece.take
}

/// A column of the database is of the kind of its first value that is one, and a
/// column of nothing is text.
pub proof fn the_first_value_decides_the_kind(nothing: Seq<Datum>, value: Datum, rest: Seq<Datum>)
    requires
        forall|i: int| 0 <= i < nothing.len() ==> (#[trigger] nothing[i]) is Null,
        !(value is Null),
    ensures
        column_kind(nothing) == ColumnType::Text,
        column_kind(nothing + seq![value] + rest) == match value {
            Datum::Bool(_) => ColumnType::Bool,
            Datum::Int { .. } => ColumnType::Int,
            Datum::Unsigned { .. } => ColumnType::Int,
            Datum::Real { .. } => ColumnType::Float,
            _ => ColumnType::Text,
        },
    decreases nothing.len(),
{
    let all = nothing + seq![value] + rest;
    if nothing.len() > 0 {
        let less = nothing.skip(1);
        assert forall|i: int| 0 <= i < less.len() implies (#[trigger] less[i]) is Null by {
            assert(less[i] == nothing[i + 1]);
        }
        the_first_value_decides_the_kind(less, value, rest);
        assert(nothing[0] is Null);
        assert(all[0] == nothing[0]);
        assert(all.skip(1) =~= less + seq![value] + rest);
    } else {
        assert(all[0] == value);
    }
}

/// A value keeps what it is in a column of its own kind, and one of another kind
/// is nothing there, but that whole numbers can stand among others and anything
/// has a text.
pub proof fn a_value_stands_in_a_column_of_its_kind(column: Series, values: Seq<Datum>, i: int)
    requires
        holds(column, values),
        0 <= i < values.len(),
    ensures
        match column {
            Series::Bools(cells) => cells@[i] == match values[i] {
                Datum::Bool(b) => Some(b),
                _ => None,
            },
            Series::Ints(cells) => cells@[i] == match values[i] {
                Datum::Int { value, .. } => Some(value),
                Datum::Unsigned { value, .. } => if value <= i64::MAX {
                    Some(value as i64)
                } else {
                    None
                },
                _ => None,
            },
            Series::Reals(cells) => maybe_text(cells@[i]) == match values[i] {
                Datum::Real { value, .. } => Some(value@),
                Datum::Int { value, .. } => Some(signed_text(value as int)),
                Datum::Unsigned { value, .. } => if value <= i64::MAX {
                    Some(signed_text(value as int))
                } else {
                    None
                },
                _ => None,
            },
            Series::Texts(cells) => maybe_text(cells@[i]) == match values[i] {
                Datum::Null => None,
                Datum::Text(t) => Some(t@),
                Datum::Bool(true) => Some("true"@),
                Datum::Bool(false) => Some("false"@),
                Datum::Blob(n) => Some("<"@ + decimal_text(n as nat) + " bytes>"@),
                Datum::Int { printed, .. } => Some(printed@),
                Datum::Unsigned { printed, .. } => Some(printed@),
                Datum::Real { printed, .. } => Some(printed@),
                Datum::Other(printed) => Some(printed@),
            },
        },
{
}

} // verus!
