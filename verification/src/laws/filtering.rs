//! Which rows a filter keeps, from what was typed to what is shown.
use vstd::prelude::*;
use crate::data::jsonl::maybe_text;
use crate::data::natural::before;
use crate::data::rows::{are_tests, asks, can_test, Predicate};
use crate::data::scan::{
    can_ask_all, cell_at, column_at, is_named_table, keeps, meets, number_above, number_below,
};
use crate::data::span::distinct;
use crate::data::typed::is_short;
use crate::laws::names;
use crate::search::{regex_accepts, regex_finds};
use crate::text::texts;
use crate::view::{Filter, Op, Value};

verus! {

/// How a value stands to what it is compared with.
pub struct Stands {
    pub before: bool,
    pub behind: bool,
}

/// Of two numbers one is not both below the other and above it.
pub open spec fn numbers_are_ordered(text: Seq<char>, number: Seq<char>) -> bool {
    !(number_below(text, number) == Some(true) && number_above(text, number) == Some(true))
}

/// How a cell stands to a value that cells are compared with, where it can be
/// compared: a number with a number, one of the words `true` and `false` with a
/// truth value, and any text with a text.
pub open spec fn stands(cell: Option<Seq<char>>, value: Value) -> Option<Stands> {
    match (cell, value) {
        (Some(text), Value::Number(n)) => if is_short(text) && is_short(n@) && number_below(text, n@) is Some
            && number_above(text, n@) is Some {
            Some(
                Stands {
                    before: number_below(text, n@) == Some(true),
                    behind: number_above(text, n@) == Some(true),
                },
            )
        } else {
            None
        },
        (Some(text), Value::Bool(b)) => if text == "true"@ {
            Some(Stands { before: false, behind: !b })
        } else if text == "false"@ {
            Some(Stands { before: b, behind: false })
        } else {
            None
        },
        (Some(text), Value::Text(s)) => Some(
            Stands { before: before(text, s@), behind: before(s@, text) },
        ),
        _ => None,
    }
}

/// A comparison with a value holds of a cell: it stands to the value as the
/// operator says. What cannot be compared is kept by none.
pub open spec fn compares_so(cell: Option<Seq<char>>, op: Op, value: Value) -> bool {
    match stands(cell, value) {
        None => false,
        Some(s) => {
            &&& op == Op::Lt ==> s.before
            &&& op == Op::Gt ==> s.behind
            &&& op == Op::Le ==> !s.behind
            &&& op == Op::Ge ==> !s.before
            &&& op == Op::Eq ==> !s.before && !s.behind
            &&& op == Op::Ne ==> s.before || s.behind
        },
    }
}

/// A condition that was typed holds of a cell.
pub open spec fn holds_of(cell: Option<Seq<char>>, op: Op, value: Value) -> bool {
    match value {
        Value::Empty => cell is Some <==> op == Op::Ne || op == Op::NotMatches,
        Value::Pattern(p) => cell matches Some(text) && (regex_finds(p@, text) <==> op != Op::NotMatches),
        _ => compares_so(cell, op, value),
    }
}

/// An operator that compares, rather than one that matches.
pub open spec fn is_comparison(op: Op) -> bool {
    op == Op::Eq || op == Op::Ne || op == Op::Lt || op == Op::Le || op == Op::Gt || op == Op::Ge
}

/// The values go with their operators, as they do wherever a condition is read.
pub open spec fn is_plausible(op: Op, value: Value) -> bool {
    (value is Number || value is Bool || value is Text) ==> is_comparison(op)
}

/// The first character that differs decides which of two texts comes first, and
/// of two where one goes on from the other the shorter does.
pub proof fn text_goes_by_its_first_difference(
    front: Seq<char>,
    a: char,
    b: char,
    x: Seq<char>,
    y: Seq<char>,
)
    requires
        a < b,
    ensures
        before(front + seq![a] + x, front + seq![b] + y),
        !before(front + seq![b] + y, front + seq![a] + x),
        before(front, front + seq![a] + x),
        !before(front + seq![a] + x, front),
        !before(front, front),
    decreases front.len(),
{
    let (p, q) = (front + seq![a] + x, front + seq![b] + y);
    if front.len() == 0 {
        assert(p[0] == a && q[0] == b);
    } else {
        let rest = front.drop_first();
        text_goes_by_its_first_difference(rest, a, b, x, y);
        assert(p.drop_first() =~= rest + seq![a] + x);
        assert(q.drop_first() =~= rest + seq![b] + y);
        assert(p[0] == front[0] && q[0] == front[0]);
    }
}

proof fn lemma_one_comes_first(a: Seq<char>, b: Seq<char>)
    ensures
        !(before(a, b) && before(b, a)),
        a == b || before(a, b) || before(b, a),
        a == b ==> !before(a, b),
    decreases a.len(),
{
    if a.len() == 0 || b.len() == 0 {
        if a.len() == b.len() {
            assert(a =~= b);
        }
    } else if a[0] == b[0] {
        lemma_one_comes_first(a.drop_first(), b.drop_first());
        if a.drop_first() == b.drop_first() {
            assert(a =~= seq![a[0]] + a.drop_first());
            assert(b =~= seq![b[0]] + b.drop_first());
        }
    }
}

/// A cell meets what a condition asks just where the condition holds of it.
pub proof fn a_condition_asks_what_it_says(cell: Option<Seq<char>>, op: Op, value: Value)
    requires
        is_plausible(op, value),
    ensures
        meets(asks(op, value), cell) == holds_of(cell, op, value),
{
    if cell is Some {
        assert("true"@ != "false"@) by {
            reveal_strlit("true");
            reveal_strlit("false");
            assert("true"@.len() == 4 && "false"@.len() == 5);
        }
    }
}

/// The rows that a filter keeps are those of which every one of its conditions
/// holds, whichever columns they are on.
pub proof fn a_filter_keeps_what_every_condition_holds_of(
    columns: Seq<Vec<Option<String>>>,
    names: Seq<String>,
    filter: Filter,
    tests: Seq<Predicate>,
    row: int,
)
    requires
        is_named_table(columns, names),
        distinct(names),
        can_test(filter, names),
        are_tests(tests, filter, names),
        forall|i: int|
            0 <= i < filter.conditions@.len() ==> is_plausible(
                (#[trigger] filter.conditions@[i]).op,
                filter.conditions@[i].value,
            ),
    ensures
        keeps(columns, names, tests, row) <==> forall|i: int|
            0 <= i < filter.conditions@.len() ==> holds_of(
                maybe_text(columns[(#[trigger] filter.conditions@[i]).column as int]@[row]),
                filter.conditions@[i].op,
                filter.conditions@[i].value,
            ),
{
    let all = texts(names);
    assert forall|i: int| 0 <= i < tests.len() implies meets(
        crate::data::rows::asked((#[trigger] tests[i]).test),
        cell_at(columns, names, tests[i].column@, row),
    ) == holds_of(
        maybe_text(columns[filter.conditions@[i].column as int]@[row]),
        filter.conditions@[i].op,
        filter.conditions@[i].value,
    ) by {
        let c = filter.conditions@[i];
        assert(c.column < names.len());
        assert forall|a: int, b: int| 0 <= a < b < all.len() implies (#[trigger] all[a]) != (
        #[trigger] all[b]) by {
            assert(names[a]@ != names[b]@);
        }
        names::lemma_found(all, c.column as int);
        assert(all[c.column as int] == names[c.column as int]@);
        let cell = maybe_text(columns[c.column as int]@[row]);
        a_condition_asks_what_it_says(cell, c.op, c.value);
    }
    if keeps(columns, names, tests, row) {
        assert forall|i: int| 0 <= i < filter.conditions@.len() implies holds_of(
            maybe_text(columns[(#[trigger] filter.conditions@[i]).column as int]@[row]),
            filter.conditions@[i].op,
            filter.conditions@[i].value,
        ) by {
            assert(meets(
                crate::data::rows::asked(tests[i].test),
                cell_at(columns, names, tests[i].column@, row),
            ));
        }
    }
    if forall|i: int|
        0 <= i < filter.conditions@.len() ==> holds_of(
            maybe_text(columns[(#[trigger] filter.conditions@[i]).column as int]@[row]),
            filter.conditions@[i].op,
            filter.conditions@[i].value,
        ) {
        assert forall|i: int| 0 <= i < tests.len() implies meets(
            crate::data::rows::asked(#[trigger] tests[i].test),
            cell_at(columns, names, tests[i].column@, row),
        ) by {
            assert(tests[i].test == tests[i].test);
            let c = filter.conditions@[i];
            assert(holds_of(maybe_text(columns[c.column as int]@[row]), c.op, c.value));
        }
    }
}

/// The six comparisons with one value share out the cells that can be compared
/// with it: one of less, equal and more holds of each, at most is less or equal,
/// at least is more or equal, and unequal is less or more. Of a cell that cannot
/// be compared none holds.
pub proof fn comparisons_fit_together(cell: Option<Seq<char>>, value: Value)
    requires
        value is Number || value is Bool || value is Text,
        cell is Some && value is Number ==> numbers_are_ordered(cell->Some_0, value->Number_0@),
    ensures
        ({
            let kept = |op: Op| meets(asks(op, value), cell);
            &&& kept(Op::Le) == (kept(Op::Lt) || kept(Op::Eq))
            &&& kept(Op::Ge) == (kept(Op::Gt) || kept(Op::Eq))
            &&& kept(Op::Ne) == (kept(Op::Lt) || kept(Op::Gt))
            &&& !(kept(Op::Lt) && kept(Op::Eq))
            &&& !(kept(Op::Gt) && kept(Op::Eq))
            &&& !(kept(Op::Lt) && kept(Op::Gt))
            &&& (kept(Op::Lt) || kept(Op::Eq) || kept(Op::Gt)) == (stands(cell, value) is Some)
            &&& cell is Some && value is Text ==> kept(Op::Eq) == (cell->Some_0 == value->Text_0@)
        }),
{
    if cell is Some && value is Text {
        lemma_one_comes_first(cell->Some_0, value->Text_0@);
    }
    a_condition_asks_what_it_says(cell, Op::Lt, value);
    a_condition_asks_what_it_says(cell, Op::Le, value);
    a_condition_asks_what_it_says(cell, Op::Eq, value);
    a_condition_asks_what_it_says(cell, Op::Ne, value);
    a_condition_asks_what_it_says(cell, Op::Gt, value);
    a_condition_asks_what_it_says(cell, Op::Ge, value);
}

/// A filter can be asked just where its patterns compile.
pub proof fn only_patterns_can_be_refused(names: Seq<String>, filter: Filter, tests: Seq<Predicate>)
    requires
        distinct(names),
        can_test(filter, names),
        are_tests(tests, filter, names),
        forall|i: int|
            0 <= i < filter.conditions@.len() ==> is_plausible(
                (#[trigger] filter.conditions@[i]).op,
                filter.conditions@[i].value,
            ),
    ensures
        can_ask_all(names, tests) <==> forall|i: int|
            0 <= i < filter.conditions@.len() ==> ((#[trigger] filter.conditions@[i]).value matches Value::Pattern(
                p,
            ) ==> regex_accepts(p@)),
{
    let all = texts(names);
    assert forall|i: int| 0 <= i < tests.len() implies (crate::data::scan::can_ask(
        crate::data::rows::asked((#[trigger] tests[i]).test),
    ) && column_at(all, tests[i].column@) is Some) == (filter.conditions@[i].value matches Value::Pattern(p)
        ==> regex_accepts(p@)) by {
        let c = filter.conditions@[i];
        assert(c.column < names.len());
        assert forall|a: int, b: int| 0 <= a < b < all.len() implies (#[trigger] all[a]) != (
        #[trigger] all[b]) by {
            assert(names[a]@ != names[b]@);
        }
        names::lemma_found(all, c.column as int);
        assert(all[c.column as int] == names[c.column as int]@);
    }
    if can_ask_all(names, tests) {
        assert forall|i: int| 0 <= i < filter.conditions@.len() implies ((
        #[trigger] filter.conditions@[i]).value matches Value::Pattern(p) ==> regex_accepts(p@)) by {
            assert(crate::data::scan::can_ask(crate::data::rows::asked(tests[i].test)));
        }
    }
    if forall|i: int|
        0 <= i < filter.conditions@.len() ==> ((#[trigger] filter.conditions@[i]).value matches Value::Pattern(
            p,
        ) ==> regex_accepts(p@)) {
        assert forall|i: int| 0 <= i < tests.len() implies crate::data::scan::can_ask(
            crate::data::rows::asked(#[trigger] tests[i].test),
        ) && column_at(all, tests[i].column@) is Some by {
            let c = filter.conditions@[i];
            assert(c.value matches Value::Pattern(p) ==> regex_accepts(p@));
            assert(tests[i].column == tests[i].column);
        }
    }
}

} // verus!
