//! Finding a column by its name.
use vstd::prelude::*;
use crate::data::scan::column_at;
use crate::data::store::name_at;

verus! {

pub(crate) proof fn lemma_not_found(names: Seq<Seq<char>>, name: Seq<char>)
    requires
        forall|a: int| 0 <= a < names.len() ==> #[trigger] names[a] != name,
    ensures
        column_at(names, name) is None,
    decreases names.len(),
{
    if names.len() > 0 {
        lemma_not_found(names.drop_last(), name);
    }
}

pub(crate) proof fn lemma_found(names: Seq<Seq<char>>, at: int)
    requires
        0 <= at < names.len(),
        forall|a: int, b: int| 0 <= a < b < names.len() ==> (#[trigger] names[a]) != (#[trigger] names[b]),
    ensures
        column_at(names, names[at]) == Some(at),
    decreases names.len(),
{
    let front = names.drop_last();
    if at < names.len() - 1 {
        lemma_found(front, at);
    } else {
        lemma_not_found(front, names[at]);
    }
}

/// A column is found by its name just where there is one of that name, and it is
/// the first.
pub proof fn a_name_leads_to_the_first_that_has_it(names: Seq<Seq<char>>, name: Seq<char>)
    ensures
        match column_at(names, name) {
            Some(at) => 0 <= at < names.len() && names[at] == name && forall|k: int|
                0 <= k < at ==> #[trigger] names[k] != name,
            None => forall|k: int| 0 <= k < names.len() ==> #[trigger] names[k] != name,
        },
        column_at(names, name) == name_at(names, name, 0),
{
    lemma_first(names, name);
    lemma_from(names, name, 0);
    if let Some(a) = column_at(names, name) {
        if let Some(b) = name_at(names, name, 0) {
            if a < b {
                assert(names[a] != name);
            } else if b < a {
                assert(names[b] != name);
            }
        } else {
            assert(names[a] != name);
        }
    } else if let Some(b) = name_at(names, name, 0) {
        assert(names[b] != name);
    }
}

proof fn lemma_first(names: Seq<Seq<char>>, name: Seq<char>)
    ensures
        match column_at(names, name) {
            Some(at) => 0 <= at < names.len() && names[at] == name && forall|k: int|
                0 <= k < at ==> #[trigger] names[k] != name,
            None => forall|k: int| 0 <= k < names.len() ==> #[trigger] names[k] != name,
        },
    decreases names.len(),
{
    if names.len() > 0 {
        let front = names.drop_last();
        lemma_first(front, name);
        match column_at(front, name) {
            Some(at) => {
                assert(front[at] == names[at]);
                assert forall|k: int| 0 <= k < at implies #[trigger] names[k] != name by {
                    assert(front[k] == names[k]);
                }
            },
            None => {
                assert forall|k: int| 0 <= k < front.len() implies #[trigger] names[k] != name by {
                    assert(front[k] == names[k]);
                }
            },
        }
    }
}

proof fn lemma_from(names: Seq<Seq<char>>, name: Seq<char>, from: int)
    requires
        0 <= from <= names.len(),
    ensures
        match name_at(names, name, from) {
            Some(at) => from <= at < names.len() && names[at] == name && forall|k: int|
                from <= k < at ==> #[trigger] names[k] != name,
            None => forall|k: int| from <= k < names.len() ==> #[trigger] names[k] != name,
        },
    decreases names.len() - from,
{
    if from < names.len() && names[from] != name {
        lemma_from(names, name, from + 1);
    }
}

} // verus!
