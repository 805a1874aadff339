//! What a table's view asks of work on the whole of its file.
use vstd::prelude::*;
use crate::data::jsonl::ColumnType;
use crate::data::lake_db;
use crate::data::rows::{are_tests, can_test, predicate, Predicate};
use crate::data::scan::{
    can_ask_all, column_at, height_of, is_named_table, keeps, keys_known, rows_sorted, sorted_rows,
};
use crate::data::store::{named_keys, Store};
use crate::data::typed::MOST_ROWS;
use crate::text::texts;

verus! {

/// A sort of a whole table: its columns, the conditions on its rows, and the
/// keys. It holds all it needs, so that it can be done apart from the table.
#[derive(Debug)]
pub struct SortJob {
    pub names: Vec<String>,
    pub kinds: Vec<ColumnType>,
    pub tests: Vec<Predicate>,
    /// Columns, and whether each ascends.
    pub keys: Vec<(String, bool)>,
}

impl SortJob {
    pub open spec fn wf(self) -> bool {
        self.names@.len() == self.kinds@.len()
    }

    /// The rows of the table that meet every condition, sorted by the keys.
    pub fn run(&self, columns: &Vec<Vec<Option<String>>>) -> (out: Option<Vec<usize>>)
        requires
            self.wf(),
            is_named_table(columns@, self.names@),
        ensures
            out is Some <==> can_ask_all(self.names@, self.tests@) && keys_known(
                self.names@,
                self.keys@,
            ) && height_of(columns@) <= MOST_ROWS,
            out matches Some(rows) ==> {
                &&& rows@.no_duplicates()
                &&& forall|row: usize| #[trigger]
                    rows@.contains(row) <==> row < height_of(columns@) && keeps(
                        columns@,
                        self.names@,
                        self.tests@,
                        row as int,
                    )
                &&& rows_sorted(columns@, self.names@, self.kinds@, self.keys@, rows@)
            },
    {
        sorted_rows(
            columns,
            self.names.as_slice(),
            self.kinds.as_slice(),
            self.tests.as_slice(),
            self.keys.as_slice(),
        )
    }
}

/// A column whose name stands among others is found among them.
proof fn lemma_found(names: Seq<Seq<char>>, at: int)
    requires
        0 <= at < names.len(),
    ensures
        column_at(names, names[at]) is Some,
    decreases names.len(),
{
    if at < names.len() - 1 {
        lemma_found(names.drop_last(), at);
    }
}

/// Every key by name is on a column that there is.
proof fn lemma_keys_found(names: Seq<Seq<char>>, sort: Seq<(usize, bool)>, k: int)
    requires
        0 <= k < named_keys(names, sort).len(),
    ensures
        column_at(names, named_keys(names, sort)[k].0) is Some,
    decreases sort.len(),
{
    if k < named_keys(names, sort.drop_last()).len() {
        lemma_keys_found(names, sort.drop_last(), k);
    } else {
        lemma_found(names, sort.last().0 as int);
    }
}

impl Store {
    /// The conditions of the view, as a scan tests them. `None` without any, and
    /// where one is on a column that the file no longer has.
    pub fn conditions(&self) -> (out: Option<Vec<Predicate>>)
        ensures
            match out {
                Some(tests) => self.view.filter matches Some(filter) && can_test(filter, self.names@)
                    && are_tests(tests@, filter, self.names@),
                None => self.view.filter matches Some(filter) ==> !can_test(filter, self.names@),
            },
    {
        match &self.view.filter {
            Some(filter) => predicate(filter, self.names.as_slice()),
            None => None,
        }
    }

    /// The sort that the view asks for. Conditions that cannot be put keep
    /// nothing out.
    pub fn sort_job(&self) -> (job: SortJob)
        requires
            self.wf(),
        ensures
            job.wf(),
            texts(job.names@) == texts(self.names@),
            job.kinds@ == self.types@,
            lake_db::sort_keys(job.keys@) == named_keys(texts(self.names@), self.view.sort@),
            keys_known(job.names@, job.keys@),
            match self.view.filter {
                Some(filter) => if can_test(filter, self.names@) {
                    are_tests(job.tests@, filter, self.names@)
                } else {
                    job.tests@.len() == 0
                },
                None => job.tests@.len() == 0,
            },
    {
        let mut names: Vec<String> = Vec::new();
        let mut i: usize = 0;
        while i < self.names.len()
            invariant
                i <= self.names.len(),
                names@.len() == i,
                forall|k: int| 0 <= k < i ==> (#[trigger] names@[k])@ == self.names@[k]@,
            decreases self.names.len() - i,
        {
            names.push(self.names[i].clone());
            i += 1;
        }
        assert(texts(names@) =~= texts(self.names@));
        let mut kinds: Vec<ColumnType> = Vec::new();
        kinds.extend_from_slice(self.types.as_slice());
        assert(kinds@ =~= self.types@);
        let tests = match self.conditions() {
            Some(tests) => tests,
            None => Vec::new(),
        };
        let keys = self.sort_keys();
        proof {
            let named = named_keys(texts(self.names@), self.view.sort@);
            assert forall|k: int| 0 <= k < keys@.len() implies column_at(
                texts(names@),
                (#[trigger] keys@[k]).0@,
            ) is Some by {
                assert(lake_db::sort_keys(keys@)[k] == (keys@[k].0@, keys@[k].1));
                lemma_keys_found(texts(self.names@), self.view.sort@, k);
            }
        }
        SortJob { names, kinds, tests, keys }
    }
}

} // verus!
