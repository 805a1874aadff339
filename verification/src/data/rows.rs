//! Row sets: which rows of the file the viewer is looking at.
//!
//! A filter is resolved once into the sorted set of source rows it matches, and
//! paging becomes a gather. The rows arrive in batches from a scan of the file,
//! which gives progress, cancellation, a real row count, and row identity,
//! which is what lets the edit buffer survive a filter.
use vstd::prelude::*;
use crate::data::ordered::ascending;
use crate::view::{Filter, Op, Value};

verus! {

/// The rows a filter matched, in file order, as they arrive.
#[derive(Debug)]
pub struct RowSet {
    rows: Vec<usize>,
    complete: bool,
    /// How many rows this set may hold before it stops taking them.
    limit: usize,
    /// The limit was reached, so these are the first matches rather than all
    /// of them. Said out loud rather than left to look like the whole answer.
    truncated: bool,
}

/// What a row set holds.
#[verifier::ext_equal]
pub struct Matches {
    pub rows: Seq<usize>,
    pub complete: bool,
    pub limit: nat,
    pub truncated: bool,
}

impl Matches {
    pub open spec fn wf(self) -> bool {
        &&& ascending(self.rows)
        &&& self.rows.len() <= self.limit
        &&& self.limit >= 1
        &&& self.truncated ==> self.rows.len() == self.limit && self.complete
    }

    /// The batch goes on in file order where the set stops.
    pub open spec fn continued_by(self, batch: Seq<usize>) -> bool {
        ascending(self.rows + batch)
    }

    /// One batch taken in, or as much of it as there is room for.
    pub open spec fn extended(self, batch: Seq<usize>) -> Matches {
        if self.rows.len() + batch.len() > self.limit {
            Matches {
                rows: (self.rows + batch).take(self.limit as int),
                complete: true,
                truncated: true,
                ..self
            }
        } else {
            Matches { rows: self.rows + batch, ..self }
        }
    }
}

impl View for RowSet {
    type V = Matches;

    closed spec fn view(&self) -> Matches {
        Matches {
            rows: self.rows@,
            complete: self.complete,
            limit: self.limit as nat,
            truncated: self.truncated,
        }
    }
}

impl RowSet {
    /// A set that will hold at most `limit` rows, and at least one.
    ///
    /// One index per matching row is small until the matches are not. Past the
    /// limit the set keeps what it has and says it is partial, which leaves
    /// something usable on screen where refusing outright would not.
    pub fn new(limit: usize) -> (s: Self)
        ensures
            s@.wf(),
            s@ == (Matches {
                rows: Seq::empty(),
                complete: false,
                limit: if limit == 0 { 1 } else { limit as nat },
                truncated: false,
            }),
    {
        let s = RowSet {
            rows: Vec::new(),
            complete: false,
            limit: if limit == 0 { 1 } else { limit },
            truncated: false,
        };
        assert(s@.rows =~= Seq::empty());
        s
    }

    /// Whether a batch goes on from the rows that are here.
    pub fn follows(&self, batch: &Vec<usize>) -> (b: bool)
        requires
            self@.wf(),
        ensures
            b == self@.continued_by(batch@),
    {
        let ghost all = self@.rows + batch@;
        let ghost had = self@.rows.len();
        let n = self.rows.len();
        let mut i: usize = 0;
        assert(all.take(had as int) =~= self@.rows);
        while i < batch.len()
            invariant
                i <= batch.len(),
                n == had,
                had == self.rows@.len(),
                self.rows@ == self@.rows,
                all == self@.rows + batch@,
                ascending(all.take(had + i)),
            decreases batch.len() - i,
        {
            let over = if i > 0 {
                batch[i - 1] < batch[i]
            } else {
                n == 0 || self.rows[n - 1] < batch[i]
            };
            if !over {
                proof {
                    if had + i > 0 {
                        assert(!(all[had + i - 1] < all[had + i]));
                    }
                }
                return false;
            }
            proof {
                let next = all.take(had + i + 1);
                assert forall|a: int, b: int| 0 <= a < b < next.len() implies next[a] < next[b] by {
                    let upto = all.take(had + i as int);
                    if b == had + i {
                        assert(next[b] == batch@[i as int]);
                        if had + i > 0 {
                            assert(upto[had + i - 1] == all[had + i - 1]);
                            assert(a == had + i - 1 || upto[a] < upto[had + i - 1]);
                        }
                    } else {
                        assert(upto[a] < upto[b]);
                    }
                }
            }
            i += 1;
        }
        assert(all.take(had + i) =~= all);
        true
    }

    /// Take a batch from the background scan. Batches arrive in file order.
    ///
    /// Returns whether the scan is still wanted; false once the set is full.
    pub fn extend(&mut self, batch: Vec<usize>) -> (wanted: bool)
        requires
            old(self)@.wf(),
            old(self)@.continued_by(batch@),
        ensures
            final(self)@.wf(),
            final(self)@ == old(self)@.extended(batch@),
            wanted == (old(self)@.rows.len() + batch@.len() < old(self)@.limit),
    {
        let room: usize = self.limit - self.rows.len();
        let all = batch.len() <= room;
        let n: usize = if all { batch.len() } else { room };
        let mut i: usize = 0;
        assert(self.rows@ =~= old(self)@.rows + batch@.take(0));
        while i < n
            invariant
                i <= n <= batch.len(),
                self.rows@ == old(self)@.rows + batch@.take(i as int),
                self.complete == old(self).complete,
                self.limit == old(self).limit,
                self.truncated == old(self).truncated,
            decreases n - i,
        {
            self.rows.push(batch[i]);
            i += 1;
            assert(self.rows@ =~= old(self)@.rows + batch@.take(i as int));
        }
        proof {
            assert(batch@.take(batch@.len() as int) =~= batch@);
            assert(old(self)@.rows + batch@.take(room as int) =~= (old(self)@.rows + batch@).take(
                old(self).limit as int,
            ) || all);
        }
        if !all {
            self.truncated = true;
            self.complete = true;
            return false;
        }
        self.rows.len() < self.limit
    }

    /// Whether the set stopped short of every match.
    pub fn is_truncated(&self) -> (b: bool)
        ensures
            b == self@.truncated,
    {
        self.truncated
    }

    /// The scan is done.
    pub fn finish(&mut self)
        ensures
            final(self)@ == (Matches { complete: true, ..old(self)@ }),
    {
        self.complete = true;
    }

    pub fn is_complete(&self) -> (b: bool)
        ensures
            b == self@.complete,
    {
        self.complete
    }

    pub fn len(&self) -> (n: usize)
        ensures
            n == self@.rows.len(),
    {
        self.rows.len()
    }

    pub fn is_empty(&self) -> (b: bool)
        ensures
            b == (self@.rows.len() == 0),
    {
        self.rows.is_empty()
    }

    /// The source row shown at `display`.
    pub fn source(&self, display: usize) -> (row: Option<usize>)
        ensures
            row == if display < self@.rows.len() {
                Some(self@.rows[display as int])
            } else {
                None
            },
    {
        if display < self.rows.len() {
            Some(self.rows[display])
        } else {
            None
        }
    }

    /// Where a source row appears, if it survived the filter. The rows are in
    /// file order, so this is a binary search.
    pub fn display(&self, source: usize) -> (at: Option<usize>)
        requires
            self@.wf(),
        ensures
            match at {
                Some(i) => i < self@.rows.len() && self@.rows[i as int] == source,
                None => !self@.rows.contains(source),
            },
    {
        let mut low: usize = 0;
        let mut high: usize = self.rows.len();
        while low < high
            invariant
                ascending(self.rows@),
                low <= high <= self.rows.len(),
                forall|i: int| 0 <= i < low ==> self.rows@[i] < source,
                forall|i: int| high <= i < self.rows.len() ==> self.rows@[i] > source,
            decreases high - low,
        {
            let mid: usize = low + (high - low) / 2;
            if self.rows[mid] == source {
                return Some(mid);
            }
            if self.rows[mid] < source {
                low = mid + 1;
            } else {
                high = mid;
            }
        }
        None
    }

    /// The source rows for one page.
    pub fn page(&self, offset: usize, height: usize) -> (rows: &[usize])
        ensures
            ({
                let n = self@.rows.len();
                let start = if offset < n { offset as int } else { n as int };
                let end = if start + height < n { start + height } else { n as int };
                rows@ == self@.rows.subrange(start, end)
            }),
    {
        let n: usize = self.rows.len();
        let start: usize = if offset < n { offset } else { n };
        let end: usize = if height < n - start { start + height } else { n };
        vstd::slice::slice_subrange(self.rows.as_slice(), start, end)
    }
}

/// A row survives the filter just where it is shown: looking up a display
/// position and looking the row up again gives the position back.
pub proof fn display_and_source_are_inverse(m: Matches, display: int, other: int)
    requires
        m.wf(),
        0 <= display < m.rows.len(),
        0 <= other < m.rows.len(),
        m.rows[other] == m.rows[display],
    ensures
        other == display,
{
}

/// A set never holds more than its limit, holds what came first, and says it is
/// partial exactly when a match was left out.
pub proof fn a_set_is_partial_only_when_matches_were_dropped(m: Matches, batch: Seq<usize>)
    requires
        m.wf(),
        !m.truncated,
        m.continued_by(batch),
    ensures
        m.extended(batch).rows.len() <= m.limit,
        m.extended(batch).rows.is_prefix_of(m.rows + batch),
        m.extended(batch).truncated <==> m.extended(batch).rows != m.rows + batch,
{
    let all = m.rows + batch;
    assert(m.extended(batch).rows =~= all.take(m.extended(batch).rows.len() as int));
}

/// What one condition asks of a cell.
#[derive(Debug)]
pub enum Test {
    /// The cell holds nothing.
    Null,
    NotNull,
    /// The cell, read as text, matches a regular expression.
    Matches(String),
    NotMatches(String),
    /// The cell compares so with a value.
    Compare(Op, Value),
    /// The cell is itself the answer.
    Itself,
}

/// A condition tied to the name of its column.
#[derive(Debug)]
pub struct Predicate {
    pub column: String,
    pub test: Test,
}

/// What a test says, its texts taken as characters.
pub enum Asked {
    Null,
    NotNull,
    Matches(Seq<char>),
    NotMatches(Seq<char>),
    Number(Op, Seq<char>),
    Bool(Op, bool),
    Text(Op, Seq<char>),
    Itself,
    Never,
}

pub open spec fn asked(test: Test) -> Asked {
    match test {
        Test::Null => Asked::Null,
        Test::NotNull => Asked::NotNull,
        Test::Matches(p) => Asked::Matches(p@),
        Test::NotMatches(p) => Asked::NotMatches(p@),
        Test::Compare(op, Value::Number(n)) => Asked::Number(op, n@),
        Test::Compare(op, Value::Bool(b)) => Asked::Bool(op, b),
        Test::Compare(op, Value::Text(s)) => Asked::Text(op, s@),
        Test::Compare(_, _) => Asked::Never,
        Test::Itself => Asked::Itself,
    }
}

/// What an operator and a value ask for. A regular expression reads the cell as
/// text; an empty value asks for the cells with nothing in them.
pub open spec fn asks(op: Op, value: Value) -> Asked {
    match value {
        Value::Empty => if op == Op::Ne || op == Op::NotMatches {
            Asked::NotNull
        } else {
            Asked::Null
        },
        Value::Pattern(p) => if op == Op::NotMatches {
            Asked::NotMatches(p@)
        } else {
            Asked::Matches(p@)
        },
        Value::Number(n) => if op == Op::Matches || op == Op::NotMatches {
            Asked::Itself
        } else {
            Asked::Number(op, n@)
        },
        Value::Bool(b) => if op == Op::Matches || op == Op::NotMatches {
            Asked::Itself
        } else {
            Asked::Bool(op, b)
        },
        Value::Text(s) => if op == Op::Matches || op == Op::NotMatches {
            Asked::Itself
        } else {
            Asked::Text(op, s@)
        },
    }
}

fn compare(op: Op, value: Value) -> (test: Test)
    requires
        value is Number || value is Bool || value is Text,
    ensures
        asked(test) == asks(op, value),
{
    match op {
        // Handled before this point; a regular expression never reaches here.
        Op::Matches | Op::NotMatches => Test::Itself,
        _ => Test::Compare(op, value),
    }
}

fn one(op: Op, value: &Value) -> (test: Test)
    ensures
        asked(test) == asks(op, *value),
{
    match value {
        Value::Empty => match op {
            Op::Ne | Op::NotMatches => Test::NotNull,
            _ => Test::Null,
        },
        Value::Pattern(pattern) => match op {
            Op::NotMatches => Test::NotMatches(pattern.clone()),
            _ => Test::Matches(pattern.clone()),
        },
        Value::Number(n) => compare(op, Value::Number(n.clone())),
        Value::Bool(b) => compare(op, Value::Bool(*b)),
        Value::Text(s) => compare(op, Value::Text(s.clone())),
    }
}

/// There are conditions, and each is on a column that there is.
pub open spec fn can_test(filter: Filter, names: Seq<String>) -> bool {
    filter.conditions@.len() > 0 && forall|i: int|
        0 <= i < filter.conditions@.len() ==> (#[trigger] filter.conditions@[i]).column < names.len()
}

/// What a scan tests for a filter: every condition in turn, by the name of its
/// column.
pub open spec fn are_tests(tests: Seq<Predicate>, filter: Filter, names: Seq<String>) -> bool {
    tests.len() == filter.conditions@.len() && forall|i: int|
        0 <= i < tests.len() ==> (#[trigger] tests[i]).column@
            == names[filter.conditions@[i].column as int]@ && asked(tests[i].test) == asks(
            filter.conditions@[i].op,
            filter.conditions@[i].value,
        )
}

/// Turn a parsed filter into what the scan tests: every condition in turn, all
/// of which have to hold.
///
/// Returns `None` if a column index no longer exists, which can only happen if
/// the file was reopened under a different schema, or if there is no condition
/// at all.
pub fn predicate(filter: &Filter, names: &[String]) -> (out: Option<Vec<Predicate>>)
    ensures
        out is Some <==> can_test(*filter, names@),
        out matches Some(tests) ==> are_tests(tests@, *filter, names@),
{
    let mut tests: Vec<Predicate> = Vec::new();
    let mut i: usize = 0;
    while i < filter.conditions.len()
        invariant
            i <= filter.conditions.len(),
            tests@.len() == i,
            forall|k: int|
                0 <= k < i ==> (#[trigger] filter.conditions@[k]).column < names@.len(),
            forall|k: int|
                0 <= k < i ==> (#[trigger] tests@[k]).column@
                    == names@[filter.conditions@[k].column as int]@ && asked(tests@[k].test) == asks(
                    filter.conditions@[k].op,
                    filter.conditions@[k].value,
                ),
        decreases filter.conditions.len() - i,
    {
        let condition = &filter.conditions[i];
        if condition.column >= names.len() {
            return None;
        }
        tests.push(
            Predicate {
                column: names[condition.column].clone(),
                test: one(condition.op, &condition.value),
            },
        );
        i += 1;
    }
    if tests.is_empty() {
        return None;
    }
    Some(tests)
}

} // verus!
