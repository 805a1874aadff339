//! Searching: a pattern, the rows it matches as they arrive, and the steps from
//! one match to the next.
use vstd::prelude::*;
use crate::data::ordered::ascending;

verus! {

/// `regex::Error`, why a pattern does not compile.
#[verifier::external_type_specification]
#[verifier::external_body]
pub struct ExRegexError(regex::Error);

/// Whether `regex::Regex::new` compiles a pattern.
pub uninterp spec fn regex_accepts(pattern: Seq<char>) -> bool;

/// Compiles a pattern with `regex::Regex::new`. Whether it succeeds depends on
/// the pattern alone.
#[verifier::external_body]
pub(crate) fn compile(pattern: &str) -> (compiled: Result<(), regex::Error>)
    ensures
        compiled is Ok <==> regex_accepts(pattern@),
{
    regex::Regex::new(pattern).map(|_regex| ())
}

/// What `regex::Error` says, as text, of a pattern that does not compile.
pub uninterp spec fn regex_error(pattern: Seq<char>) -> Seq<char>;

/// Compiles a pattern with `regex::Regex::new` for the sake of the error alone,
/// and gives the error as its `Display` writes it. That text depends on the
/// pattern alone.
#[verifier::external_body]
pub(crate) fn complaint(pattern: &str) -> (text: Option<String>)
    ensures
        match text {
            Some(text) => !regex_accepts(pattern@) && text@ == regex_error(pattern@),
            None => regex_accepts(pattern@),
        },
{
    regex::Regex::new(pattern).err().map(|e| e.to_string())
}

/// Whether a regular expression matches somewhere in a text.
pub uninterp spec fn regex_finds(pattern: Seq<char>, text: Seq<char>) -> bool;

/// Compiles a pattern with `regex::Regex::new`, and asks `regex::Regex::is_match`
/// of each cell that holds something. The answer depends on the pattern and the
/// cell alone; there is none where the pattern does not compile.
#[verifier::external_body]
pub(crate) fn hits(pattern: &str, cells: &Vec<Option<String>>) -> (found: Option<Vec<Option<bool>>>)
    ensures
        match found {
            Some(found) => regex_accepts(pattern@) && found@.len() == cells@.len() && forall|k: int|
                0 <= k < cells@.len() ==> #[trigger] found@[k] == (match cells@[k] {
                    Some(text) => Some(regex_finds(pattern@, text@)),
                    None => None,
                }),
            None => !regex_accepts(pattern@),
        },
{
    let regex = regex::Regex::new(pattern).ok()?;
    let found = |cell: &Option<String>| cell.as_ref().map(|text| regex.is_match(text));
    Some(cells.iter().map(found).collect())
}

/// A pattern that compiles.
pub struct SearchQuery {
    pub raw: String,
}

impl SearchQuery {
    /// A pattern that compiles, or why it does not.
    pub fn new(raw: String) -> (q: Result<Self, regex::Error>)
        ensures
            q is Ok <==> regex_accepts(raw@),
            q matches Ok(query) ==> query.raw@ == raw@,
    {
        match compile(raw.as_str()) {
            Ok(()) => Ok(SearchQuery { raw }),
            Err(e) => Err(e),
        }
    }
}

#[derive(Clone, Copy, Debug, PartialEq, Eq, Structural)]
pub enum SearchStatus {
    /// Background scan still in progress; more matches may arrive.
    Searching,
    /// Scan finished; the matching rows are the complete result set.
    Complete,
}

pub struct SearchState {
    pub query: SearchQuery,
    /// The display column searched, or all of them.
    pub column: Option<usize>,
    /// Sorted row numbers that contain at least one match. Grows as background
    /// chunks arrive.
    pub matching_rows: Vec<usize>,
    /// Index into `matching_rows` for the currently selected match.
    pub current_idx: usize,
    pub status: SearchStatus,
    /// Set once the cursor has jumped to the first match after the initial
    /// results arrived.
    pub initial_jump_done: bool,
}

/// The first of the sorted rows that is past `row`, by its index, and the first
/// of all where there is none.
pub open spec fn is_next(rows: Seq<usize>, row: usize, at: int) -> bool {
    &&& 0 <= at < rows.len()
    &&& if rows.last() <= row {
        at == 0
    } else {
        rows[at] > row && (at > 0 ==> rows[at - 1] <= row)
    }
}

/// The last of the sorted rows that is before `row`, by its index, and the last
/// of all where there is none.
pub open spec fn is_previous(rows: Seq<usize>, row: usize, at: int) -> bool {
    &&& 0 <= at < rows.len()
    &&& if rows[0] >= row {
        at == rows.len() - 1
    } else {
        rows[at] < row && (at + 1 < rows.len() ==> rows[at + 1] >= row)
    }
}

pub open spec fn distance(a: int, b: int) -> int {
    if a < b {
        b - a
    } else {
        a - b
    }
}

/// The closest of the sorted rows to `row`, by its index; of two as close, the
/// one further down.
pub open spec fn is_nearest(rows: Seq<usize>, row: usize, at: int) -> bool {
    &&& 0 <= at < rows.len()
    &&& forall|i: int|
        0 <= i < rows.len() ==> distance(rows[at] as int, row as int) <= distance(
            #[trigger] rows[i] as int,
            row as int,
        )
    &&& forall|i: int|
        at < i < rows.len() ==> distance(rows[at] as int, row as int) < distance(
            #[trigger] rows[i] as int,
            row as int,
        )
}

/// The index of the first row that is not under `limit`; all rows before it are.
fn partition_point(rows: &Vec<usize>, limit: usize, inclusive: bool) -> (at: usize)
    requires
        ascending(rows@),
    ensures
        at <= rows@.len(),
        forall|i: int|
            0 <= i < at ==> #[trigger] rows@[i] < limit || (inclusive && rows@[i] == limit),
        forall|i: int|
            at <= i < rows@.len() ==> !(#[trigger] rows@[i] < limit || (inclusive && rows@[i] == limit)),
{
    let mut low: usize = 0;
    let mut high: usize = rows.len();
    while low < high
        invariant
            ascending(rows@),
            low <= high <= rows.len(),
            forall|i: int|
                0 <= i < low ==> #[trigger] rows@[i] < limit || (inclusive && rows@[i] == limit),
            forall|i: int|
                high <= i < rows@.len() ==> !(#[trigger] rows@[i] < limit || (inclusive && rows@[i]
                    == limit)),
        decreases high - low,
    {
        let mid: usize = low + (high - low) / 2;
        if rows[mid] < limit || (inclusive && rows[mid] == limit) {
            low = mid + 1;
        } else {
            high = mid;
        }
    }
    low
}

impl SearchState {
    /// The matches are sorted, and one of them is the current one if there are
    /// any.
    pub open spec fn wf(self) -> bool {
        &&& ascending(self.matching_rows@)
        &&& self.current_idx == 0 || self.current_idx < self.matching_rows@.len()
    }

    pub fn new(query: SearchQuery, column: Option<usize>) -> (s: Self)
        ensures
            s.wf(),
            s.query == query,
            s.column == column,
            s.matching_rows@.len() == 0,
            s.current_idx == 0,
            s.status == SearchStatus::Searching,
            !s.initial_jump_done,
    {
        SearchState {
            query,
            column,
            matching_rows: Vec::new(),
            current_idx: 0,
            status: SearchStatus::Searching,
            initial_jump_done: false,
        }
    }

    /// `(current, total, complete)`, the first counted from 1: what the status
    /// bar shows. `(0, 0, ..)` when no matches have arrived yet.
    pub fn match_info(&self) -> (info: (usize, usize, bool))
        requires
            self.wf(),
        ensures
            info == if self.matching_rows@.len() == 0 {
                (0usize, 0usize, self.status == SearchStatus::Complete)
            } else {
                (
                    (self.current_idx + 1) as usize,
                    self.matching_rows@.len() as usize,
                    self.status == SearchStatus::Complete,
                )
            },
    {
        let complete = match self.status {
            SearchStatus::Complete => true,
            SearchStatus::Searching => false,
        };
        let total: usize = self.matching_rows.len();
        if total == 0 {
            (0, 0, complete)
        } else {
            (self.current_idx + 1, total, complete)
        }
    }

    pub fn current_row(&self) -> (row: Option<usize>)
        ensures
            row == if self.current_idx < self.matching_rows@.len() {
                Some(self.matching_rows@[self.current_idx as int])
            } else {
                None
            },
    {
        if self.current_idx < self.matching_rows.len() {
            Some(self.matching_rows[self.current_idx])
        } else {
            None
        }
    }

    /// Jump to the match closest to `cursor_row`, which may be the one it is on.
    pub fn nearest_from(&mut self, cursor_row: usize) -> (row: Option<usize>)
        requires
            old(self).wf(),
        ensures
            final(self).wf(),
            *final(self) == (SearchState { current_idx: final(self).current_idx, ..*old(self) }),
            match row {
                Some(row) => is_nearest(
                    old(self).matching_rows@,
                    cursor_row,
                    final(self).current_idx as int,
                ) && row == old(self).matching_rows@[final(self).current_idx as int],
                None => old(self).matching_rows@.len() == 0 && final(self).current_idx == old(
                    self,
                ).current_idx,
            },
    {
        if self.matching_rows.is_empty() {
            return None;
        }
        let at = partition_point(&self.matching_rows, cursor_row, false);
        let above: bool = at > 0 && (at == self.matching_rows.len() || cursor_row
            - self.matching_rows[at - 1] < self.matching_rows[at] - cursor_row);
        self.current_idx = if above {
            at - 1
        } else {
            at
        };
        self.current_row()
    }

    /// Jump to the next match strictly after `cursor_row`, wrapping if needed.
    /// Goes by the cursor so that moving by hand between jumps is respected.
    pub fn next_from(&mut self, cursor_row: usize) -> (row: Option<usize>)
        requires
            old(self).wf(),
        ensures
            final(self).wf(),
            *final(self) == (SearchState { current_idx: final(self).current_idx, ..*old(self) }),
            match row {
                Some(row) => is_next(
                    old(self).matching_rows@,
                    cursor_row,
                    final(self).current_idx as int,
                ) && row == old(self).matching_rows@[final(self).current_idx as int],
                None => old(self).matching_rows@.len() == 0 && final(self).current_idx == old(
                    self,
                ).current_idx,
            },
    {
        if self.matching_rows.is_empty() {
            return None;
        }
        let at = partition_point(&self.matching_rows, cursor_row, true);
        self.current_idx = if at == self.matching_rows.len() {
            0
        } else {
            at
        };
        self.current_row()
    }

    /// Jump to the previous match strictly before `cursor_row`, wrapping if
    /// needed.
    pub fn prev_from(&mut self, cursor_row: usize) -> (row: Option<usize>)
        requires
            old(self).wf(),
        ensures
            final(self).wf(),
            *final(self) == (SearchState { current_idx: final(self).current_idx, ..*old(self) }),
            match row {
                Some(row) => is_previous(
                    old(self).matching_rows@,
                    cursor_row,
                    final(self).current_idx as int,
                ) && row == old(self).matching_rows@[final(self).current_idx as int],
                None => old(self).matching_rows@.len() == 0 && final(self).current_idx == old(
                    self,
                ).current_idx,
            },
    {
        if self.matching_rows.is_empty() {
            return None;
        }
        let at = partition_point(&self.matching_rows, cursor_row, false);
        self.current_idx = if at == 0 {
            self.matching_rows.len() - 1
        } else {
            at - 1
        };
        self.current_row()
    }
}

/// Stepping on from a match and back again returns to it.
pub proof fn stepping_back_undoes_stepping_on(rows: Seq<usize>, at: int, next: int, back: int)
    requires
        ascending(rows),
        0 <= at < rows.len(),
        is_next(rows, rows[at], next),
        is_previous(rows, rows[next], back),
    ensures
        back == at,
{
}

} // verus!
