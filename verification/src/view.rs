//! What of a file is on show: which columns, which rows, in what order.
use vstd::prelude::*;

verus! {

/// How a condition compares a cell with a value.
#[derive(Clone, Copy, Debug, PartialEq, Eq, Structural)]
pub enum Op {
    Eq,
    Ne,
    Lt,
    Le,
    Gt,
    Ge,
    Matches,
    NotMatches,
}

/// What a cell is compared with.
#[derive(Clone, Debug)]
pub enum Value {
    /// An empty literal asks for the cells with nothing in them.
    Empty,
    /// A regular expression.
    Pattern(String),
    /// A number, as it was typed.
    Number(String),
    Bool(bool),
    Text(String),
}

/// One comparison, on a source column.
#[derive(Clone, Debug)]
pub struct Condition {
    pub column: usize,
    pub op: Op,
    pub value: Value,
}

/// Conditions that all have to hold.
#[derive(Clone, Debug)]
pub struct Filter {
    pub conditions: Vec<Condition>,
}

/// One part of a view that can be put back by itself.
#[derive(Clone, Copy, Debug, PartialEq, Eq, Structural)]
pub enum Slot {
    Select,
    Filter,
    Sort,
}

/// A command that changes the view. Columns are source columns; a sort key is
/// ascending when its flag says so.
#[derive(Debug)]
pub enum Command {
    Select(Vec<usize>),
    Hide(Vec<usize>),
    Filter(Filter),
    Sort(Vec<(usize, bool)>),
    Reset(Option<Slot>),
}

/// The columns chosen, the conditions on rows, and the order. Nothing chosen
/// means all of it, as the file has it.
#[derive(Clone, Debug)]
pub struct TableView {
    pub select: Option<Vec<usize>>,
    pub filter: Option<Filter>,
    pub sort: Vec<(usize, bool)>,
}

/// Column numbers `0..n`.
pub open spec fn all_columns(n: nat) -> Seq<usize> {
    Seq::new(n, |i: int| i as usize)
}

impl TableView {
    /// The source columns on show, of a file with `width` columns.
    pub open spec fn shown(self, width: nat) -> Seq<usize> {
        match self.select {
            Some(chosen) => chosen@,
            None => all_columns(width),
        }
    }

    pub fn new() -> (v: TableView)
        ensures
            v.select is None,
            v.filter is None,
            v.sort@.len() == 0,
    {
        TableView { select: None, filter: None, sort: Vec::new() }
    }

    /// The source columns on show, of a file with `width` columns.
    pub fn columns(&self, width: usize) -> (out: Vec<usize>)
        ensures
            out@ == self.shown(width as nat),
    {
        let mut out: Vec<usize> = Vec::new();
        match &self.select {
            Some(chosen) => {
                out.extend_from_slice(chosen.as_slice());
            },
            None => {
                let mut i: usize = 0;
                while i < width
                    invariant
                        i <= width,
                        out@ == all_columns(i as nat),
                    decreases width - i,
                {
                    out.push(i);
                    i += 1;
                    assert(out@ =~= all_columns(i as nat));
                }
            },
        }
        assert(out@ =~= self.shown(width as nat));
        out
    }
}

/// What a view shows, as plain mathematics.
#[verifier::ext_equal]
pub struct Shown {
    pub select: Option<Seq<usize>>,
    pub filter: Option<Filter>,
    pub sort: Seq<(usize, bool)>,
}

impl Shown {
    pub open spec fn columns(self, width: nat) -> Seq<usize> {
        match self.select {
            Some(chosen) => chosen,
            None => all_columns(width),
        }
    }

    /// The view after a command, or nothing where that would hide every column.
    pub open spec fn after(self, command: Command, width: nat) -> Option<Shown> {
        match command {
            Command::Select(columns) => if columns@.len() == 0 {
                None
            } else {
                Some(Shown { select: Some(columns@), ..self })
            },
            Command::Hide(columns) => {
                let left = self.columns(width).filter(|c: usize| !columns@.contains(c));
                if left.len() == 0 {
                    None
                } else {
                    Some(Shown { select: Some(left), ..self })
                }
            },
            Command::Filter(filter) => Some(Shown { filter: Some(filter), ..self }),
            Command::Sort(keys) => Some(Shown { sort: keys@, ..self }),
            Command::Reset(None) => Some(
                Shown { select: None, filter: None, sort: Seq::empty() },
            ),
            Command::Reset(Some(Slot::Select)) => Some(Shown { select: None, ..self }),
            Command::Reset(Some(Slot::Filter)) => Some(Shown { filter: None, ..self }),
            Command::Reset(Some(Slot::Sort)) => Some(Shown { sort: Seq::empty(), ..self }),
        }
    }
}

impl TableView {
    pub open spec fn shows(self) -> Shown {
        Shown {
            select: match self.select {
                Some(chosen) => Some(chosen@),
                None => None,
            },
            filter: self.filter,
            sort: self.sort@,
        }
    }

    /// Take a command. Refuses one that would leave nothing to look at, and then
    /// changes nothing.
    pub fn apply(&mut self, command: Command, width: usize) -> (applied: bool)
        ensures
            match old(self).shows().after(command, width as nat) {
                Some(after) => applied && final(self).shows() == after,
                None => !applied && *final(self) == *old(self),
            },
    {
        match command {
            Command::Select(columns) => {
                if columns.is_empty() {
                    return false;
                }
                self.select = Some(columns);
            },
            Command::Hide(columns) => {
                let shown = self.columns(width);
                let mut left: Vec<usize> = Vec::new();
                let ghost keep = |c: usize| !columns@.contains(c);
                let mut i: usize = 0;
                proof {
                    reveal(Seq::filter);
                    assert(shown@.take(0).filter(keep) =~= Seq::empty());
                }
                while i < shown.len()
                    invariant
                        i <= shown.len(),
                        keep == |c: usize| !columns@.contains(c),
                        left@ == shown@.take(i as int).filter(keep),
                    decreases shown.len() - i,
                {
                    proof {
                        reveal(Seq::filter);
                        assert(shown@.take(i + 1).drop_last() =~= shown@.take(i as int));
                    }
                    if !holds(&columns, shown[i]) {
                        left.push(shown[i]);
                    }
                    i += 1;
                }
                assert(shown@.take(i as int) =~= shown@);
                if left.is_empty() {
                    return false;
                }
                self.select = Some(left);
            },
            Command::Filter(filter) => {
                self.filter = Some(filter);
            },
            Command::Sort(keys) => {
                self.sort = keys;
            },
            Command::Reset(None) => {
                self.select = None;
                self.filter = None;
                self.sort = Vec::new();
                assert(self.sort@ =~= Seq::empty());
            },
            Command::Reset(Some(Slot::Select)) => {
                self.select = None;
            },
            Command::Reset(Some(Slot::Filter)) => {
                self.filter = None;
            },
            Command::Reset(Some(Slot::Sort)) => {
                self.sort = Vec::new();
                assert(self.sort@ =~= Seq::empty());
            },
        }
        true
    }
}

fn holds(columns: &Vec<usize>, column: usize) -> (b: bool)
    ensures
        b == columns@.contains(column),
{
    let mut i: usize = 0;
    while i < columns.len()
        invariant
            i <= columns.len(),
            forall|k: int| 0 <= k < i ==> columns@[k] != column,
        decreases columns.len() - i,
    {
        if columns[i] == column {
            return true;
        }
        i += 1;
    }
    false
}

/// Hiding a column twice is hiding it once.
pub proof fn hiding_twice_is_hiding_once(view: Shown, column: usize, hide: Vec<usize>, width: nat)
    requires
        hide@ == seq![column],
        view.after(Command::Hide(hide), width) is Some,
    ensures
        ({
            let once = view.after(Command::Hide(hide), width)->Some_0;
            once.after(Command::Hide(hide), width) == Some(once)
        }),
{
    let keep = |c: usize| !hide@.contains(c);
    let left = view.columns(width).filter(keep);
    let once = view.after(Command::Hide(hide), width)->Some_0;
    assert forall|i: int| 0 <= i < left.len() implies keep(#[trigger] left[i]) by {
        view.columns(width).lemma_filter_pred(keep, i);
    }
    lemma_filter_kept(left, keep);
    assert(once.after(Command::Hide(hide), width)->Some_0 =~= once);
}

proof fn lemma_filter_kept(s: Seq<usize>, p: spec_fn(usize) -> bool)
    requires
        forall|i: int| 0 <= i < s.len() ==> p(#[trigger] s[i]),
    ensures
        s.filter(p) == s,
    decreases s.len(),
{
    reveal(Seq::filter);
    if s.len() > 0 {
        lemma_filter_kept(s.drop_last(), p);
        assert(s.filter(p) =~= s);
    } else {
        assert(s.filter(p) =~= s);
    }
}

} // verus!
