//! Pending cell edits: the buffer between a keystroke and a write.
//!
//! Only the visible rows of a file are ever held, so there is no table to
//! mutate. Edits live here instead, as a sparse overlay keyed by position in
//! the *source* file, stamped onto each page as it is shown and spliced into
//! the file when it is written. Memory is proportional to the number of edits,
//! not to the size of the file.
//!
//! Values are text because the file is text. Whether a new value still parses
//! as its column's type is a warning for the caller to raise, not a rule this
//! layer enforces.
use vstd::prelude::*;
use std::collections::{BTreeMap, BTreeSet};
use crate::data::ordered::{ascending, sorted_keys, sorted_members};

verus! {

broadcast use {vstd::std_specs::btree::group_btree_axioms, vstd::laws_cmp::group_laws_cmp};

/// A cell's position in the source file: the 0-based data row (the header is
/// not counted) and the field index.
pub type Cell = (usize, usize);

/// Everything that is pending, as plain mathematics.
#[verifier::ext_equal]
pub struct Pending {
    /// Edited cells and the text each one will hold.
    pub cells: Map<Cell, Seq<char>>,
    /// Rows of the file that the next write leaves out.
    pub struck: Set<usize>,
    /// Rows not in the file yet: for a row of the file, the ids of those added
    /// just before it. Never an empty list.
    pub added: Map<usize, Seq<usize>>,
}

/// One place that a change can touch.
pub enum Target {
    Cell(Cell),
    Row(usize),
    Anchor(usize),
}

/// One place together with what it is to hold.
pub enum Step {
    Cell(Cell, Option<Seq<char>>),
    Struck(usize, bool),
    Added(usize, Seq<usize>),
}

impl Step {
    pub open spec fn target(self) -> Target {
        match self {
            Step::Cell(cell, _) => Target::Cell(cell),
            Step::Struck(row, _) => Target::Row(row),
            Step::Added(anchor, _) => Target::Anchor(anchor),
        }
    }
}

impl Pending {
    pub open spec fn empty() -> Pending {
        Pending { cells: Map::empty(), struck: Set::empty(), added: Map::empty() }
    }

    /// The ids added just before row `before`, in the order they will be written.
    pub open spec fn added_at(self, before: usize) -> Seq<usize> {
        if self.added.contains_key(before) {
            self.added[before]
        } else {
            Seq::empty()
        }
    }

    pub open spec fn wf(self) -> bool {
        &&& forall|a: usize| #[trigger] self.added.contains_key(a) ==> self.added[a].len() > 0
        &&& self.cells.dom().finite()
        &&& self.struck.finite()
        &&& self.added.dom().finite()
    }

    /// What a place holds now.
    pub open spec fn at(self, target: Target) -> Step {
        match target {
            Target::Cell(cell) => Step::Cell(
                cell,
                if self.cells.contains_key(cell) {
                    Some(self.cells[cell])
                } else {
                    None
                },
            ),
            Target::Row(row) => Step::Struck(row, self.struck.contains(row)),
            Target::Anchor(anchor) => Step::Added(anchor, self.added_at(anchor)),
        }
    }

    /// Makes one place hold what `step` says.
    pub open spec fn put(self, step: Step) -> Pending {
        match step {
            Step::Cell(cell, Some(value)) => Pending { cells: self.cells.insert(cell, value), ..self },
            Step::Cell(cell, None) => Pending { cells: self.cells.remove(cell), ..self },
            Step::Struck(row, true) => Pending { struck: self.struck.insert(row), ..self },
            Step::Struck(row, false) => Pending { struck: self.struck.remove(row), ..self },
            Step::Added(anchor, ids) => if ids.len() == 0 {
                Pending { added: self.added.remove(anchor), ..self }
            } else {
                Pending { added: self.added.insert(anchor, ids), ..self }
            },
        }
    }

    /// Takes the steps of a change in order.
    pub open spec fn put_all(self, change: Seq<Step>) -> Pending
        decreases change.len(),
    {
        if change.len() == 0 {
            self
        } else {
            self.put_all(change.drop_last()).put(change.last())
        }
    }

    /// What each step of a change found in its place, last to first: the change
    /// that takes it back.
    pub open spec fn found_by(self, change: Seq<Step>) -> Seq<Step>
        decreases change.len(),
    {
        if change.len() == 0 {
            Seq::empty()
        } else {
            seq![self.put_all(change.drop_last()).at(change.last().target())] + self.found_by(
                change.drop_last(),
            )
        }
    }
}

/// No two steps of the change touch one place.
pub open spec fn distinct(change: Seq<Step>) -> bool {
    forall|i: int, j: int|
        0 <= i < j < change.len() ==> (#[trigger] change[i]).target() != (#[trigger] change[j]).target()
}

/// A buffer of pending edits with its history.
#[verifier::ext_equal]
pub struct Buffer {
    pub pending: Pending,
    pub undo: Seq<Seq<Step>>,
    pub redo: Seq<Seq<Step>>,
    /// Added rows are numbered from here on.
    pub next_id: nat,
}

impl Buffer {
    pub open spec fn empty() -> Buffer {
        Buffer { pending: Pending::empty(), undo: Seq::empty(), redo: Seq::empty(), next_id: 0 }
    }

    /// One undoable change. An empty one leaves no step behind.
    pub open spec fn change(self, change: Seq<Step>) -> Buffer {
        if change.len() == 0 {
            self
        } else {
            Buffer {
                pending: self.pending.put_all(change),
                undo: self.undo.push(self.pending.found_by(change)),
                redo: Seq::empty(),
                ..self
            }
        }
    }

    pub open spec fn undone(self) -> Buffer {
        if self.undo.len() == 0 {
            self
        } else {
            Buffer {
                pending: self.pending.put_all(self.undo.last()),
                undo: self.undo.drop_last(),
                redo: self.redo.push(self.pending.found_by(self.undo.last())),
                ..self
            }
        }
    }

    pub open spec fn redone(self) -> Buffer {
        if self.redo.len() == 0 {
            self
        } else {
            Buffer {
                pending: self.pending.put_all(self.redo.last()),
                redo: self.redo.drop_last(),
                undo: self.undo.push(self.pending.found_by(self.redo.last())),
                ..self
            }
        }
    }
}

/// A change as a list of cells and the text each is to hold.
pub open spec fn cell_steps(edits: Seq<(Cell, Seq<char>)>) -> Seq<Step> {
    edits.map_values(|e: (Cell, Seq<char>)| Step::Cell(e.0, Some(e.1)))
}

/// A change that strikes rows out.
pub open spec fn struck_steps(rows: Seq<usize>) -> Seq<Step> {
    rows.map_values(|row: usize| Step::Struck(row, true))
}

proof fn lemma_put_at(p: Pending, step: Step, target: Target)
    ensures
        p.put(step).at(target) == if step.target() == target { step } else { p.at(target) },
{
    match step {
        Step::Added(anchor, ids) => {
            if ids.len() == 0 {
                assert(ids =~= Seq::empty());
            }
        },
        _ => {},
    }
}

proof fn lemma_put_wf(p: Pending, step: Step)
    requires
        p.wf(),
    ensures
        p.put(step).wf(),
{
}

proof fn lemma_put_all_wf(p: Pending, change: Seq<Step>)
    requires
        p.wf(),
    ensures
        p.put_all(change).wf(),
    decreases change.len(),
{
    if change.len() > 0 {
        lemma_put_all_wf(p, change.drop_last());
        lemma_put_wf(p.put_all(change.drop_last()), change.last());
    }
}

/// What a place holds after a change is what the change's last word on it
/// says, or what it held before.
proof fn lemma_put_all_at(p: Pending, change: Seq<Step>, target: Target)
    requires
        distinct(change),
    ensures
        forall|i: int|
            0 <= i < change.len() && (#[trigger] change[i]).target() == target ==> p.put_all(change).at(
                target,
            ) == change[i],
        (forall|i: int| 0 <= i < change.len() ==> (#[trigger] change[i]).target() != target)
            ==> p.put_all(change).at(target) == p.at(target),
    decreases change.len(),
{
    if change.len() > 0 {
        let front = change.drop_last();
        lemma_put_all_at(p, front, target);
        lemma_put_at(p.put_all(front), change.last(), target);
        assert forall|i: int|
            0 <= i < change.len() && (#[trigger] change[i]).target() == target implies p.put_all(
            change,
        ).at(target) == change[i] by {
            if i < front.len() {
                assert(front[i] == change[i]);
            }
        }
    }
}

/// What a place holds after a change that touches none twice is what the change
/// says of it.
pub proof fn last_word(p: Pending, change: Seq<Step>, i: int)
    requires
        distinct(change),
        0 <= i < change.len(),
    ensures
        p.put_all(change).at(change[i].target()) == change[i],
{
    lemma_put_all_at(p, change, change[i].target());
}

proof fn lemma_same_places(p: Pending, q: Pending)
    requires
        p.wf(),
        q.wf(),
        forall|t: Target| #[trigger] p.at(t) == q.at(t),
    ensures
        p == q,
{
    assert forall|c: Cell| #[trigger] p.cells.contains_key(c) <==> q.cells.contains_key(c) by {
        assert(p.at(Target::Cell(c)) == q.at(Target::Cell(c)));
    }
    assert forall|c: Cell| #[trigger] p.cells.contains_key(c) implies p.cells[c] == q.cells[c] by {
        assert(p.at(Target::Cell(c)) == q.at(Target::Cell(c)));
    }
    assert(p.cells =~= q.cells);
    assert forall|r: usize| #[trigger] p.struck.contains(r) <==> q.struck.contains(r) by {
        assert(p.at(Target::Row(r)) == q.at(Target::Row(r)));
    }
    assert(p.struck =~= q.struck);
    assert forall|a: usize| #[trigger] p.added.contains_key(a) <==> q.added.contains_key(a) by {
        assert(p.at(Target::Anchor(a)) == q.at(Target::Anchor(a)));
    }
    assert forall|a: usize| #[trigger] p.added.contains_key(a) implies p.added[a] == q.added[a] by {
        assert(p.at(Target::Anchor(a)) == q.at(Target::Anchor(a)));
    }
    assert(p.added =~= q.added);
}

proof fn lemma_put_back(p: Pending, step: Step)
    requires
        p.wf(),
    ensures
        p.put(step).put(p.at(step.target())) == p,
        p.put(step).at(step.target()) == step,
{
    let now = p.put(step);
    let back = p.at(step.target());
    lemma_put_wf(p, step);
    lemma_put_wf(now, back);
    assert(back.target() == step.target());
    assert forall|t: Target| #[trigger] now.put(back).at(t) == p.at(t) by {
        lemma_put_at(now, back, t);
        lemma_put_at(p, step, t);
    }
    lemma_same_places(now.put(back), p);
    lemma_put_at(p, step, step.target());
}

/// A change taken from its first step on.
proof fn lemma_first_step(p: Pending, first: Step, rest: Seq<Step>)
    ensures
        p.put_all(seq![first] + rest) == p.put(first).put_all(rest),
        p.found_by(seq![first] + rest) == p.put(first).found_by(rest).push(p.at(first.target())),
    decreases rest.len(),
{
    let all = seq![first] + rest;
    if rest.len() == 0 {
        assert(all.drop_last() =~= Seq::empty());
        assert(all.last() == first);
        assert(p.put_all(all.drop_last()) == p);
        assert(p.found_by(all.drop_last()) =~= Seq::empty());
        assert(p.found_by(all) =~= p.put(first).found_by(rest).push(p.at(first.target())));
    } else {
        let front = rest.drop_last();
        lemma_first_step(p, first, front);
        assert(all.drop_last() =~= seq![first] + front);
        assert(all.last() == rest.last());
        assert(p.found_by(all) =~= p.put(first).found_by(rest).push(p.at(first.target())));
    }
}

/// Putting back what a change found, last to first, undoes it, whatever the
/// change was, and finds the change itself.
pub proof fn putting_back_restores(p: Pending, change: Seq<Step>)
    requires
        p.wf(),
    ensures
        p.put_all(change).put_all(p.found_by(change)) == p,
        p.put_all(change).found_by(p.found_by(change)) == change,
    decreases change.len(),
{
    if change.len() > 0 {
        let front = change.drop_last();
        let step = change.last();
        let q = p.put_all(front);
        let found = p.found_by(front);
        lemma_put_all_wf(p, front);
        lemma_put_back(q, step);
        lemma_first_step(q.put(step), q.at(step.target()), found);
        putting_back_restores(p, front);
        assert(q.at(step.target()).target() == step.target());
        assert(front.push(step) =~= change);
    }
}

/// Undoing a change gives back exactly what was pending before it, and the
/// history that was there.
pub proof fn undo_takes_back_a_change(b: Buffer, change: Seq<Step>)
    requires
        b.pending.wf(),
        change.len() > 0,
    ensures
        b.change(change).undone().pending == b.pending,
        b.change(change).undone().undo == b.undo,
{
    putting_back_restores(b.pending, change);
    let undo = b.undo.push(b.pending.found_by(change));
    assert(undo.drop_last() =~= b.undo);
}

/// Redoing what was just undone changes nothing at all.
pub proof fn redo_takes_back_an_undo(b: Buffer)
    requires
        b.pending.wf(),
        b.undo.len() > 0,
    ensures
        b.undone().redone() == b,
{
    putting_back_restores(b.pending, b.undo.last());
    let found = b.pending.found_by(b.undo.last());
    assert(b.redo.push(found).drop_last() =~= b.redo);
    assert(b.undo.drop_last().push(b.undo.last()) =~= b.undo);
    assert(b.undone().redone() =~= b);
}

/// A new change leaves nothing to redo.
pub proof fn a_change_ends_redoing(b: Buffer, change: Seq<Step>)
    requires
        change.len() > 0,
    ensures
        b.change(change).redo.len() == 0,
        b.change(change).redone() == b.change(change),
{
}

/// What one undoable step has to put back.
///
/// A change is a list of these rather than a single one because a fill, or the
/// deletion of several rows, is one action as far as the user is concerned, and
/// one undo should take all of it back.
#[derive(Debug)]
enum Undoable {
    /// The value the cell held before, or `None` if it held no pending edit.
    Cell(Cell, Option<String>),
    /// Whether the row was already struck out before.
    Struck(usize, bool),
    /// The ids added before this row of the file.
    Added(usize, Vec<usize>),
}

impl Undoable {
    spec fn step(self) -> Step {
        match self {
            Undoable::Cell(cell, Some(value)) => Step::Cell(cell, Some(value@)),
            Undoable::Cell(cell, None) => Step::Cell(cell, None),
            Undoable::Struck(row, was) => Step::Struck(row, was),
            Undoable::Added(anchor, ids) => Step::Added(anchor, ids@),
        }
    }
}

spec fn steps(change: Seq<Undoable>) -> Seq<Step> {
    change.map_values(|u: Undoable| u.step())
}

spec fn history(changes: Seq<Vec<Undoable>>) -> Seq<Seq<Step>> {
    changes.map_values(|c: Vec<Undoable>| steps(c@))
}

/// Pending edits, grouped by row.
///
/// Grouped because both readers want them that way: a page asks for the rows
/// on show, and the writer walks records in file order.
pub struct Overlay {
    rows: BTreeMap<usize, BTreeMap<usize, String>>,
    /// Source rows struck out, to be left out when the file is written.
    ///
    /// Struck rather than removed: the file is not touched until it is
    /// written, so a deleted row is a note about what to leave out, and undo
    /// puts it back.
    struck: BTreeSet<usize>,
    /// Ids of rows added, under the row of the file they go in before.
    added: BTreeMap<usize, Vec<usize>>,
    next_id: usize,
    undo: Vec<Vec<Undoable>>,
    redo: Vec<Vec<Undoable>>,
}

spec fn cells_of(rows: Map<usize, BTreeMap<usize, String>>) -> Map<Cell, Seq<char>> {
    Map::new(
        |c: Cell| rows.contains_key(c.0) && rows[c.0]@.contains_key(c.1),
        |c: Cell| rows[c.0]@[c.1]@,
    )
}

spec fn lists_of(added: Map<usize, Vec<usize>>) -> Map<usize, Seq<usize>> {
    added.map_values(|ids: Vec<usize>| ids@)
}

/// The pending edits of one row, by field index.
pub open spec fn row_text(cells: Map<usize, String>) -> Map<usize, Seq<char>> {
    cells.map_values(|value: String| value@)
}

impl Pending {
    /// The pending edits of one row, by field index.
    pub open spec fn row(self, row: usize) -> Map<usize, Seq<char>> {
        Map::new(|col: usize| self.cells.contains_key((row, col)), |col: usize| self.cells[(row, col)])
    }

    pub open spec fn has_row(self, row: usize) -> bool {
        exists|col: usize| self.cells.contains_key((row, col))
    }

    /// How many struck rows come before `row`.
    pub open spec fn struck_before(self, row: int) -> nat {
        self.struck.filter(|r: usize| r < row).len()
    }
}

/// The steps of a change, last to first.
fn turned(change: Vec<Undoable>) -> (out: Vec<Undoable>)
    ensures
        steps(out@) == steps(change@).reverse(),
{
    let mut rest = change;
    let mut out: Vec<Undoable> = Vec::new();
    let ghost all = steps(change@);
    assert(steps(out@) + steps(rest@).reverse() =~= all.reverse());
    while rest.len() > 0
        invariant
            steps(out@) + steps(rest@).reverse() == all.reverse(),
        decreases rest@.len(),
    {
        let ghost (before, left) = (out@, rest@);
        if let Some(step) = rest.pop() {
            out.push(step);
            assert(steps(out@) =~= steps(before).push(step.step()));
            assert(steps(left).reverse() =~= seq![step.step()] + steps(rest@).reverse());
            assert(steps(out@) + steps(rest@).reverse() =~= steps(before) + steps(left).reverse());
        }
    }
    assert(steps(rest@).reverse() =~= Seq::empty());
    assert(steps(out@) =~= all.reverse());
    out
}

impl View for Overlay {
    type V = Buffer;

    closed spec fn view(&self) -> Buffer {
        Buffer {
            pending: Pending {
                cells: cells_of(self.rows@),
                struck: self.struck@,
                added: lists_of(self.added@),
            },
            undo: history(self.undo@),
            redo: history(self.redo@),
            next_id: self.next_id as nat,
        }
    }
}

impl Overlay {
    pub closed spec fn wf(self) -> bool {
        &&& self@.pending.wf()
        &&& forall|r: usize| #[trigger]
            self.rows@.contains_key(r) ==> exists|c: usize| self.rows@[r]@.contains_key(c)
    }

    /// What a buffer holds is well formed.
    pub proof fn pending_wf(self)
        requires
            self.wf(),
        ensures
            self@.pending.wf(),
    {
    }

    pub fn new() -> (o: Self)
        ensures
            o.wf(),
            o@ == Buffer::empty(),
    {
        let o = Overlay {
            rows: BTreeMap::new(),
            struck: BTreeSet::new(),
            added: BTreeMap::new(),
            next_id: 0,
            undo: Vec::new(),
            redo: Vec::new(),
        };
        assert(o@ =~= Buffer::empty());
        o
    }

    fn insert(&mut self, cell: Cell, value: String) -> (previous: Option<String>)
        requires
            old(self).wf(),
        ensures
            final(self).wf(),
            final(self)@.pending == old(self)@.pending.put(Step::Cell(cell, Some(value@))),
            Undoable::Cell(cell, previous).step() == old(self)@.pending.at(Target::Cell(cell)),
            final(self).undo == old(self).undo,
            final(self).redo == old(self).redo,
            final(self).next_id == old(self).next_id,
    {
        let ghost before = self.rows@;
        let mut cells: BTreeMap<usize, String> = match self.rows.remove(&cell.0) {
            Some(cells) => cells,
            None => BTreeMap::new(),
        };
        let previous = cells.insert(cell.1, value);
        self.rows.insert(cell.0, cells);
        assert(cells_of(self.rows@) =~= cells_of(before).insert(cell, value@));
        assert(self@.pending =~= old(self)@.pending.put(Step::Cell(cell, Some(value@))));
        assert(self.rows@[cell.0]@.contains_key(cell.1));
        assert forall|r: usize| #[trigger] self.rows@.contains_key(r) implies exists|c: usize|
            self.rows@[r]@.contains_key(c) by {
            if r != cell.0 {
                assert(old(self).rows@.contains_key(r));
                let c = choose|c: usize| old(self).rows@[r]@.contains_key(c);
                assert(self.rows@[r]@.contains_key(c));
            } else {
                assert(self.rows@[r]@.contains_key(cell.1));
            }
        }
        previous
    }

    fn remove(&mut self, cell: Cell) -> (previous: Option<String>)
        requires
            old(self).wf(),
        ensures
            final(self).wf(),
            final(self)@.pending == old(self)@.pending.put(Step::Cell(cell, None)),
            Undoable::Cell(cell, previous).step() == old(self)@.pending.at(Target::Cell(cell)),
            final(self).undo == old(self).undo,
            final(self).redo == old(self).redo,
            final(self).next_id == old(self).next_id,
    {
        let ghost before = self.rows@;
        let mut cells: BTreeMap<usize, String> = match self.rows.remove(&cell.0) {
            Some(cells) => cells,
            None => {
                assert(self.rows@ =~= before);
                assert(cells_of(self.rows@) =~= cells_of(before).remove(cell));
                assert(self@.pending =~= old(self)@.pending.put(Step::Cell(cell, None)));
                return None;
            },
        };
        let previous = cells.remove(&cell.1);
        if !cells.is_empty() {
            proof {
                assert(cells@.dom().len() > 0);
                assert(cells@.contains_key(cells@.dom().choose()));
            }
            self.rows.insert(cell.0, cells);
        } else {
            assert(cells@ =~= Map::empty());
            assert(forall|c: usize| !cells@.contains_key(c));
        }
        proof {
            let now = cells_of(self.rows@);
            let then = cells_of(before).remove(cell);
            assert forall|c: Cell| #[trigger] now.contains_key(c) <==> then.contains_key(c) by {
                if c.0 == cell.0 && c.1 != cell.1 {
                    assert(cells@.contains_key(c.1) <==> before[c.0]@.contains_key(c.1));
                }
            }
            assert(now =~= then);
        }
        assert(self@.pending =~= old(self)@.pending.put(Step::Cell(cell, None)));
        assert forall|r: usize| #[trigger] self.rows@.contains_key(r) implies exists|c: usize|
            self.rows@[r]@.contains_key(c) by {
            if r != cell.0 {
                assert(old(self).rows@.contains_key(r));
                let c = choose|c: usize| old(self).rows@[r]@.contains_key(c);
                assert(self.rows@[r]@.contains_key(c));
            } else {
                assert(self.rows@[r]@.contains_key(cells@.dom().choose()));
            }
        }
        previous
    }

    /// Makes one place hold what the step says, and returns the step that
    /// would put back what was there.
    fn put(&mut self, step: Undoable) -> (found: Undoable)
        requires
            old(self).wf(),
        ensures
            final(self).wf(),
            final(self)@.pending == old(self)@.pending.put(step.step()),
            found.step() == old(self)@.pending.at(step.step().target()),
            final(self).undo == old(self).undo,
            final(self).redo == old(self).redo,
            final(self).next_id == old(self).next_id,
    {
        match step {
            Undoable::Cell(cell, Some(value)) => Undoable::Cell(cell, self.insert(cell, value)),
            Undoable::Cell(cell, None) => Undoable::Cell(cell, self.remove(cell)),
            Undoable::Struck(row, now) => {
                let was: bool = self.struck.contains(&row);
                if now {
                    self.struck.insert(row);
                } else {
                    self.struck.remove(&row);
                }
                assert(self@.pending =~= old(self)@.pending.put(step.step()));
                Undoable::Struck(row, was)
            },
            Undoable::Added(anchor, ids) => {
                let ghost before = self.added@;
                let was: Vec<usize> = match self.added.remove(&anchor) {
                    Some(was) => was,
                    None => Vec::new(),
                };
                if !ids.is_empty() {
                    self.added.insert(anchor, ids);
                    assert(lists_of(self.added@) =~= lists_of(before).insert(anchor, ids@));
                } else {
                    assert(lists_of(self.added@) =~= lists_of(before).remove(anchor));
                }
                assert(self.added@.dom().finite());
                assert(lists_of(self.added@).dom() =~= self.added@.dom());
                assert(self@.pending =~= old(self)@.pending.put(step.step()));
                Undoable::Added(anchor, was)
            },
        }
    }

    /// Take the steps of `change` in order, returning the change that would
    /// restore what was there before this call: it goes from the last step to
    /// the first, since a later one may have found what an earlier one left.
    fn revert(&mut self, change: Vec<Undoable>) -> (inverse: Vec<Undoable>)
        requires
            old(self).wf(),
        ensures
            final(self).wf(),
            final(self)@.pending == old(self)@.pending.put_all(steps(change@)),
            steps(inverse@) == old(self)@.pending.found_by(steps(change@)),
            final(self).undo == old(self).undo,
            final(self).redo == old(self).redo,
            final(self).next_id == old(self).next_id,
    {
        let mut found: Vec<Undoable> = Vec::new();
        let ghost all = steps(change@);
        assert(all.take(0) =~= Seq::empty());
        assert(steps(found@).reverse() =~= Seq::empty());
        for step in it: change
            invariant
                it.seq() == change@,
                all == steps(change@),
                self.wf(),
                self@.pending == old(self)@.pending.put_all(all.take(it.index() as int)),
                steps(found@).reverse() == old(self)@.pending.found_by(all.take(it.index() as int)),
                self.undo == old(self).undo,
                self.redo == old(self).redo,
                self.next_id == old(self).next_id,
        {
            proof {
                let k = it.index() as int;
                assert(all.take(k + 1).drop_last() =~= all.take(k));
                assert(all.take(k + 1).last() == step.step());
            }
            let was = self.put(step);
            let ghost before = found@;
            found.push(was);
            assert(steps(found@).reverse() =~= seq![was.step()] + steps(before).reverse());
        }
        assert(all.take(all.len() as int) =~= all);
        turned(found)
    }

    /// Record a change as one undoable step. An empty change leaves no step,
    /// so undo never appears to skip.
    fn record(&mut self, change: Vec<Undoable>)
        requires
            old(self).wf(),
        ensures
            final(self).wf(),
            final(self)@ == old(self)@.change(steps(change@)),
    {
        if change.is_empty() {
            return;
        }
        let inverse = self.revert(change);
        let ghost before = self.undo@;
        self.undo.push(inverse);
        assert(history(self.undo@) =~= history(before).push(steps(inverse@)));
        self.redo.clear();
        assert(history(self.redo@) =~= Seq::empty());
        assert(self@ =~= old(self)@.change(steps(change@)));
    }

    /// Apply `edits` as a single undoable change. An empty batch is ignored, so
    /// it never leaves a step on the stack that undo would appear to skip.
    pub fn set(&mut self, edits: Vec<(Cell, String)>)
        requires
            old(self).wf(),
        ensures
            final(self).wf(),
            final(self)@ == old(self)@.change(cell_steps(edit_text(edits@))),
    {
        let mut change: Vec<Undoable> = Vec::new();
        for edit in it: edits
            invariant
                it.seq() == edits@,
                steps(change@) == cell_steps(edit_text(edits@)).take(it.index() as int),
        {
            let ghost before = change@;
            let (cell, value) = edit;
            change.push(Undoable::Cell(cell, Some(value)));
            assert(steps(change@) =~= steps(before).push(Step::Cell(cell, Some(value@))));
            assert(steps(change@) =~= cell_steps(edit_text(edits@)).take(it.index() as int + 1));
        }
        assert(steps(change@) =~= cell_steps(edit_text(edits@)));
        self.record(change);
    }

    /// Strike out rows, so the write leaves them out. One undoable step.
    pub fn strike(&mut self, rows: Vec<usize>)
        requires
            old(self).wf(),
        ensures
            final(self).wf(),
            final(self)@ == old(self)@.change(struck_steps(rows@)),
    {
        let mut change: Vec<Undoable> = Vec::new();
        for row in it: rows
            invariant
                it.seq() == rows@,
                steps(change@) == struck_steps(rows@).take(it.index() as int),
        {
            let ghost before = change@;
            change.push(Undoable::Struck(row, true));
            assert(steps(change@) =~= steps(before).push(Step::Struck(row, true)));
            assert(steps(change@) =~= struck_steps(rows@).take(it.index() as int + 1));
        }
        assert(steps(change@) =~= struck_steps(rows@));
        self.record(change);
    }

    /// Take back the last change. Returns false when there is nothing to undo.
    pub fn undo(&mut self) -> (undone: bool)
        requires
            old(self).wf(),
        ensures
            final(self).wf(),
            undone == (old(self)@.undo.len() > 0),
            final(self)@ == old(self)@.undone(),
    {
        let ghost before = self.undo@;
        match self.undo.pop() {
            None => false,
            Some(change) => {
                assert(history(before).last() == steps(change@));
                assert(history(self.undo@) =~= history(before).drop_last());
                let inverse = self.revert(change);
                let ghost redo = self.redo@;
                self.redo.push(inverse);
                assert(history(self.redo@) =~= history(redo).push(steps(inverse@)));
                assert(self@ =~= old(self)@.undone());
                true
            },
        }
    }

    /// Re-apply the last undone change.
    pub fn redo(&mut self) -> (redone: bool)
        requires
            old(self).wf(),
        ensures
            final(self).wf(),
            redone == (old(self)@.redo.len() > 0),
            final(self)@ == old(self)@.redone(),
    {
        let ghost before = self.redo@;
        match self.redo.pop() {
            None => false,
            Some(change) => {
                assert(history(before).last() == steps(change@));
                assert(history(self.redo@) =~= history(before).drop_last());
                let inverse = self.revert(change);
                let ghost undo = self.undo@;
                self.undo.push(inverse);
                assert(history(self.undo@) =~= history(undo).push(steps(inverse@)));
                assert(self@ =~= old(self)@.redone());
                true
            },
        }
    }

    /// Drop every pending edit *and* the history. Called after a successful
    /// write: the file now holds these values, so undoing past it would
    /// silently reintroduce changes the user believes they saved.
    pub fn clear(&mut self)
        ensures
            final(self).wf(),
            final(self)@ == Buffer::empty(),
    {
        self.rows.clear();
        self.struck.clear();
        self.added.clear();
        self.next_id = 0;
        self.undo.clear();
        self.redo.clear();
        assert(self@ =~= Buffer::empty());
    }
}

/// A batch of edits with each value taken as its characters.
pub open spec fn edit_text(edits: Seq<(Cell, String)>) -> Seq<(Cell, Seq<char>)> {
    edits.map_values(|e: (Cell, String)| (e.0, e.1@))
}

impl Pending {
    /// How many rows are added before the rows numbered under `n`.
    pub open spec fn added_before(self, n: nat) -> nat
        decreases n,
    {
        if n == 0 {
            0
        } else {
            self.added_before((n - 1) as nat) + self.added_at((n - 1) as usize).len()
        }
    }

    pub open spec fn added_count(self) -> nat {
        self.added_before(usize::MAX as nat + 1)
    }

    /// How many cells, struck rows and added rows there are together.
    pub open spec fn count(self) -> nat {
        self.cells.dom().len() + self.struck.len() + self.added_count()
    }

    /// What is pending once `rows` are deleted from a file of `total` rows: a
    /// row of the file is struck out, an added one goes with all its cells.
    pub open spec fn deleted(self, rows: Set<usize>, total: usize) -> Pending {
        let kept = |id: usize| id < total || !rows.contains(id);
        Pending {
            cells: Map::new(
                |c: Cell| self.cells.contains_key(c) && kept(c.0),
                |c: Cell| self.cells[c],
            ),
            struck: self.struck.union(rows.filter(|row: usize| row < total)),
            added: Map::new(
                |a: usize| self.added_at(a).filter(kept).len() > 0,
                |a: usize| self.added_at(a).filter(kept),
            ),
        }
    }
}

pub open spec fn at_most_max(n: nat) -> usize {
    if n <= usize::MAX {
        n as usize
    } else {
        usize::MAX
    }
}

proof fn lemma_added_before_gap(p: Pending, a: nat, b: nat)
    requires
        a <= b <= usize::MAX + 1,
        forall|k: usize| a <= k < b ==> !p.added.contains_key(k),
    ensures
        p.added_before(b) == p.added_before(a),
    decreases b,
{
    if a < b {
        lemma_added_before_gap(p, a, (b - 1) as nat);
        assert(!p.added.contains_key((b - 1) as usize));
    }
}

proof fn lemma_added_before_grows(p: Pending, a: nat, b: nat)
    requires
        a <= b,
    ensures
        p.added_before(a) <= p.added_before(b),
    decreases b,
{
    if a < b {
        lemma_added_before_grows(p, a, (b - 1) as nat);
    }
}

/// Nothing is pending just where the count is zero.
pub proof fn nothing_pending_counts_zero(p: Pending)
    requires
        p.wf(),
    ensures
        p.count() == 0 <==> p == Pending::empty(),
{
    if p.count() == 0 {
        assert(p.cells.dom() =~= Set::empty()) by {
            assert(p.cells.dom().len() == 0);
        }
        assert(p.struck =~= Set::empty());
        assert forall|a: usize| !p.added.contains_key(a) by {
            if p.added.contains_key(a) {
                lemma_added_before_grows(p, a as nat + 1, usize::MAX as nat + 1);
                assert(p.added_at(a).len() > 0);
                assert(p.added_before(a as nat + 1) >= p.added_at(a).len());
            }
        }
        assert(p.added.dom() =~= Set::empty());
        assert(p =~= Pending::empty());
    } else {
        lemma_added_before_gap(Pending::empty(), 0, usize::MAX as nat + 1);
    }
}

/// The edited cells of the rows numbered under `n`.
spec fn cells_under(cells: Map<Cell, Seq<char>>, n: int) -> Set<Cell> {
    cells.dom().filter(|c: Cell| c.0 < n)
}

proof fn lemma_row_cells(rows: Map<usize, BTreeMap<usize, String>>, row: usize)
    requires
        rows.contains_key(row),
        cells_under(cells_of(rows), row as int).finite(),
    ensures
        cells_under(cells_of(rows), row + 1).finite(),
        cells_under(cells_of(rows), row + 1).len() == cells_under(cells_of(rows), row as int).len()
            + rows[row]@.dom().len(),
{
    let under = cells_under(cells_of(rows), row as int);
    let fields = rows[row]@.dom();
    let f = |col: usize| (row, col);
    let here = cells_of(rows).dom().filter(|c: Cell| c.0 == row);
    assert(fields.finite());
    assert(fields.map(f) =~= here) by {
        assert forall|c: Cell| here.contains(c) implies fields.map(f).contains(c) by {
            assert(fields.contains(c.1) && f(c.1) == c);
        }
    }
    assert(vstd::relations::injective(f));
    vstd::set_lib::lemma_map_size(fields, here, f);
    fields.lemma_map_finite(f);
    assert(under.disjoint(here));
    vstd::set_lib::lemma_set_disjoint_lens(under, here);
    assert(cells_under(cells_of(rows), row + 1) =~= under + here);
}

impl Overlay {
    /// Cells carrying a pending edit.
    pub fn len(&self) -> (n: usize)
        requires
            self.wf(),
        ensures
            n == at_most_max(self@.pending.cells.dom().len()),
    {
        let keys = sorted_keys(&self.rows);
        let ghost cells = cells_of(self.rows@);
        let mut n: usize = 0;
        let mut i: usize = 0;
        let ghost under: int = 0;
        assert(cells_under(cells, 0) =~= Set::empty());
        while i < keys.len()
            invariant
                cells == cells_of(self.rows@),
                ascending(keys@),
                forall|k: usize| keys@.contains(k) <==> self.rows@.contains_key(k),
                0 <= i <= keys.len(),
                under == if i == 0 { 0int } else { keys@[i - 1] + 1 },
                cells_under(cells, under).finite(),
                n == at_most_max(cells_under(cells, under).len()),
            decreases keys.len() - i,
        {
            let row = keys[i];
            assert(keys@.contains(row));
            match self.rows.get(&row) {
                Some(fields) => {
                    proof {
                        assert(cells_under(cells, row as int) =~= cells_under(cells, under)) by {
                            assert forall|c: Cell| cells_under(cells, row as int).contains(c) implies c.0
                                < under by {
                                assert(keys@.contains(c.0));
                            }
                        }
                        lemma_row_cells(self.rows@, row);
                        under = row + 1;
                    }
                    n = n.saturating_add(fields.len());
                },
                None => {
                    assert(false);
                },
            }
            i += 1;
        }
        proof {
            assert(cells_under(cells, under) =~= cells.dom()) by {
                assert forall|c: Cell| cells.contains_key(c) implies c.0 < under by {
                    assert(keys@.contains(c.0));
                }
            }
        }
        n
    }

    /// Rows added that the file does not hold yet.
    pub fn added_count(&self) -> (n: usize)
        requires
            self.wf(),
        ensures
            n == at_most_max(self@.pending.added_count()),
    {
        let keys = sorted_keys(&self.added);
        let ghost p = self@.pending;
        let mut n: usize = 0;
        let mut i: usize = 0;
        let ghost under: nat = 0;
        while i < keys.len()
            invariant
                self.wf(),
                p == self@.pending,
                ascending(keys@),
                forall|k: usize| keys@.contains(k) <==> self.added@.contains_key(k),
                0 <= i <= keys.len(),
                under == if i == 0 { 0nat } else { (keys@[i - 1] + 1) as nat },
                n == at_most_max(p.added_before(under)),
            decreases keys.len() - i,
        {
            let anchor = keys[i];
            assert(keys@.contains(anchor));
            match self.added.get(&anchor) {
                Some(ids) => {
                    proof {
                        assert forall|k: usize| under <= k < anchor implies !p.added.contains_key(k) by {
                            if p.added.contains_key(k) {
                                assert(keys@.contains(k));
                            }
                        }
                        lemma_added_before_gap(p, under, anchor as nat);
                        assert(p.added_at(anchor) == ids@);
                        under = (anchor + 1) as nat;
                    }
                    n = n.saturating_add(ids.len());
                },
                None => {
                    assert(false);
                },
            }
            i += 1;
        }
        proof {
            assert forall|k: usize| under <= k < usize::MAX + 1 implies !p.added.contains_key(k) by {
                if p.added.contains_key(k) {
                    assert(keys@.contains(k));
                }
            }
            lemma_added_before_gap(p, under, usize::MAX as nat + 1);
        }
        n
    }

    /// Rows added before the file's rows up to and with `row`.
    pub fn added_through(&self, row: usize) -> (n: usize)
        requires
            self.wf(),
        ensures
            n == at_most_max(self@.pending.added_before(row as nat + 1)),
    {
        let keys = sorted_keys(&self.added);
        let ghost p = self@.pending;
        let mut n: usize = 0;
        let mut i: usize = 0;
        let ghost under: nat = 0;
        while i < keys.len() && keys[i] <= row
            invariant
                self.wf(),
                p == self@.pending,
                ascending(keys@),
                forall|k: usize| keys@.contains(k) <==> self.added@.contains_key(k),
                0 <= i <= keys.len(),
                under == if i == 0 { 0nat } else { (keys@[i - 1] + 1) as nat },
                under <= row + 1,
                n == at_most_max(p.added_before(under)),
            decreases keys.len() - i,
        {
            let anchor = keys[i];
            assert(keys@.contains(anchor));
            match self.added.get(&anchor) {
                Some(ids) => {
                    proof {
                        assert forall|k: usize| under <= k < anchor implies !p.added.contains_key(k) by {
                            if p.added.contains_key(k) {
                                assert(keys@.contains(k));
                            }
                        }
                        lemma_added_before_gap(p, under, anchor as nat);
                        assert(p.added_at(anchor) == ids@);
                        under = (anchor + 1) as nat;
                    }
                    n = n.saturating_add(ids.len());
                },
                None => {
                    assert(false);
                },
            }
            i += 1;
        }
        proof {
            assert forall|k: usize| under <= k < row + 1 implies !p.added.contains_key(k) by {
                if p.added.contains_key(k) {
                    assert(keys@.contains(k));
                }
            }
            lemma_added_before_gap(p, under, row as nat + 1);
        }
        n
    }

    pub fn is_empty(&self) -> (b: bool)
        requires
            self.wf(),
        ensures
            b == (self@.pending == Pending::empty()),
    {
        let b = self.rows.is_empty() && self.struck.is_empty() && self.added.is_empty();
        proof {
            if b {
                assert(self.rows@.dom() =~= Set::empty());
                assert(self.added@.dom() =~= Set::empty());
                assert(self@.pending =~= Pending::empty());
            } else if !self.rows@.dom().is_empty() {
                let r = self.rows@.dom().choose();
                assert(self.rows@.contains_key(r));
                let c = choose|c: usize| self.rows@[r]@.contains_key(c);
                assert(self@.pending.cells.contains_key((r, c)));
            } else if !self.struck@.is_empty() {
                assert(self@.pending.struck.contains(self.struck@.choose()));
            } else {
                let a = self.added@.dom().choose();
                assert(self.added@.contains_key(a));
                assert(self@.pending.added.contains_key(a));
            }
        }
        b
    }

    /// Everything pending, cells, struck rows and added rows together: what a
    /// status line counts and what makes quitting ask first.
    pub fn pending(&self) -> (n: usize)
        requires
            self.wf(),
        ensures
            n == at_most_max(self@.pending.count()),
    {
        self.len().saturating_add(self.struck.len()).saturating_add(self.added_count())
    }

    pub fn get(&self, cell: Cell) -> (value: Option<&str>)
        requires
            self.wf(),
        ensures
            match value {
                Some(text) => self@.pending.cells.contains_key(cell) && text@
                    == self@.pending.cells[cell],
                None => !self@.pending.cells.contains_key(cell),
            },
    {
        match self.rows.get(&cell.0) {
            Some(cells) => match cells.get(&cell.1) {
                Some(value) => Some(value.as_str()),
                None => None,
            },
            None => None,
        }
    }

    /// Pending edits for one row, keyed by field index.
    pub fn row(&self, row: usize) -> (cells: Option<&BTreeMap<usize, String>>)
        requires
            self.wf(),
        ensures
            match cells {
                Some(cells) => self@.pending.has_row(row) && row_text(cells@) == self@.pending.row(row),
                None => !self@.pending.has_row(row),
            },
    {
        match self.rows.get(&row) {
            Some(cells) => {
                proof {
                    let c = choose|c: usize| self.rows@[row]@.contains_key(c);
                    assert(self@.pending.cells.contains_key((row, c)));
                    assert(row_text(cells@) =~= self@.pending.row(row));
                }
                Some(cells)
            },
            None => None,
        }
    }

    /// Every edited row in ascending order.
    pub fn rows(&self) -> (rows: Vec<(usize, &BTreeMap<usize, String>)>)
        requires
            self.wf(),
        ensures
            ascending(rows@.map_values(|r: (usize, &BTreeMap<usize, String>)| r.0)),
            forall|row: usize| #[trigger]
                self@.pending.has_row(row) <==> exists|i: int|
                    0 <= i < rows@.len() && (#[trigger] rows@[i]).0 == row,
            forall|i: int|
                0 <= i < rows@.len() ==> row_text((#[trigger] rows@[i]).1@) == self@.pending.row(rows@[i].0),
    {
        let keys = sorted_keys(&self.rows);
        let mut rows: Vec<(usize, &BTreeMap<usize, String>)> = Vec::new();
        let mut i: usize = 0;
        while i < keys.len()
            invariant
                self.wf(),
                forall|k: usize| keys@.contains(k) <==> self.rows@.contains_key(k),
                0 <= i <= keys.len(),
                rows@.len() == i,
                forall|j: int| 0 <= j < i ==> (#[trigger] rows@[j]).0 == keys@[j] && row_text(rows@[j].1@)
                    == self@.pending.row(keys@[j]),
            decreases keys.len() - i,
        {
            assert(keys@.contains(keys@[i as int]));
            match self.row(keys[i]) {
                Some(cells) => rows.push((keys[i], cells)),
                None => {
                    proof {
                        let r = keys@[i as int];
                        let c = choose|c: usize| self.rows@[r]@.contains_key(c);
                        assert(self@.pending.cells.contains_key((r, c)));
                    }
                },
            }
            i += 1;
        }
        proof {
            let numbers = rows@.map_values(|r: (usize, &BTreeMap<usize, String>)| r.0);
            assert(numbers =~= keys@);
            assert forall|row: usize| #[trigger] self@.pending.has_row(row) implies exists|i: int|
                0 <= i < rows@.len() && (#[trigger] rows@[i]).0 == row by {
                assert(keys@.contains(row));
                let i = choose|i: int| 0 <= i < keys@.len() && keys@[i] == row;
                assert(rows@[i].0 == row);
            }
            assert forall|row: usize|
                (exists|i: int| 0 <= i < rows@.len() && (#[trigger] rows@[i]).0 == row) implies
                #[trigger] self@.pending.has_row(row) by {
                let i = choose|i: int| 0 <= i < rows@.len() && (#[trigger] rows@[i]).0 == row;
                assert(keys@.contains(row));
                let c = choose|c: usize| self.rows@[row]@.contains_key(c);
                assert(self@.pending.cells.contains_key((row, c)));
            }
        }
        rows
    }

    /// Whether a source row is struck out.
    pub fn is_struck(&self, row: usize) -> (b: bool)
        requires
            self.wf(),
        ensures
            b == self@.pending.struck.contains(row),
    {
        self.struck.contains(&row)
    }

    /// Struck rows, in file order.
    pub fn struck(&self) -> (rows: Vec<usize>)
        requires
            self.wf(),
        ensures
            ascending(rows@),
            rows@.to_set() == self@.pending.struck,
    {
        sorted_members(&self.struck)
    }

    /// How many struck rows come before `row`, which is what turns a display
    /// position back into a file row.
    pub fn struck_before(&self, row: usize) -> (n: usize)
        requires
            self.wf(),
        ensures
            n == self@.pending.struck_before(row as int),
    {
        let rows = sorted_members(&self.struck);
        let mut n: usize = 0;
        while n < rows.len() && rows[n] < row
            invariant
                n <= rows.len(),
                forall|i: int| 0 <= i < n ==> rows@[i] < row,
            decreases rows.len() - n,
        {
            n += 1;
        }
        proof {
            let front = rows@.take(n as int);
            let under = self.struck@.filter(|r: usize| r < row);
            assert(front.no_duplicates());
            front.unique_seq_to_set();
            assert forall|r: usize| under.contains(r) implies front.to_set().contains(r) by {
                assert(rows@.to_set().contains(r));
                let i = choose|i: int| 0 <= i < rows@.len() && rows@[i] == r;
                if i >= n {
                    assert(rows@[n as int] <= rows@[i]);
                }
                assert(front[i] == r);
            }
            assert forall|r: usize| front.to_set().contains(r) implies under.contains(r) by {
                let i = choose|i: int| 0 <= i < front.len() && front[i] == r;
                assert(rows@.contains(rows@[i]));
            }
            assert(front.to_set() =~= under);
        }
        n
    }

    pub fn struck_count(&self) -> (n: usize)
        requires
            self.wf(),
        ensures
            n == self@.pending.struck.len(),
    {
        self.struck.len()
    }

    pub fn can_undo(&self) -> (b: bool)
        ensures
            b == (self@.undo.len() > 0),
    {
        !self.undo.is_empty()
    }

    pub fn can_redo(&self) -> (b: bool)
        ensures
            b == (self@.redo.len() > 0),
    {
        !self.redo.is_empty()
    }
}

/// The lists of added rows, smallest anchor first.
pub open spec fn lists_in_order(lists: Seq<(usize, &Vec<usize>)>, added: Map<usize, Seq<usize>>) -> bool {
    &&& ascending(lists.map_values(|l: (usize, &Vec<usize>)| l.0))
    &&& forall|i: int|
        0 <= i < lists.len() ==> added.contains_key((#[trigger] lists[i]).0) && lists[i].1@
            == added[lists[i].0]
    &&& forall|a: usize| #[trigger]
        added.contains_key(a) ==> exists|i: int| 0 <= i < lists.len() && (#[trigger] lists[i]).0 == a
}

impl Overlay {
    /// How many struck rows lie from `from` up to and without `to`.
    pub fn struck_in(&self, from: usize, to: usize) -> (n: usize)
        requires
            self.wf(),
            from <= to,
        ensures
            n == self@.pending.struck_before(to as int) - self@.pending.struck_before(from as int),
    {
        proof {
            let p = self@.pending;
            let a = p.struck.filter(|r: usize| r < from);
            let b = p.struck.filter(|r: usize| r < to);
            assert(a.subset_of(b));
            vstd::set_lib::lemma_len_subset(a, b);
        }
        self.struck_before(to) - self.struck_before(from)
    }

    /// Ids of the rows added just before `before`, in order.
    pub fn added_at(&self, before: usize) -> (ids: &[usize])
        requires
            self.wf(),
        ensures
            ids@ == self@.pending.added_at(before),
    {
        match self.added.get(&before) {
            Some(ids) => ids.as_slice(),
            None => {
                let none: &[usize] = &[];
                assert(none@ =~= self@.pending.added_at(before));
                none
            },
        }
    }

    /// Every list of added rows, in the order of the rows they go in before.
    pub fn added(&self) -> (lists: Vec<(usize, &Vec<usize>)>)
        requires
            self.wf(),
        ensures
            lists_in_order(lists@, self@.pending.added),
    {
        let keys = sorted_keys(&self.added);
        let mut lists: Vec<(usize, &Vec<usize>)> = Vec::new();
        let mut i: usize = 0;
        while i < keys.len()
            invariant
                self.wf(),
                forall|k: usize| keys@.contains(k) <==> self.added@.contains_key(k),
                0 <= i <= keys.len(),
                lists@.len() == i,
                forall|j: int| 0 <= j < i ==> (#[trigger] lists@[j]).0 == keys@[j]
                    && self.added@.contains_key(keys@[j]) && *lists@[j].1 == self.added@[keys@[j]],
            decreases keys.len() - i,
        {
            assert(keys@.contains(keys@[i as int]));
            if let Some(ids) = self.added.get(&keys[i]) {
                lists.push((keys[i], ids));
            }
            i += 1;
        }
        proof {
            let added = self@.pending.added;
            assert(lists@.map_values(|l: (usize, &Vec<usize>)| l.0) =~= keys@);
            assert forall|a: usize| #[trigger] added.contains_key(a) implies exists|i: int|
                0 <= i < lists@.len() && (#[trigger] lists@[i]).0 == a by {
                assert(keys@.contains(a));
                let i = choose|i: int| 0 <= i < keys@.len() && keys@[i] == a;
                assert(lists@[i].0 == a);
            }
        }
        lists
    }

    /// Where an added row stands: the row it goes in before, and its place
    /// among those added there.
    pub fn locate(&self, id: usize) -> (found: Option<(usize, usize)>)
        requires
            self.wf(),
        ensures
            match found {
                Some((anchor, place)) => {
                    let ids = self@.pending.added_at(anchor);
                    &&& place < ids.len() && ids[place as int] == id
                    &&& place < usize::MAX
                    &&& forall|k: int| 0 <= k < place ==> ids[k] != id
                    &&& forall|a: usize| a < anchor ==> !(#[trigger] self@.pending.added_at(a)).contains(id)
                },
                None => forall|a: usize| !(#[trigger] self@.pending.added_at(a)).contains(id),
            },
    {
        let lists = self.added();
        let ghost anchors = lists@.map_values(|l: (usize, &Vec<usize>)| l.0);
        let mut i: usize = 0;
        while i < lists.len()
            invariant
                self.wf(),
                lists_in_order(lists@, self@.pending.added),
                anchors == lists@.map_values(|l: (usize, &Vec<usize>)| l.0),
                i <= lists.len(),
                forall|j: int| 0 <= j < i ==> !(#[trigger] lists@[j]).1@.contains(id),
            decreases lists.len() - i,
        {
            let (anchor, ids) = lists[i];
            let mut place: usize = 0;
            while place < ids.len() && ids[place] != id
                invariant
                    place <= ids.len(),
                    forall|k: int| 0 <= k < place ==> ids@[k] != id,
                decreases ids.len() - place,
            {
                place += 1;
            }
            if place < ids.len() {
                proof {
                    assert(lists@[i as int].0 == anchor);
                    assert forall|a: usize| a < anchor implies !(#[trigger] self@.pending.added_at(a)).contains(
                        id,
                    ) by {
                        if self@.pending.added.contains_key(a) {
                            let j = choose|j: int| 0 <= j < lists@.len() && (#[trigger] lists@[j]).0 == a;
                            if j >= i {
                                assert(anchors[i as int] <= anchors[j]);
                            }
                            assert(!lists@[j].1@.contains(id));
                        }
                    }
                }
                return Some((anchor, place));
            }
            i += 1;
        }
        proof {
            assert forall|a: usize| !(#[trigger] self@.pending.added_at(a)).contains(id) by {
                if self@.pending.added.contains_key(a) {
                    let j = choose|j: int| 0 <= j < lists@.len() && (#[trigger] lists@[j]).0 == a;
                    assert(!lists@[j].1@.contains(id));
                }
            }
        }
        None
    }

    /// The number that the next added row would get, for a file of `total_rows`.
    pub fn next_id(&self, total_rows: usize) -> (id: usize)
        ensures
            id == if self@.next_id < total_rows { total_rows as nat } else { self@.next_id },
    {
        if self.next_id < total_rows {
            total_rows
        } else {
            self.next_id
        }
    }

    /// Open an empty row before row `before` of the file, at place `at` among
    /// those already added there, as one undoable step. Returns its id: added
    /// rows are numbered past the end of the file, so an id is never the number
    /// of one of its rows, nor one given out before.
    pub fn add_row(&mut self, before: usize, at: usize, total_rows: usize) -> (id: usize)
        requires
            old(self).wf(),
            total_rows < usize::MAX,
            old(self)@.next_id < usize::MAX,
        ensures
            final(self).wf(),
            id == if old(self)@.next_id < total_rows { total_rows as nat } else { old(self)@.next_id },
            final(self)@ == (Buffer { next_id: id as nat + 1, ..old(self)@ }).change(
                added_step(old(self)@.pending, before, at, id),
            ),
    {
        let id = self.next_id(total_rows);
        let mut ids: Vec<usize> = Vec::new();
        match self.added.get(&before) {
            Some(there) => ids.extend_from_slice(there.as_slice()),
            None => {},
        }
        let place: usize = if at < ids.len() { at } else { ids.len() };
        assert(ids@ =~= self@.pending.added_at(before));
        ids.insert(place, id);
        self.next_id = id + 1;
        let mut change: Vec<Undoable> = Vec::new();
        change.push(Undoable::Added(before, ids));
        assert(steps(change@) =~= added_step(old(self)@.pending, before, at, id));
        assert(self@ =~= (Buffer { next_id: id as nat + 1, ..old(self)@ }));
        self.record(change);
        id
    }

    /// Delete rows of a file of `total_rows` rows, as one undoable step: a row
    /// of the file is struck out, an added one goes with everything typed into
    /// it.
    pub fn delete(&mut self, rows: Vec<usize>, total_rows: usize)
        requires
            old(self).wf(),
        ensures
            final(self).wf(),
            final(self)@.pending == old(self)@.pending.deleted(rows@.to_set(), total_rows),
            exists|change: Seq<Step>| #[trigger]
                takes_out(change, old(self)@.pending, total_rows) && final(self)@ == old(self)@.change(
                    change,
                ),
    {
        let change = self.deletion(&rows, total_rows);
        proof {
            lemma_same_as(
                self@.pending,
                self@.pending.deleted(rows@.to_set(), total_rows),
                steps(change@),
            );
        }
        self.record(change);
        assert(takes_out(steps(change@), old(self)@.pending, total_rows));
    }
}

/// A change of a deletion: it touches no place twice, strikes rows of the file,
/// and leaves alone what holds no added row.
pub open spec fn takes_out(change: Seq<Step>, p: Pending, total: usize) -> bool {
    &&& distinct(change)
    &&& forall|i: int| 0 <= i < change.len() ==> takes(#[trigger] change[i], p, total)
}

pub open spec fn takes(step: Step, p: Pending, total: usize) -> bool {
    match step {
        Step::Cell(_, value) => value is None,
        Step::Struck(row, on) => on && row < total,
        Step::Added(anchor, _) => p.added.contains_key(anchor),
    }
}

/// The one step of opening a row.
pub open spec fn added_step(p: Pending, before: usize, at: usize, id: usize) -> Seq<Step> {
    let there = p.added_at(before);
    let place = if at < there.len() { at as int } else { there.len() as int };
    seq![Step::Added(before, there.insert(place, id))]
}

/// A change whose every step agrees with `q`, and which touches every place
/// where `p` does not, leads from `p` to `q`.
proof fn lemma_same_as(p: Pending, q: Pending, change: Seq<Step>)
    requires
        p.wf(),
        q.wf(),
        distinct(change),
        forall|i: int| 0 <= i < change.len() ==> #[trigger] change[i] == q.at(change[i].target()),
        forall|t: Target| #[trigger]
            p.at(t) == q.at(t) || exists|i: int|
                0 <= i < change.len() && (#[trigger] change[i]).target() == t,
    ensures
        p.put_all(change) == q,
        change.len() == 0 ==> p == q,
{
    lemma_put_all_wf(p, change);
    assert forall|t: Target| #[trigger] p.put_all(change).at(t) == q.at(t) by {
        lemma_put_all_at(p, change, t);
        assert(p.at(t) == q.at(t) || exists|i: int|
            0 <= i < change.len() && (#[trigger] change[i]).target() == t);
    }
    lemma_same_places(p.put_all(change), q);
}

impl Overlay {
    /// The steps that take `rows` out, each place once.
    fn deletion(&self, rows: &Vec<usize>, total_rows: usize) -> (change: Vec<Undoable>)
        requires
            self.wf(),
        ensures
            ({
                let p = self@.pending;
                let q = p.deleted(rows@.to_set(), total_rows);
                let c = steps(change@);
                &&& q.wf()
                &&& takes_out(c, p, total_rows)
                &&& forall|i: int| 0 <= i < c.len() ==> #[trigger] c[i] == q.at(c[i].target())
                &&& forall|t: Target| #[trigger]
                    p.at(t) == q.at(t) || exists|i: int|
                        0 <= i < c.len() && (#[trigger] c[i]).target() == t
            }),
    {
        let ghost p = self@.pending;
        let ghost named = rows@.to_set();
        let ghost q = p.deleted(named, total_rows);
        let ghost kept = |id: usize| id < total_rows || !named.contains(id);
        let mut strike: BTreeSet<usize> = BTreeSet::new();
        let mut drop: BTreeSet<usize> = BTreeSet::new();
        let mut i: usize = 0;
        while i < rows.len()
            invariant
                i <= rows.len(),
                strike@ == rows@.take(i as int).to_set().filter(|r: usize| r < total_rows),
                drop@ == rows@.take(i as int).to_set().filter(|r: usize| r >= total_rows),
            decreases rows.len() - i,
        {
            let row = rows[i];
            assert(rows@.take(i + 1).to_set() =~= rows@.take(i as int).to_set().insert(row)) by {
                assert(rows@.take(i + 1) =~= rows@.take(i as int).push(row));
                assert forall|r: usize| rows@.take(i as int).to_set().insert(row).contains(r) implies rows@.take(
                    i + 1,
                ).to_set().contains(r) by {
                    if r == row {
                        assert(rows@.take(i + 1)[i as int] == r);
                    } else {
                        let k = choose|k: int| 0 <= k < i && rows@.take(i as int)[k] == r;
                        assert(rows@.take(i + 1)[k] == r);
                    }
                }
            }
            if row < total_rows {
                strike.insert(row);
            } else {
                drop.insert(row);
            }
            assert(strike@ =~= rows@.take(i + 1).to_set().filter(|r: usize| r < total_rows));
            assert(drop@ =~= rows@.take(i + 1).to_set().filter(|r: usize| r >= total_rows));
            i += 1;
        }
        assert(rows@.take(rows@.len() as int) =~= rows@);
        proof {
            assert(named.finite());
            assert forall|a: usize| #[trigger] q.added.contains_key(a) implies p.added.contains_key(a) by {
                reveal(Seq::filter);
            }
            assert(q.added.dom().subset_of(p.added.dom()));
            vstd::set_lib::lemma_len_subset(q.added.dom(), p.added.dom());
        }
        let mut change: Vec<Undoable> = Vec::new();
        assert(steps(change@) =~= Seq::empty());

        let struck = sorted_members(&strike);
        i = 0;
        while i < struck.len()
            invariant
                ascending(struck@),
                struck@.to_set() == strike@,
                strike@ == named.filter(|r: usize| r < total_rows),
                q == p.deleted(named, total_rows),
                i <= struck.len(),
                steps(change@) == struck_steps(struck@.take(i as int)),
            decreases struck.len() - i,
        {
            let ghost before = change@;
            change.push(Undoable::Struck(struck[i], true));
            assert(steps(change@) =~= steps(before).push(Step::Struck(struck@[i as int], true)));
            assert(steps(change@) =~= struck_steps(struck@.take(i + 1)));
            i += 1;
        }
        proof {
            assert(struck@.take(struck@.len() as int) =~= struck@);
            let c = steps(change@);
            assert forall|j: int| 0 <= j < c.len() implies #[trigger] c[j] == q.at(c[j].target()) && takes(
                c[j],
                p,
                total_rows,
            ) by {
                assert(struck@.contains(struck@[j]));
            }
            assert forall|r: usize| q.struck.contains(r) != p.struck.contains(r) implies exists|j: int|
                0 <= j < c.len() && (#[trigger] c[j]).target() == Target::Row(r) by {
                assert(strike@.contains(r));
                let j = choose|j: int| 0 <= j < struck@.len() && struck@[j] == r;
                assert(c[j].target() == Target::Row(r));
            }
        }
        let ghost first = steps(change@);

        let anchors = sorted_keys(&self.added);
        i = 0;
        while i < anchors.len()
            invariant
                self.wf(),
                p == self@.pending,
                kept == |id: usize| id < total_rows || !named.contains(id),
                drop@ == named.filter(|r: usize| r >= total_rows),
                q == p.deleted(named, total_rows),
                ascending(anchors@),
                forall|k: usize| anchors@.contains(k) <==> self.added@.contains_key(k),
                i <= anchors.len(),
                distinct(steps(change@)),
                first.is_prefix_of(steps(change@)),
                forall|j: int|
                    0 <= j < steps(change@).len() ==> takes(#[trigger] steps(change@)[j], p, total_rows),
                forall|j: int|
                    0 <= j < steps(change@).len() ==> #[trigger] steps(change@)[j] == q.at(
                        steps(change@)[j].target(),
                    ),
                forall|j: int| 0 <= j < steps(change@).len() ==> match (#[trigger] steps(change@)[j]).target() {
                    Target::Row(_) => true,
                    Target::Anchor(a) => exists|k: int| 0 <= k < i && anchors@[k] == a,
                    Target::Cell(_) => false,
                },
                forall|k: int|
                    0 <= k < i && p.added_at(#[trigger] anchors@[k]) != q.added_at(anchors@[k])
                        ==> exists|j: int|
                        0 <= j < steps(change@).len() && (#[trigger] steps(change@)[j]).target()
                            == Target::Anchor(anchors@[k]),
            decreases anchors.len() - i,
        {
            let anchor = anchors[i];
            assert(anchors@.contains(anchor));
            if let Some(ids) = self.added.get(&anchor) {
                let mut left: Vec<usize> = Vec::new();
                let mut k: usize = 0;
                while k < ids.len()
                    invariant
                        kept == |id: usize| id < total_rows || !named.contains(id),
                        drop@ == named.filter(|r: usize| r >= total_rows),
                        k <= ids.len(),
                        left@ == ids@.take(k as int).filter(kept),
                        left@.len() <= k,
                        left@.len() == k ==> left@ == ids@.take(k as int),
                    decreases ids.len() - k,
                {
                    proof {
                        reveal(Seq::filter);
                        assert(ids@.take(k + 1).drop_last() =~= ids@.take(k as int));
                    }
                    if !drop.contains(&ids[k]) {
                        left.push(ids[k]);
                    }
                    assert(left@.len() == k + 1 ==> left@ =~= ids@.take(k + 1));
                    k += 1;
                }
                proof {
                    assert(ids@.take(ids@.len() as int) =~= ids@);
                    assert(p.added_at(anchor) == ids@);
                    if left@.len() == 0 {
                        assert(left@ =~= Seq::empty());
                    }
                    assert(q.added_at(anchor) == left@);
                }
                if left.len() != ids.len() {
                    let ghost before = steps(change@);
                    change.push(Undoable::Added(anchor, left));
                    let ghost c = steps(change@);
                    proof {
                        assert(c =~= before.push(Step::Added(anchor, left@)));
                        assert forall|j: int| 0 <= j < before.len() implies (#[trigger] c[j]).target()
                            != Target::Anchor(anchor) by {
                            assert(c[j] == before[j]);
                            if let Target::Anchor(a) = before[j].target() {
                                let k = choose|k: int| 0 <= k < i && anchors@[k] == a;
                                assert(anchors@[k] < anchors@[i as int]);
                            }
                        }
                        assert forall|m: int|
                            0 <= m < i + 1 && p.added_at(#[trigger] anchors@[m]) != q.added_at(
                                anchors@[m],
                            ) implies exists|j: int|
                            0 <= j < c.len() && (#[trigger] c[j]).target() == Target::Anchor(
                                anchors@[m],
                            ) by {
                            if m < i {
                                let j = choose|j: int|
                                    0 <= j < before.len() && (#[trigger] before[j]).target()
                                        == Target::Anchor(anchors@[m]);
                                assert(c[j] == before[j]);
                            } else {
                                assert(c[before.len() as int].target() == Target::Anchor(anchors@[m]));
                            }
                        }
                        assert forall|j: int| 0 <= j < c.len() implies match (#[trigger] c[j]).target() {
                            Target::Row(_) => true,
                            Target::Anchor(a) => exists|k: int| 0 <= k < i + 1 && anchors@[k] == a,
                            Target::Cell(_) => false,
                        } by {
                            if j < before.len() {
                                assert(c[j] == before[j]);
                            } else {
                                assert(anchors@[i as int] == anchor);
                            }
                        }
                    }
                }
            }
            i += 1;
        }
        let ghost second = steps(change@);
        proof {
            assert forall|t: Target| #![trigger p.at(t)]
                !(t is Cell) && p.at(t) != q.at(t) implies exists|i: int|
                0 <= i < second.len() && (#[trigger] second[i]).target() == t by {
                match t {
                    Target::Row(r) => {
                        let j = choose|j: int| 0 <= j < first.len() && (#[trigger] first[j]).target() == t;
                        assert(second[j] == first[j]);
                    },
                    Target::Anchor(a) => {
                        if !p.added.contains_key(a) {
                            reveal(Seq::filter);
                            assert(p.added_at(a).filter(kept) =~= Seq::empty());
                        } else {
                            assert(anchors@.contains(a));
                            let k = choose|k: int| 0 <= k < anchors@.len() && anchors@[k] == a;
                            assert(p.added_at(anchors@[k]) != q.added_at(anchors@[k]));
                        }
                    },
                    Target::Cell(_) => {},
                }
            }
        }

        let lines = sorted_members(&drop);
        i = 0;
        while i < lines.len()
            invariant
                self.wf(),
                p == self@.pending,
                drop@ == named.filter(|r: usize| r >= total_rows),
                q == p.deleted(named, total_rows),
                ascending(lines@),
                lines@.to_set() == drop@,
                i <= lines.len(),
                distinct(steps(change@)),
                second.is_prefix_of(steps(change@)),
                forall|j: int|
                    0 <= j < steps(change@).len() ==> takes(#[trigger] steps(change@)[j], p, total_rows),
                forall|j: int| 0 <= j < steps(change@).len() ==> #[trigger] steps(change@)[j] == q.at(
                    steps(change@)[j].target(),
                ),
                forall|j: int| 0 <= j < steps(change@).len() ==> match (#[trigger] steps(change@)[j]).target() {
                    Target::Cell(c) => exists|k: int| 0 <= k < i && lines@[k] == c.0,
                    _ => true,
                },
                forall|c: Cell| #[trigger]
                    p.cells.contains_key(c) && (exists|k: int| 0 <= k < i && lines@[k] == c.0)
                        ==> exists|j: int| 0 <= j < steps(change@).len() && (#[trigger] steps(
                        change@,
                    )[j]).target() == Target::Cell(c),
            decreases lines.len() - i,
        {
            let row = lines[i];
            assert(lines@.contains(row));
            if let Some(cells) = self.rows.get(&row) {
                let fields = sorted_keys(cells);
                let ghost start = steps(change@);
                let mut k: usize = 0;
                while k < fields.len()
                    invariant
                        self.rows@.contains_key(row),
                        cells == self.rows@[row],
                        p == self@.pending,
                        drop@ == named.filter(|r: usize| r >= total_rows),
                        drop@.contains(row),
                        q == p.deleted(named, total_rows),
                        i < lines.len(),
                        row == lines@[i as int],
                        ascending(lines@),
                        ascending(fields@),
                        forall|f: usize| fields@.contains(f) <==> cells@.contains_key(f),
                        k <= fields.len(),
                        distinct(steps(change@)),
                        start.is_prefix_of(steps(change@)),
                        forall|j: int|
                            0 <= j < steps(change@).len() ==> takes(
                                #[trigger] steps(change@)[j],
                                p,
                                total_rows,
                            ),
                        forall|j: int| 0 <= j < start.len() ==> match (#[trigger] start[j]).target() {
                            Target::Cell(c) => exists|k: int| 0 <= k < i && lines@[k] == c.0,
                            _ => true,
                        },
                        forall|j: int| 0 <= j < steps(change@).len() ==> #[trigger] steps(change@)[j] == q.at(
                            steps(change@)[j].target(),
                        ),
                        steps(change@).len() == start.len() + k,
                        forall|m: int| 0 <= m < k ==> (#[trigger] steps(change@)[start.len() + m]).target()
                            == Target::Cell((row, fields@[m])),
                    decreases fields.len() - k,
                {
                    let ghost before = steps(change@);
                    change.push(Undoable::Cell((row, fields[k]), None));
                    let ghost c = steps(change@);
                    proof {
                        assert(fields@.contains(fields@[k as int]));
                        assert(c =~= before.push(Step::Cell((row, fields@[k as int]), None)));
                        assert forall|j: int| 0 <= j < before.len() implies (#[trigger] c[j]).target()
                            != Target::Cell((row, fields@[k as int])) by {
                            assert(c[j] == before[j]);
                            if j < start.len() {
                                assert(start[j] == before[j]);
                                if let Target::Cell(cell) = start[j].target() {
                                    let m = choose|m: int| 0 <= m < i && lines@[m] == cell.0;
                                    assert(lines@[m] < lines@[i as int]);
                                }
                            } else {
                                let m = j - start.len();
                                assert(before[start.len() + m].target() == Target::Cell((row, fields@[m])));
                            }
                        }
                        assert forall|m: int| 0 <= m < k + 1 implies (#[trigger] c[start.len() + m]).target()
                            == Target::Cell((row, fields@[m])) by {
                            if m < k {
                                assert(c[start.len() + m] == before[start.len() + m]);
                            }
                        }
                    }
                    k += 1;
                }
                proof {
                    let c = steps(change@);
                    assert forall|j: int| 0 <= j < c.len() implies match (#[trigger] c[j]).target() {
                        Target::Cell(cell) => exists|k: int| 0 <= k < i + 1 && lines@[k] == cell.0,
                        _ => true,
                    } by {
                        if j < start.len() {
                            assert(c[j] == start[j]);
                        } else {
                            let m = j - start.len();
                            assert(c[start.len() + m].target() == Target::Cell((row, fields@[m])));
                            assert(lines@[i as int] == row);
                        }
                    }
                    assert forall|cell: Cell| #[trigger]
                        p.cells.contains_key(cell) && (exists|k: int| 0 <= k < i + 1 && lines@[k]
                            == cell.0) implies exists|j: int|
                        0 <= j < c.len() && (#[trigger] c[j]).target() == Target::Cell(cell) by {
                        if cell.0 == row {
                            assert(fields@.contains(cell.1));
                            let m = choose|m: int| 0 <= m < fields@.len() && fields@[m] == cell.1;
                            assert(c[start.len() + m].target() == Target::Cell(cell));
                        } else {
                            let j = choose|j: int|
                                0 <= j < start.len() && (#[trigger] start[j]).target() == Target::Cell(
                                    cell,
                                );
                            assert(c[j] == start[j]);
                        }
                    }
                }
            }
            i += 1;
        }
        proof {
            let c = steps(change@);
            assert(q.cells.dom().subset_of(p.cells.dom()));
            assert forall|t: Target| #[trigger]
                p.at(t) == q.at(t) || exists|i: int|
                    0 <= i < c.len() && (#[trigger] c[i]).target() == t by {
                if p.at(t) != q.at(t) {
                    if let Target::Cell(cell) = t {
                        assert(p.cells.contains_key(cell));
                        assert(drop@.contains(cell.0));
                        let k = choose|k: int| 0 <= k < lines@.len() && lines@[k] == cell.0;
                    } else {
                        let j = choose|j: int| 0 <= j < second.len() && (#[trigger] second[j]).target() == t;
                        assert(c[j] == second[j]);
                    }
                }
            }
        }
        change
    }
}

} // verus!
