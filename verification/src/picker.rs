//! The column picker: choosing what is on show without naming every column.
//!
//! It holds a working copy of what it is editing, so leaving costs nothing and
//! applying is the only thing that changes the view. What it produces is a
//! selection of columns, applied through the same path every other one takes.
use vstd::prelude::*;
use std::collections::BTreeSet;
use crate::text;
use crate::text::{decimal_text, table, texts};
use crate::ui::{held, scrolled, BrowserState, Width};
use crate::view::all_columns;

verus! {

broadcast use {vstd::std_specs::btree::group_btree_axioms, vstd::laws_cmp::group_laws_cmp};

pub struct Picker {
    /// Source column indices in the order they are listed: the view's own
    /// order first, then the columns it hides.
    order: Vec<usize>,
    /// Every column's name, indexed by source column.
    names: Vec<String>,
    shown: BTreeSet<usize>,
    pinned: BTreeSet<usize>,
    pub state: BrowserState,
}

/// What a picker holds.
#[verifier::ext_equal]
pub struct Choice {
    pub order: Seq<usize>,
    pub names: Seq<Seq<char>>,
    pub shown: Set<usize>,
    pub pinned: Set<usize>,
    pub state: BrowserState,
}

impl Choice {
    /// The columns to select, in the order they are listed.
    pub open spec fn selection(self) -> Seq<usize> {
        self.order.filter(|c: usize| self.shown.contains(c))
    }

    /// The source column the cursor is on.
    pub open spec fn cursor(self) -> Option<usize> {
        if self.state.selected < self.order.len() {
            Some(self.order[self.state.selected as int])
        } else {
            None
        }
    }

    /// The cursor on a line, or on the last one where there is no such.
    pub open spec fn at(self, line: int) -> Choice {
        Choice {
            state: BrowserState { selected: held(line, self.order.len()) as usize, ..self.state },
            ..self
        }
    }

    /// The cursor's column on show or not, the other way round.
    pub open spec fn show_toggled(self) -> Choice {
        match self.cursor() {
            None => self,
            Some(c) => if self.shown.contains(c) {
                if self.shown.len() == 1 {
                    self
                } else {
                    Choice { shown: self.shown.remove(c), ..self }
                }
            } else {
                Choice { shown: self.shown.insert(c), ..self }
            },
        }
    }

    /// The cursor's column is the last one on show.
    pub open spec fn is_last_shown(self) -> bool {
        self.cursor() matches Some(c) && self.shown.contains(c) && self.shown.len() == 1
    }

    pub open spec fn all_shown(self) -> Choice {
        Choice { shown: self.order.to_set(), ..self }
    }

    pub open spec fn only_cursor(self) -> Choice {
        match self.cursor() {
            None => self,
            Some(c) => Choice { shown: set![c], ..self },
        }
    }

    pub open spec fn pin_toggled(self) -> Choice {
        match self.cursor() {
            None => self,
            Some(c) => Choice {
                pinned: if self.pinned.contains(c) {
                    self.pinned.remove(c)
                } else {
                    self.pinned.insert(c)
                },
                ..self
            },
        }
    }

    /// What is listed for one column: its name, or its number where it has
    /// none, and a mark under each heading that holds of it.
    pub open spec fn line(self, column: usize) -> Seq<Seq<char>> {
        seq![
            if column < self.names.len() {
                self.names[column as int]
            } else {
                decimal_text(column as nat)
            },
            mark(self.shown.contains(column)),
            mark(self.pinned.contains(column)),
        ]
    }

    pub open spec fn lines(self) -> Seq<Seq<Seq<char>>> {
        self.order.map_values(|c: usize| self.line(c))
    }
}

/// A blank rather than a second mark for the off state: the ticks are being
/// scanned down a column, and two marks make that a reading problem rather than
/// a glance.
pub open spec fn mark(on: bool) -> Seq<char> {
    if on {
        "\u{2713}"@
    } else {
        Seq::empty()
    }
}

/// The view's columns, then the ones it hides in the file's own order.
pub open spec fn listed(view_order: Seq<usize>, width: nat) -> Seq<usize> {
    view_order + all_columns(width).filter(|c: usize| !view_order.to_set().contains(c))
}

impl View for Picker {
    type V = Choice;

    closed spec fn view(&self) -> Choice {
        Choice {
            order: self.order@,
            names: texts(self.names@),
            shown: self.shown@,
            pinned: self.pinned@,
            state: self.state,
        }
    }
}

/// What ticks a box.
pub fn tick() -> (t: String)
    ensures
        t@ == mark(true),
{
    "\u{2713}".to_owned()
}

fn mark_text(on: bool) -> (t: String)
    ensures
        t@ == mark(on),
{
    if on {
        tick()
    } else {
        String::new()
    }
}

impl Picker {
    /// Every column shown is one that is listed.
    pub closed spec fn wf(self) -> bool {
        &&& self.shown@.finite()
        &&& self.shown@.subset_of(self.order@.to_set())
    }

    /// `view_order` is the source columns on show, in the order they are drawn.
    pub fn new(names: Vec<String>, view_order: Vec<usize>, pinned: BTreeSet<usize>) -> (p: Self)
        ensures
            p.wf(),
            p@ == (Choice {
                order: listed(view_order@, names@.len()),
                names: texts(names@),
                shown: view_order@.to_set(),
                pinned: pinned@,
                state: BrowserState { selected: 0, offset: 0 },
            }),
    {
        let mut order: Vec<usize> = Vec::new();
        let mut shown: BTreeSet<usize> = BTreeSet::new();
        let mut i: usize = 0;
        assert(view_order@.take(0).to_set() =~= Set::empty());
        while i < view_order.len()
            invariant
                i <= view_order.len(),
                order@ == view_order@.take(i as int),
                shown@ == view_order@.take(i as int).to_set(),
            decreases view_order.len() - i,
        {
            let ghost before = view_order@.take(i as int);
            order.push(view_order[i]);
            shown.insert(view_order[i]);
            proof {
                assert(view_order@.take(i + 1) =~= before.push(view_order@[i as int]));
                before.lemma_push_to_set_commute(view_order@[i as int]);
            }
            i += 1;
        }
        assert(view_order@.take(i as int) =~= view_order@);
        let ghost hidden = |c: usize| !view_order@.to_set().contains(c);
        let mut c: usize = 0;
        proof {
            reveal(Seq::filter);
            assert(all_columns(0).filter(hidden) =~= Seq::empty());
            assert(order@ =~= view_order@ + all_columns(0).filter(hidden));
        }
        while c < names.len()
            invariant
                c <= names.len(),
                shown@ == view_order@.to_set(),
                hidden == |c: usize| !view_order@.to_set().contains(c),
                order@ == view_order@ + all_columns(c as nat).filter(hidden),
            decreases names.len() - c,
        {
            proof {
                reveal(Seq::filter);
                assert(all_columns(c as nat + 1).drop_last() =~= all_columns(c as nat));
            }
            if !shown.contains(&c) {
                order.push(c);
            }
            c += 1;
            assert(order@ =~= view_order@ + all_columns(c as nat).filter(hidden));
        }
        let p = Picker { order, names, shown, pinned, state: BrowserState::new() };
        proof {
            assert forall|c: usize| p.shown@.contains(c) implies p.order@.to_set().contains(c) by {
                let i = choose|i: int| 0 <= i < view_order@.len() && view_order@[i] == c;
                assert(p.order@[i] == c);
            }
        }
        p
    }

    pub fn len(&self) -> (n: usize)
        ensures
            n == self@.order.len(),
    {
        self.order.len()
    }

    /// Only ever true of a file with no columns at all.
    pub fn is_empty(&self) -> (b: bool)
        ensures
            b == (self@.order.len() == 0),
    {
        self.order.is_empty()
    }

    /// Put the cursor on a line, or on the last one where there is no such.
    pub fn go_to(&mut self, at: usize)
        requires
            old(self).wf(),
        ensures
            final(self).wf(),
            final(self)@ == old(self)@.at(at as int),
    {
        self.state.go_to(at, self.order.len());
    }

    /// Move the cursor, stopping at either end.
    pub fn move_by(&mut self, delta: isize)
        requires
            old(self).wf(),
        ensures
            final(self).wf(),
            final(self)@ == old(self)@.at(old(self)@.state.selected + delta),
    {
        self.state.move_by(delta, self.order.len());
    }

    /// Scroll no further than keeps the cursor on a screen of this height.
    pub fn clamp_scroll(&mut self, height: usize)
        requires
            old(self).wf(),
        ensures
            final(self).wf(),
            final(self)@ == (Choice {
                state: BrowserState {
                    offset: scrolled(
                        old(self)@.state.offset as int,
                        old(self)@.state.selected as int,
                        height as nat,
                    ) as usize,
                    ..old(self)@.state
                },
                ..old(self)@
            }),
    {
        self.state.clamp_scroll(height);
    }

    /// The source column the cursor is on.
    pub fn cursor_column(&self) -> (c: Option<usize>)
        ensures
            c == self@.cursor(),
    {
        if self.state.selected < self.order.len() {
            Some(self.order[self.state.selected])
        } else {
            None
        }
    }

    /// Toggle whether the cursor column is on show.
    ///
    /// Refuses to untick the last one: finding out on applying that a whole
    /// session of ticking cannot be is worse than being stopped at the tick
    /// that caused it.
    pub fn toggle_shown(&mut self) -> (r: Result<(), String>)
        requires
            old(self).wf(),
        ensures
            final(self).wf(),
            final(self)@ == old(self)@.show_toggled(),
            match r {
                Ok(_) => !old(self)@.is_last_shown(),
                Err(why) => old(self)@.is_last_shown() && why@ == "that would hide every column"@,
            },
    {
        match self.cursor_column() {
            None => Ok(()),
            Some(column) => {
                if self.shown.contains(&column) {
                    if self.shown.len() == 1 {
                        return Err("that would hide every column".to_owned());
                    }
                    self.shown.remove(&column);
                } else {
                    self.shown.insert(column);
                    assert(self.order@[self.state.selected as int] == column);
                }
                Ok(())
            },
        }
    }

    /// Put every column back on show.
    pub fn show_all(&mut self)
        requires
            old(self).wf(),
        ensures
            final(self).wf(),
            final(self)@ == old(self)@.all_shown(),
    {
        let mut shown: BTreeSet<usize> = BTreeSet::new();
        let mut i: usize = 0;
        assert(self.order@.take(0).to_set() =~= Set::empty());
        while i < self.order.len()
            invariant
                i <= self.order.len(),
                shown@ == self.order@.take(i as int).to_set(),
            decreases self.order.len() - i,
        {
            let ghost before = self.order@.take(i as int);
            shown.insert(self.order[i]);
            proof {
                assert(self.order@.take(i + 1) =~= before.push(self.order@[i as int]));
                before.lemma_push_to_set_commute(self.order@[i as int]);
            }
            i += 1;
        }
        assert(self.order@.take(i as int) =~= self.order@);
        self.shown = shown;
    }

    /// Hide everything but the column under the cursor.
    ///
    /// Something has to stay, since a view with no columns is not one, and the
    /// cursor's is what to keep. On a hidden column it shows that one, which is
    /// the same rule read the other way.
    pub fn show_only_cursor(&mut self)
        requires
            old(self).wf(),
        ensures
            final(self).wf(),
            final(self)@ == old(self)@.only_cursor(),
    {
        match self.cursor_column() {
            None => {},
            Some(column) => {
                self.shown.clear();
                self.shown.insert(column);
                assert(self.order@[self.state.selected as int] == column);
                assert(self.shown@ =~= set![column]);
            },
        }
    }

    /// Toggle whether the cursor column is pinned.
    ///
    /// Allowed on a hidden column: a pin is kept against the source column and
    /// waits for the view to show it again.
    pub fn toggle_pinned(&mut self)
        requires
            old(self).wf(),
        ensures
            final(self).wf(),
            final(self)@ == old(self)@.pin_toggled(),
    {
        match self.cursor_column() {
            None => {},
            Some(column) => {
                if !self.pinned.remove(&column) {
                    self.pinned.insert(column);
                    assert(self.pinned@ =~= old(self).pinned@.insert(column));
                }
            },
        }
    }

    /// The columns to select, in the order they are listed.
    pub fn selection(&self) -> (out: Vec<usize>)
        ensures
            out@ == self@.selection(),
    {
        let mut out: Vec<usize> = Vec::new();
        let ghost on = |c: usize| self@.shown.contains(c);
        let mut i: usize = 0;
        proof {
            reveal(Seq::filter);
            assert(self.order@.take(0).filter(on) =~= Seq::empty());
        }
        while i < self.order.len()
            invariant
                i <= self.order.len(),
                on == |c: usize| self@.shown.contains(c),
                out@ == self.order@.take(i as int).filter(on),
            decreases self.order.len() - i,
        {
            proof {
                reveal(Seq::filter);
                assert(self.order@.take(i + 1).drop_last() =~= self.order@.take(i as int));
            }
            if self.shown.contains(&self.order[i]) {
                out.push(self.order[i]);
            }
            i += 1;
        }
        assert(self.order@.take(i as int) =~= self.order@);
        out
    }

    /// The pins as they stand, to adopt.
    pub fn pins(&self) -> (out: BTreeSet<usize>)
        ensures
            out@ == self@.pinned,
    {
        self.pinned.clone()
    }

    pub fn title(&self) -> (out: String)
        ensures
            out@ == " columns \u{2014} "@ + decimal_text(self@.shown.len()) + " of "@ + decimal_text(
                self@.order.len(),
            ) + " shown "@,
    {
        let mut out = " columns \u{2014} ".to_owned();
        text::push_str(&mut out, text::decimal(self.shown.len()).as_str());
        text::push_str(&mut out, " of ");
        text::push_str(&mut out, text::decimal(self.len()).as_str());
        text::push_str(&mut out, " shown ");
        out
    }

    /// How wide the columns of the list are. That of the names is fixed: the
    /// ticks are read against them, and one that grew would push the ticks to the
    /// far side of a wide terminal.
    pub fn widths() -> (out: Vec<Width>)
        ensures
            out@ == seq![Width::Length(32), Width::Length(7), Width::Length(8)],
    {
        vec![Width::Length(32), Width::Length(7), Width::Length(8)]
    }

    pub fn headers() -> (out: Vec<String>)
        ensures
            texts(out@) == seq!["column"@, "shown"@, "pinned"@],
    {
        let mut out: Vec<String> = Vec::new();
        out.push("column".to_owned());
        out.push("shown".to_owned());
        out.push("pinned".to_owned());
        assert(texts(out@) =~= seq!["column"@, "shown"@, "pinned"@]);
        out
    }

    pub fn rows(&self) -> (out: Vec<Vec<String>>)
        ensures
            table(out@) == self@.lines(),
    {
        let mut out: Vec<Vec<String>> = Vec::new();
        let mut i: usize = 0;
        while i < self.order.len()
            invariant
                i <= self.order.len(),
                table(out@) == self@.lines().take(i as int),
            decreases self.order.len() - i,
        {
            let column = self.order[i];
            let mut line: Vec<String> = Vec::new();
            if column < self.names.len() {
                line.push(self.names[column].clone());
            } else {
                line.push(text::decimal(column));
            }
            line.push(mark_text(self.shown.contains(&column)));
            line.push(mark_text(self.pinned.contains(&column)));
            assert(texts(line@) =~= self@.line(column));
            let ghost before = out@;
            out.push(line);
            assert(table(out@) =~= table(before).push(texts(line@)));
            assert(table(out@) =~= self@.lines().take(i + 1));
            i += 1;
        }
        assert(table(out@) =~= self@.lines());
        out
    }
}

proof fn lemma_filter_all(s: Seq<usize>, p: spec_fn(usize) -> bool)
    requires
        forall|i: int| 0 <= i < s.len() ==> p(#[trigger] s[i]),
    ensures
        s.filter(p) == s,
    decreases s.len(),
{
    reveal(Seq::filter);
    if s.len() > 0 {
        lemma_filter_all(s.drop_last(), p);
        assert(s.filter(p) =~= s);
    } else {
        assert(s.filter(p) =~= s);
    }
}

proof fn lemma_filter_none(s: Seq<usize>, p: spec_fn(usize) -> bool)
    requires
        forall|i: int| 0 <= i < s.len() ==> !p(#[trigger] s[i]),
    ensures
        s.filter(p) == Seq::<usize>::empty(),
    decreases s.len(),
{
    reveal(Seq::filter);
    if s.len() > 0 {
        lemma_filter_none(s.drop_last(), p);
    } else {
        assert(s.filter(p) =~= Seq::empty());
    }
}

proof fn lemma_filter_concat(a: Seq<usize>, b: Seq<usize>, p: spec_fn(usize) -> bool)
    ensures
        (a + b).filter(p) == a.filter(p) + b.filter(p),
    decreases b.len(),
{
    reveal(Seq::filter);
    if b.len() > 0 {
        lemma_filter_concat(a, b.drop_last(), p);
        assert((a + b).drop_last() =~= a + b.drop_last());
        assert((a + b).filter(p) =~= a.filter(p) + b.filter(p));
    } else {
        assert(a + b =~= a);
        assert((a + b).filter(p) =~= a.filter(p) + b.filter(p));
    }
}

/// Every column that is shown is listed, so the selection holds each of them.
pub proof fn every_shown_column_is_listed(p: Picker)
    requires
        p.wf(),
    ensures
        p@.shown.finite(),
        forall|c: usize| p@.shown.contains(c) ==> #[trigger] p@.order.contains(c),
        forall|c: usize| p@.shown.contains(c) ==> #[trigger] p@.selection().contains(c),
{
    let on = |c: usize| p@.shown.contains(c);
    assert forall|c: usize| p@.shown.contains(c) implies #[trigger] p@.order.contains(c) by {
        assert(p.order@.to_set().contains(c));
    }
    assert forall|c: usize| p@.shown.contains(c) implies #[trigger] p@.selection().contains(c) by {
        assert(p@.order.contains(c));
        let i = choose|i: int| 0 <= i < p@.order.len() && p@.order[i] == c;
        p@.order.lemma_filter_contains(on, i);
    }
}

/// Opening the picker and applying it at once changes nothing: the selection is
/// the view it was opened on, order and all.
pub proof fn applying_at_once_changes_nothing(view_order: Seq<usize>, c: Choice)
    requires
        c.order == listed(view_order, c.names.len()),
        c.shown == view_order.to_set(),
    ensures
        c.selection() == view_order,
{
    let on = |x: usize| c.shown.contains(x);
    let off = |x: usize| !view_order.to_set().contains(x);
    let rest = all_columns(c.names.len()).filter(off);
    lemma_filter_concat(view_order, rest, on);
    assert forall|i: int| 0 <= i < view_order.len() implies on(#[trigger] view_order[i]) by {
        assert(view_order.contains(view_order[i]));
    }
    lemma_filter_all(view_order, on);
    assert forall|i: int| 0 <= i < rest.len() implies !on(#[trigger] rest[i]) by {
        all_columns(c.names.len()).lemma_filter_pred(off, i);
    }
    lemma_filter_none(rest, on);
    assert(view_order + Seq::<usize>::empty() =~= view_order);
}

/// Toggling a tick or a pin twice puts it back, unless the tick was the last one
/// and stayed.
pub proof fn toggling_twice_changes_nothing(c: Choice)
    requires
        c.shown.finite(),
    ensures
        c.pin_toggled().pin_toggled() == c,
        !c.is_last_shown() && !c.show_toggled().is_last_shown() ==> c.show_toggled().show_toggled() == c,
{
    assert(c.pin_toggled().pin_toggled() =~= c);
    if !c.is_last_shown() && !c.show_toggled().is_last_shown() {
        assert(c.show_toggled().show_toggled() =~= c);
    }
}

/// A tick is never the last to go: while anything is on show, something stays on
/// show whatever is toggled.
pub proof fn something_stays_on_show(c: Choice)
    requires
        c.shown.finite(),
        c.shown.len() > 0,
    ensures
        c.show_toggled().shown.len() > 0,
        c.only_cursor().shown.len() > 0,
{
}

} // verus!
