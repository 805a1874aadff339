//! The column picker, pinned columns and column widths.
use vstd::prelude::*;
use std::collections::{BTreeMap, BTreeSet};
use crate::app::keys::Key;
use crate::app::session::{App, Drawn, Limits, Mode, PinCheck, Session};
use crate::picker::{listed, Choice, Picker};
use crate::text;
use crate::text::{decimal_text, texts};
use crate::ui::{BrowserState, MIN_COLUMN};
use crate::view::{Command, Shown};

verus! {

broadcast use {vstd::std_specs::btree::group_btree_axioms, vstd::laws_cmp::group_laws_cmp};

/// How many characters a width changes by at a time.
pub const STEP: usize = 4;

/// The rightmost of the first `n` columns on show that is pinned.
pub open spec fn last_pin(columns: Seq<usize>, pinned: Set<usize>, n: nat) -> Option<int>
    decreases n,
{
    if n == 0 || n > columns.len() {
        None
    } else if pinned.contains(columns[n - 1]) {
        Some(n - 1)
    } else {
        last_pin(columns, pinned, (n - 1) as nat)
    }
}

/// One more, as far as numbers go.
pub open spec fn one_more(n: usize) -> usize {
    if n == usize::MAX {
        n
    } else {
        (n + 1) as usize
    }
}

/// A width a step wider or narrower, and never too narrow to be seen.
pub open spec fn resized(width: usize, wider: bool) -> usize {
    if wider {
        if width + STEP > usize::MAX {
            usize::MAX
        } else if width + STEP < MIN_COLUMN {
            MIN_COLUMN
        } else {
            (width + STEP) as usize
        }
    } else if width < MIN_COLUMN + STEP {
        MIN_COLUMN
    } else {
        (width - STEP) as usize
    }
}

impl Session {
    /// The source column under the cursor.
    pub open spec fn cursor_source(self) -> Option<usize> {
        match self.store {
            Some(h) => if self.cursor_col < h.columns().len() {
                Some(h.columns()[self.cursor_col as int])
            } else {
                None
            },
            None => None,
        }
    }

    /// The list of every column up, with what is on show and what is pinned.
    pub open spec fn picking(self) -> Session {
        match self.store {
            None => self,
            Some(h) => Session {
                picker: Some(
                    Choice {
                        order: listed(h.columns(), h.names@.len()),
                        names: texts(h.names@),
                        shown: h.columns().to_set(),
                        pinned: self.pinned,
                        state: BrowserState { selected: 0, offset: 0 },
                    },
                ),
                mode: Mode::Picker,
                ..self
            },
        }
    }

    /// The list put away.
    pub open spec fn unpicked(self) -> Session {
        Session { picker: None, mode: Mode::Normal, ..self }
    }

    /// These columns on show, in this order, or a word on why not.
    pub open spec fn selecting(self, columns: Seq<usize>) -> Session {
        match self.store {
            None => self.say("no file open"@),
            Some(h) => if columns.len() == 0 {
                self.say("that would hide every column"@)
            } else {
                (Session {
                    store: Some(h.showing(Shown { select: Some(columns), ..h.shows() })),
                    stale: true,
                    ..self
                }).reshaped(false)
            },
        }
    }

    /// What the list holds adopted: the columns at once, and the pins once the
    /// layout has said which of them there is room for.
    pub open spec fn picked(self) -> Session {
        match self.picker {
            None => Session { mode: Mode::Normal, ..self },
            Some(c) => {
                let s = self.unpicked();
                if c.selection().len() == 0 {
                    s.say("that would hide every column"@)
                } else {
                    Session {
                        pinned: c.pinned,
                        pin_check: Some(PinCheck::Adopted(0)),
                        ..s.selecting(c.selection())
                    }
                }
            },
        }
    }

    /// Another list in the place of the one that is up.
    pub open spec fn with_picker(self, c: Choice) -> Session {
        Session { picker: Some(c), ..self }
    }

    /// The list after a key. There is no key to quit here: the list holds
    /// changes that are not applied, so it cannot close harmlessly.
    pub open spec fn picker_key(self, key: Key, ctrl: bool) -> Session {
        match self.picker {
            None => Session { mode: Mode::Normal, ..self },
            Some(c) => {
                let half = self.last_vp as int / 2;
                match key {
                    Key::Esc => self.unpicked(),
                    Key::Enter => self.picked(),
                    Key::Down => self.with_picker(c.at(c.state.selected + 1)),
                    Key::Up => self.with_picker(c.at(c.state.selected - 1)),
                    Key::Home => self.with_picker(c.at(0)),
                    Key::End => self.with_picker(c.at(c.order.len() - 1)),
                    Key::Char(k) => if k == 'j' {
                        self.with_picker(c.at(c.state.selected + 1))
                    } else if k == 'k' {
                        self.with_picker(c.at(c.state.selected - 1))
                    } else if k == 'd' && ctrl {
                        self.with_picker(c.at(c.state.selected + half))
                    } else if k == 'u' && ctrl {
                        self.with_picker(c.at(c.state.selected - half))
                    } else if k == 'g' {
                        self.with_picker(c.at(0))
                    } else if k == 'G' {
                        self.with_picker(c.at(c.order.len() - 1))
                    } else if k == '-' {
                        if c.is_last_shown() {
                            self.say("that would hide every column"@)
                        } else {
                            self.with_picker(c.show_toggled())
                        }
                    } else if k == 'p' {
                        self.with_picker(c.pin_toggled())
                    } else if k == 'a' {
                        self.with_picker(c.all_shown())
                    } else if k == 'A' {
                        self.with_picker(c.only_cursor())
                    } else {
                        self
                    },
                    _ => self,
                }
            },
        }
    }

    /// The cursor's column let go where it was pinned; else pinned, if the
    /// layout then says that there is room.
    pub open spec fn pin_toggled(self) -> Session {
        match self.cursor_source() {
            None => self,
            Some(c) => if self.pinned.contains(c) {
                Session { pinned: self.pinned.remove(c), ..self }
            } else {
                Session {
                    pinned: self.pinned.insert(c),
                    pin_check: Some(PinCheck::Pinned(c)),
                    ..self
                }
            },
        }
    }

    /// What the layout said of the pins. One that was just set is taken back
    /// where it leaves no room to scroll in. Of those taken over from the list
    /// the rightmost is dropped, and the layout asked again.
    pub open spec fn pins_checked(self, fit: bool) -> Session {
        match self.pin_check {
            None => self,
            Some(PinCheck::Pinned(c)) => {
                let s = Session { pin_check: None, ..self };
                if fit {
                    s
                } else {
                    (Session { pinned: self.pinned.remove(c), ..s }).say(
                        "no room to pin: unpin one, or narrow one with z<"@,
                    )
                }
            },
            Some(PinCheck::Adopted(dropped)) => {
                let columns = match self.store {
                    Some(h) => h.columns(),
                    None => Seq::empty(),
                };
                match last_pin(columns, self.pinned, columns.len()) {
                    Some(at) => if fit {
                        self.pins_adopted(dropped)
                    } else {
                        Session {
                            pinned: self.pinned.remove(columns[at]),
                            pin_check: Some(PinCheck::Adopted(one_more(dropped))),
                            ..self
                        }
                    },
                    None => self.pins_adopted(dropped),
                }
            },
        }
    }

    /// The pins stand, with a word on how many had to be dropped.
    pub open spec fn pins_adopted(self, dropped: usize) -> Session {
        let s = Session { pin_check: None, ..self };
        if dropped > 0 {
            s.say("no room for "@ + decimal_text(dropped as nat) + " of the pins"@)
        } else {
            s
        }
    }

    pub open spec fn unpinned(self) -> Session {
        Session { pinned: Set::empty(), ..self }
    }

    pub open spec fn widths_reset(self) -> Session {
        (Session { widths: Map::empty(), ..self }).say("column widths reset"@)
    }

    /// The cursor's column a step wider or narrower. What stands behind it is
    /// pushed along rather than squeezed.
    pub open spec fn column_resized(self, wider: bool, drawn: Drawn) -> Session {
        match self.cursor_source() {
            None => self,
            Some(c) => {
                let width = if self.widths.contains_key(c) {
                    self.widths[c]
                } else {
                    drawn.cursor_width
                };
                Session { widths: self.widths.insert(c, resized(width, wider)), ..self }
            },
        }
    }

    /// The cursor's column as wide as the widest value of it on screen. The rest
    /// of the file is not measured: that would be reading all of it.
    pub open spec fn column_fitted(self, drawn: Drawn) -> Session {
        match (self.cursor_source(), drawn.widest) {
            (Some(c), Some(widest)) => Session { widths: self.widths.insert(c, widest), ..self },
            _ => self,
        }
    }
}

/// A pin that the layout refuses leaves the pins as they were.
pub proof fn a_refused_pin_changes_no_pin(s: Session)
    requires
        s.cursor_source() matches Some(c) && !s.pinned.contains(c),
    ensures
        s.pin_toggled().pins_checked(false).pinned == s.pinned,
{
    assert(s.pin_toggled().pins_checked(false).pinned =~= s.pinned);
}

/// Pinning and pinning again leaves the pins as they were.
pub proof fn pinning_twice_changes_no_pin(s: Session)
    requires
        s.cursor_source() is Some,
    ensures
        s.pin_toggled().pin_toggled().pinned == s.pinned,
{
    assert(s.pin_toggled().pin_toggled().pinned =~= s.pinned);
}

proof fn lemma_last_pin(columns: Seq<usize>, pinned: Set<usize>, n: nat)
    ensures
        last_pin(columns, pinned, n) matches Some(at) ==> 0 <= at < columns.len() && pinned.contains(
            columns[at],
        ),
    decreases n,
{
    if n > 0 {
        lemma_last_pin(columns, pinned, (n - 1) as nat);
    }
}

/// Asking the layout about adopted pins comes to an end: every refusal drops one
/// that is there.
pub proof fn every_refusal_drops_a_pin(s: Session)
    requires
        s.pin_check matches Some(PinCheck::Adopted(_)),
        s.pinned.finite(),
    ensures
        ({
            let after = s.pins_checked(false);
            after.pin_check is None || after.pinned.len() < s.pinned.len()
        }),
{
    let columns = match s.store {
        Some(h) => h.columns(),
        None => Seq::empty(),
    };
    lemma_last_pin(columns, s.pinned, columns.len());
}

/// Widening a column and narrowing it again leaves it as wide as it was, where
/// it could be seen at all.
pub proof fn narrowing_undoes_widening(width: usize)
    requires
        MIN_COLUMN <= width <= usize::MAX - STEP,
    ensures
        resized(resized(width, true), false) == width,
{
}

impl App {
    /// The source column under the cursor.
    fn cursor_source(&self) -> (c: Option<usize>)
        ensures
            c == self@.cursor_source(),
    {
        match &self.store {
            Some(store) => store.source_column(self.cursor_col),
            None => None,
        }
    }

    /// Open the list of every column, ticked for shown and pinned.
    pub fn open_picker(&mut self)
        requires
            old(self).wf(),
        ensures
            final(self).wf(),
            final(self)@ == old(self)@.picking(),
    {
        let picker: Picker = match &self.store {
            None => {
                return;
            },
            Some(store) => {
                let mut names: Vec<String> = Vec::new();
                let mut i: usize = 0;
                assert(texts(names@) =~= texts(store.names@).take(0));
                while i < store.names.len()
                    invariant
                        i <= store.names.len(),
                        names@.len() == i,
                        texts(names@) == texts(store.names@).take(i as int),
                    decreases store.names.len() - i,
                {
                    let ghost before = names@;
                    names.push(store.names[i].clone());
                    assert(texts(names@) =~= texts(before).push(store.names@[i as int]@));
                    assert(texts(names@) =~= texts(store.names@).take(i + 1));
                    i += 1;
                }
                assert(texts(store.names@).take(i as int) =~= texts(store.names@));
                Picker::new(names, store.columns(), self.pinned.clone())
            },
        };
        self.picker = Some(picker);
        self.mode = Mode::Picker;
    }

    fn close_picker(&mut self)
        requires
            old(self).wf(),
        ensures
            final(self).wf(),
            final(self)@ == old(self)@.unpicked(),
    {
        self.picker = None;
        self.mode = Mode::Normal;
    }

    /// Adopt what the list holds. The selection goes the way every other one
    /// does.
    fn apply_picker(&mut self, limits: Limits)
        requires
            old(self).wf(),
        ensures
            final(self).wf(),
            final(self)@ == old(self)@.picked(),
    {
        let (columns, pins): (Vec<usize>, BTreeSet<usize>) = match &self.picker {
            None => {
                self.mode = Mode::Normal;
                return;
            },
            Some(picker) => (picker.selection(), picker.pins()),
        };
        self.close_picker();
        if columns.is_empty() {
            self.say("that would hide every column");
            return;
        }
        let ghost s = self@;
        let command = Command::Select(columns);
        proof {
            lemma_selecting(s, command, columns@, limits);
        }
        let _ = self.apply_view_command(command, limits);
        self.pinned = pins;
        self.pin_check = Some(PinCheck::Adopted(0));
    }

    fn picker_char(&mut self, k: char, ctrl: bool)
        requires
            old(self).wf(),
            old(self).picker is Some,
        ensures
            final(self).wf(),
            final(self)@ == old(self)@.picker_key(Key::Char(k), ctrl),
    {
        let half: isize = (self.last_vp / 2) as isize;
        let mut refusal: Option<String> = None;
        let ghost c = self@.picker->Some_0;
        match &mut self.picker {
            None => {},
            Some(picker) => match k {
                'j' => picker.move_by(1),
                'k' => picker.move_by(-1),
                'd' => if ctrl {
                    picker.move_by(half);
                },
                'u' => if ctrl {
                    picker.move_by(-half);
                },
                'g' => picker.go_to(0),
                'G' => {
                    let n = picker.len();
                    picker.go_to(n.saturating_sub(1));
                },
                '-' => match picker.toggle_shown() {
                    Ok(_) => {},
                    Err(why) => {
                        refusal = Some(why);
                    },
                },
                'p' => picker.toggle_pinned(),
                'a' => picker.show_all(),
                'A' => picker.show_only_cursor(),
                _ => {},
            },
        }
        if let Some(why) = refusal {
            self.message = Some(why);
        }
        assert(self@ =~= old(self)@.picker_key(Key::Char(k), ctrl));
    }

    fn move_picker(&mut self, key: Key)
        requires
            old(self).wf(),
            old(self).picker is Some,
            key == Key::Down || key == Key::Up || key == Key::Home || key == Key::End,
        ensures
            final(self).wf(),
            final(self)@ == old(self)@.picker_key(key, false),
    {
        match &mut self.picker {
            None => {},
            Some(picker) => match key {
                Key::Down => picker.move_by(1),
                Key::Up => picker.move_by(-1),
                Key::Home => picker.go_to(0),
                _ => {
                    let n = picker.len();
                    picker.go_to(n.saturating_sub(1));
                },
            },
        }
    }

    /// A key in the column picker.
    pub fn handle_picker_key(&mut self, key: Key, ctrl: bool, limits: Limits)
        requires
            old(self).wf(),
        ensures
            final(self).wf(),
            final(self)@ == old(self)@.picker_key(key, ctrl),
    {
        if self.picker.is_none() {
            self.mode = Mode::Normal;
            return;
        }
        match key {
            Key::Esc => self.close_picker(),
            Key::Enter => self.apply_picker(limits),
            Key::Down | Key::Up | Key::Home | Key::End => self.move_picker(key),
            Key::Char(k) => self.picker_char(k, ctrl),
            _ => {},
        }
    }

    /// Hold the cursor column at the left edge, or let it go again. Whether
    /// there is room is asked afterwards, so the answer is on the block that
    /// would actually be drawn.
    pub fn toggle_pin(&mut self)
        requires
            old(self).wf(),
        ensures
            final(self).wf(),
            final(self)@ == old(self)@.pin_toggled(),
    {
        let source = match self.cursor_source() {
            None => {
                return;
            },
            Some(c) => c,
        };
        if self.pinned.contains(&source) {
            self.pinned.remove(&source);
        } else {
            self.pinned.insert(source);
            self.pin_check = Some(PinCheck::Pinned(source));
        }
    }

    /// The rightmost column on show that is pinned, by source column.
    fn rightmost_pin(&self) -> (c: Option<usize>)
        ensures
            ({
                let columns = match self@.store {
                    Some(h) => h.columns(),
                    None => Seq::empty(),
                };
                c == match last_pin(columns, self@.pinned, columns.len()) {
                    Some(at) => Some(columns[at]),
                    None => None,
                }
            }),
    {
        let columns: Vec<usize> = match &self.store {
            None => {
                return None;
            },
            Some(store) => store.columns(),
        };
        let mut n: usize = columns.len();
        while n > 0
            invariant
                n <= columns@.len(),
                self@.store is Some,
                columns@ == self@.store->Some_0.columns(),
                last_pin(columns@, self@.pinned, columns@.len()) == last_pin(
                    columns@,
                    self@.pinned,
                    n as nat,
                ),
            decreases n,
        {
            if self.pinned.contains(&columns[n - 1]) {
                return Some(columns[n - 1]);
            }
            n -= 1;
        }
        None
    }

    fn adopt_pins(&mut self, dropped: usize)
        requires
            old(self).wf(),
        ensures
            final(self).wf(),
            final(self)@ == old(self)@.pins_adopted(dropped),
    {
        self.pin_check = None;
        if dropped > 0 {
            let mut out = text::joined("no room for ", text::decimal(dropped).as_str());
            text::push_str(&mut out, " of the pins");
            self.message = Some(out);
        }
    }

    /// The layout has said whether the pins leave room to scroll in.
    pub fn check_pins(&mut self, fit: bool)
        requires
            old(self).wf(),
        ensures
            final(self).wf(),
            final(self)@ == old(self)@.pins_checked(fit),
    {
        match self.pin_check {
            None => {},
            Some(PinCheck::Pinned(c)) => {
                self.pin_check = None;
                if !fit {
                    self.pinned.remove(&c);
                    self.say("no room to pin: unpin one, or narrow one with z<");
                }
            },
            Some(PinCheck::Adopted(dropped)) => match self.rightmost_pin() {
                None => self.adopt_pins(dropped),
                Some(c) => if fit {
                    self.adopt_pins(dropped);
                } else {
                    self.pinned.remove(&c);
                    self.pin_check = Some(PinCheck::Adopted(dropped.saturating_add(1)));
                },
            },
        }
    }

    /// The pins as display positions. A pin on a column that the view hides is
    /// not among them: it is not forgotten, it has nowhere to be drawn.
    pub fn display_pins(&self) -> (pins: BTreeSet<usize>)
        ensures
            forall|d: usize| #[trigger] pins@.contains(d) <==> self@.pinned_at(d),
    {
        let mut pins: BTreeSet<usize> = BTreeSet::new();
        let columns: Vec<usize> = match &self.store {
            None => {
                return pins;
            },
            Some(store) => store.columns(),
        };
        let mut i: usize = 0;
        while i < columns.len()
            invariant
                i <= columns@.len(),
                self@.store is Some,
                columns@ == self@.store->Some_0.columns(),
                forall|d: usize| #[trigger] pins@.contains(d) <==> d < i && self@.pinned_at(d),
            decreases columns@.len() - i,
        {
            if self.pinned.contains(&columns[i]) {
                pins.insert(i);
            }
            i += 1;
        }
        pins
    }

    pub(crate) fn unpin_all(&mut self)
        requires
            old(self).wf(),
        ensures
            final(self).wf(),
            final(self)@ == old(self)@.unpinned(),
    {
        self.pinned = BTreeSet::new();
    }

    pub(crate) fn reset_widths(&mut self)
        requires
            old(self).wf(),
        ensures
            final(self).wf(),
            final(self)@ == old(self)@.widths_reset(),
    {
        self.widths = BTreeMap::new();
        self.say("column widths reset");
    }

    /// Widen or narrow the cursor column by a few characters.
    pub fn resize_column(&mut self, wider: bool, drawn: Drawn)
        requires
            old(self).wf(),
        ensures
            final(self).wf(),
            final(self)@ == old(self)@.column_resized(wider, drawn),
    {
        let source = match self.cursor_source() {
            None => {
                return;
            },
            Some(c) => c,
        };
        let width: usize = match self.widths.get(&source) {
            Some(width) => *width,
            None => drawn.cursor_width,
        };
        let want: usize = if wider {
            let w: usize = width.saturating_add(STEP);
            if w < MIN_COLUMN {
                MIN_COLUMN
            } else {
                w
            }
        } else if width < MIN_COLUMN + STEP {
            MIN_COLUMN
        } else {
            width - STEP
        };
        self.widths.insert(source, want);
    }

    /// Fit the cursor column to the widest value on screen.
    pub fn fit_column(&mut self, drawn: Drawn)
        requires
            old(self).wf(),
        ensures
            final(self).wf(),
            final(self)@ == old(self)@.column_fitted(drawn),
    {
        match (self.cursor_source(), drawn.widest) {
            (Some(source), Some(widest)) => {
                self.widths.insert(source, widest);
            },
            _ => {},
        }
    }
}

proof fn lemma_selecting(s: Session, command: Command, columns: Seq<usize>, limits: Limits)
    requires
        command matches Command::Select(c) && c@ == columns,
        columns.len() > 0,
    ensures
        s.viewed(command, limits) == s.selecting(columns),
{
}

/// The session without the list of columns and what is said.
pub open spec fn beneath_the_list(s: Session) -> Session {
    Session { mode: Mode::Normal, picker: None, message: None, ..s }
}

/// The session after some keys while the list of columns is up.
pub open spec fn after_keys(s: Session, keys: Seq<(Key, bool)>) -> Session
    decreases keys.len(),
{
    if keys.len() == 0 {
        s
    } else {
        let (key, ctrl) = keys.last();
        after_keys(s, keys.drop_last()).picker_key(key, ctrl)
    }
}

/// One key in the list of columns changes nothing beneath it, but for the one
/// that applies it.
#[verifier::spinoff_prover]
proof fn lemma_list_key(s: Session, key: Key, ctrl: bool)
    requires
        key != Key::Enter,
    ensures
        beneath_the_list(s.picker_key(key, ctrl)) == beneath_the_list(s),
{
}

/// Whatever is done in the list of columns changes nothing beneath it until it
/// is applied, so leaving it with Esc costs nothing.
pub proof fn only_applying_the_list_changes_the_view(s: Session, keys: Seq<(Key, bool)>)
    requires
        forall|i: int| 0 <= i < keys.len() ==> (#[trigger] keys[i]).0 != Key::Enter,
    ensures
        beneath_the_list(after_keys(s, keys)) == beneath_the_list(s),
    decreases keys.len(),
{
    if keys.len() > 0 {
        let front = keys.drop_last();
        assert forall|i: int| 0 <= i < front.len() implies (#[trigger] front[i]).0 != Key::Enter by {
            assert(front[i] == keys[i]);
        }
        only_applying_the_list_changes_the_view(s, front);
        let (key, ctrl) = keys.last();
        assert(keys[keys.len() - 1].0 != Key::Enter);
        lemma_list_key(after_keys(s, front), key, ctrl);
    }
}

} // verus!
