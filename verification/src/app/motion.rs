//! Moving the cursor and scrolling the view.
use vstd::prelude::*;
use crate::app::session::{all_digits, sound, App, Drawn, Running, SelectionMode, Session};
use crate::data::store::Held;
use crate::text;
use crate::text::decimal_text;

verus! {

pub open spec fn least(a: int, b: int) -> int {
    if a < b {
        a
    } else {
        b
    }
}

/// `a - b`, and nothing under zero.
pub open spec fn less(a: int, b: int) -> int {
    if a < b {
        0
    } else {
        a - b
    }
}

impl Held {
    /// The page at `offset`, or the last full page where that is sooner.
    pub open spec fn scrolled(self, offset: int) -> Held {
        Held {
            row_offset: least(offset, less(self.count() as int, self.viewport_rows as int)) as usize,
            ..self
        }
    }
}

/// How many rows a screen is, or half of one, and always some.
pub open spec fn page_step(screen: usize, whole: bool) -> int {
    let rows = if screen == 0 { 1 } else { screen as int };
    if whole {
        rows
    } else if rows / 2 == 0 {
        1
    } else {
        rows / 2
    }
}

/// Where the cursor comes to when the view went from `offset` to `settled`.
pub open spec fn page_cursor(cursor: int, offset: int, settled: int, step: int, last: int, down: bool) -> int {
    if settled != offset {
        least(settled + less(cursor, offset), last)
    } else if down {
        least(cursor + step, last)
    } else {
        less(cursor, step)
    }
}

fn step_of(screen: usize, whole: bool) -> (n: usize)
    ensures
        n == page_step(screen, whole),
        n > 0,
{
    let rows: usize = if screen == 0 { 1 } else { screen };
    if whole {
        rows
    } else if rows / 2 == 0 {
        1
    } else {
        rows / 2
    }
}

/// The number that digits spell.
pub open spec fn spelled(digits: Seq<char>) -> nat
    decreases digits.len(),
{
    if digits.len() == 0 {
        0
    } else {
        spelled(digits.drop_last()) * 10 + (digits.last() as u32 - 48) as nat
    }
}

/// The count that was typed: `default` where none was or it is too large to be
/// one, and at least 1.
pub open spec fn counted(digits: Seq<char>, default: usize) -> usize {
    if digits.len() == 0 {
        default
    } else {
        let n = if spelled(digits) <= usize::MAX { spelled(digits) as usize } else { default };
        if n == 0 {
            1
        } else {
            n
        }
    }
}

impl Session {
    pub open spec fn scrolled(self, offset: int) -> Session {
        match self.store {
            Some(h) => Session { store: Some(h.scrolled(offset)), stale: true, ..self },
            None => self,
        }
    }

    /// The cursor on a row, or on the last one, and the view moved no further
    /// than brings that row into it.
    #[verifier::opaque]
    pub open spec fn cursor_to(self, row: int) -> Session {
        match self.store {
            None => self,
            Some(h) => if h.count() == 0 {
                self
            } else {
                let at = least(row, h.count() - 1);
                let moved = Session { cursor_row: at as usize, ..self };
                if at < h.row_offset {
                    moved.scrolled(at)
                } else if at >= h.row_offset + h.viewport_rows {
                    moved.scrolled(less(at + 1, h.viewport_rows as int))
                } else {
                    moved
                }
            },
        }
    }

    pub open spec fn down(self, n: int) -> Session {
        if self.rows() == 0 {
            self
        } else {
            self.cursor_to(least(self.cursor_row + n, self.rows() - 1))
        }
    }

    pub open spec fn up(self, n: int) -> Session {
        self.cursor_to(less(self.cursor_row as int, n))
    }

    /// The cursor's row in the middle of the view.
    pub open spec fn centered(self) -> Session {
        match self.store {
            None => self,
            Some(h) => self.scrolled(less(self.cursor_row as int, h.viewport_rows as int / 2)),
        }
    }

    /// The cursor's row at the top of the view.
    pub open spec fn topped(self) -> Session {
        self.scrolled(self.cursor_row as int)
    }

    /// The cursor's row at the bottom of the view.
    pub open spec fn bottomed(self) -> Session {
        match self.store {
            None => self,
            Some(h) => self.scrolled(
                less(self.cursor_row as int, less(h.viewport_rows as int, 1)),
            ),
        }
    }

    /// A screen or half of one, view and cursor together, so that the cursor
    /// keeps its height in the view. Against the ends of the file the view runs
    /// out of room first and the cursor carries on alone.
    pub open spec fn paged(self, down: bool, whole: bool) -> Session {
        match self.store {
            None => self,
            Some(h) => {
                let step = page_step(h.viewport_rows, whole);
                let wanted = if down {
                    least(h.row_offset + step, less(h.count() as int, page_step(h.viewport_rows, true)))
                } else {
                    less(h.row_offset as int, step)
                };
                let view = self.scrolled(wanted);
                let settled = view.store->Some_0.row_offset;
                Session {
                    cursor_row: page_cursor(
                        self.cursor_row as int,
                        h.row_offset as int,
                        settled as int,
                        step,
                        self.last_row() as int,
                        down,
                    ) as usize,
                    ..view
                }
            },
        }
    }

    /// To a row numbered from 1, or a word on why not.
    pub open spec fn to_line(self, digits: Seq<char>) -> Session {
        let n = spelled(digits);
        if n > usize::MAX {
            self.say("Not a valid line number: \""@ + digits + "\""@)
        } else if n == 0 {
            self.say("Invalid line: 0  (valid: 1\u{2013}"@ + decimal_text(self.rows() as nat) + ")"@)
        } else if n > self.rows() {
            self.say(
                "Line "@ + decimal_text(n) + " out of range  (file has "@ + decimal_text(
                    self.rows() as nat,
                ) + " rows)"@,
            )
        } else {
            self.cursor_to(n - 1)
        }
    }

    /// To the last row, or to the row a count names.
    pub open spec fn to_bottom(self) -> Session {
        if self.pending_num.len() == 0 {
            self.cursor_to(self.last_row() as int)
        } else {
            self.uncounted().to_line(self.pending_num)
        }
    }

    /// To the first row, or to the row a count names.
    pub open spec fn to_first(self) -> Session {
        if self.pending_num.len() == 0 {
            self.cursor_to(0)
        } else {
            self.uncounted().to_line(self.pending_num)
        }
    }

    /// A pinned column is drawn at every offset.
    pub open spec fn pinned_at(self, display: usize) -> bool {
        match self.store {
            None => false,
            Some(h) => display < h.columns().len() && self.pinned.contains(h.columns()[display as int]),
        }
    }

    /// So many columns left, or so many columns of scroll where there is no
    /// column cursor.
    pub open spec fn left(self, n: int) -> Session {
        match self.selection_mode {
            SelectionMode::Row => Session { col_offset: less(self.col_offset as int, n) as usize, ..self },
            _ => {
                let c = less(self.cursor_col as int, n) as usize;
                Session {
                    cursor_col: c,
                    col_offset: if self.pinned_at(c) || self.col_offset < c { self.col_offset } else { c },
                    ..self
                }
            },
        }
    }

    /// So many columns right, stopping at the last column or, where there is no
    /// column cursor, where the last column reaches the right edge.
    pub open spec fn right(self, n: int, drawn: Drawn) -> Session {
        match self.selection_mode {
            SelectionMode::Row => Session {
                col_offset: least(self.col_offset + n, drawn.max_col_offset as int) as usize,
                ..self
            },
            _ => Session {
                cursor_col: least(self.cursor_col + n, self.last_column() as int) as usize,
                ..self
            },
        }
    }

    pub open spec fn first_column(self) -> Session {
        Session { col_offset: 0, cursor_col: 0, ..self.uncounted() }
    }

    /// Scroll until the last column sits at the right edge.
    pub open spec fn to_last_column(self, drawn: Drawn) -> Session {
        Session {
            cursor_col: self.last_column(),
            col_offset: drawn.max_col_offset,
            ..self.uncounted()
        }
    }

    /// Row, column, cell: the scope of a search changes with it, and a column
    /// cursor starts at the leftmost column in view.
    pub open spec fn cycled(self) -> Session {
        let next = self.selection_mode.next();
        Session {
            visual_anchor: None,
            selection_mode: next,
            cursor_col: if next == SelectionMode::Row { self.cursor_col } else { self.col_offset },
            ..self.unsearched()
        }
    }

    /// The view after it was drawn: what a resize left scrolled too far, and a
    /// column cursor that left the view, come back into it. `showing` is the
    /// first column drawn that has the cursor's at the right edge, and
    /// `last_drawn` the last column that was in view.
    pub open spec fn settled(self, drawn: Drawn, last_drawn: usize, showing: usize) -> Session {
        if self.selection_mode == SelectionMode::Row {
            Session {
                col_offset: least(self.col_offset as int, drawn.max_col_offset as int) as usize,
                ..self
            }
        } else if self.pinned_at(self.cursor_col) {
            self
        } else if self.cursor_col < self.col_offset {
            Session { col_offset: self.cursor_col, ..self }
        } else if self.cursor_col > last_drawn {
            Session { col_offset: showing, ..self }
        } else {
            self
        }
    }

    /// The column that a status line names: the leftmost in view where there is
    /// no column cursor.
    pub open spec fn named_column(self) -> usize {
        match self.selection_mode {
            SelectionMode::Row => self.col_offset,
            _ => self.cursor_col,
        }
    }
}

/// Rows of the table on a screen this high: a status bar, a border above and
/// below and a header row are taken off it, and what the panel takes.
pub fn viewport_rows(height: u16, panel: u16) -> (n: usize)
    ensures
        n == less(height as int, 4 + panel),
{
    (height as usize).saturating_sub(4 + panel as usize)
}

pub(crate) proof fn lemma_spelled_front(digits: Seq<char>, k: int)
    requires
        all_digits(digits),
        0 <= k <= digits.len(),
    ensures
        spelled(digits.take(k)) <= spelled(digits),
    decreases digits.len() - k,
{
    if k < digits.len() {
        assert(digits.take(k + 1).drop_last() =~= digits.take(k));
        assert('0' <= digits[k] <= '9');
        lemma_spelled_front(digits, k + 1);
    } else {
        assert(digits.take(k) =~= digits);
    }
}

/// The number that digits spell, or nothing where it is too large.
pub fn parse_count(digits: &str) -> (n: Option<usize>)
    requires
        all_digits(digits@),
    ensures
        match n {
            Some(n) => n == spelled(digits@),
            None => spelled(digits@) > usize::MAX,
        },
{
    let chars = text::chars(digits);
    let mut n: usize = 0;
    let mut i: usize = 0;
    assert(digits@.take(0) =~= Seq::empty());
    while i < chars.len()
        invariant
            i <= chars.len(),
            chars@ == digits@,
            all_digits(digits@),
            n == spelled(digits@.take(i as int)),
        decreases chars.len() - i,
    {
        let ghost upto = digits@.take(i + 1);
        assert(upto.drop_last() =~= digits@.take(i as int));
        assert('0' <= digits@[i as int] <= '9');
        let d: usize = (chars[i] as u32 - 48) as usize;
        proof {
            lemma_spelled_front(digits@, i + 1);
        }
        match n.checked_mul(10) {
            None => {
                return None;
            },
            Some(tens) => match tens.checked_add(d) {
                None => {
                    return None;
                },
                Some(sum) => {
                    n = sum;
                },
            },
        }
        i += 1;
    }
    assert(digits@.take(i as int) =~= digits@);
    Some(n)
}

impl App {
    pub fn row_total(&self) -> (n: usize)
        requires
            self.wf(),
        ensures
            n == self@.rows(),
    {
        proof {
            reveal(sound);
        }
        match &self.store {
            Some(store) => store.row_count(),
            None => 0,
        }
    }

    fn last_row(&self) -> (n: usize)
        requires
            self.wf(),
        ensures
            n == self@.last_row(),
    {
        self.row_total().saturating_sub(1)
    }

    pub(crate) fn last_column(&self) -> (n: usize)
        requires
            self.wf(),
        ensures
            n == self@.last_column(),
    {
        match &self.store {
            Some(store) => store.column_count().saturating_sub(1),
            None => 0,
        }
    }

    pub(crate) fn uncount(&mut self)
        requires
            old(self).wf(),
        ensures
            final(self).wf(),
            final(self)@ == old(self)@.uncounted(),
    {
        self.pending_num = String::new();
        assert(self.pending_num@ =~= Seq::empty());
    }

    pub(crate) fn unsearch(&mut self)
        requires
            old(self).wf(),
        ensures
            final(self).wf(),
            final(self)@ == old(self)@.unsearched(),
    {
        self.search_state = None;
        self.running = Running { search: false, sort: self.running.sort, filter: self.running.filter };
    }

    /// Show the page at `offset`.
    fn scroll_to(&mut self, offset: usize)
        requires
            old(self).wf(),
        ensures
            final(self).wf(),
            final(self)@ == old(self)@.scrolled(offset as int),
    {
        proof {
            reveal(sound);
        }
        match &mut self.store {
            Some(store) => {
                store.scroll_to_offset(offset);
                self.stale = true;
            },
            None => {},
        }
        assert(self@ =~= old(self)@.scrolled(offset as int));
    }

    /// Move cursor to `row`, scrolling the view only if needed.
    pub fn cursor_to(&mut self, row: usize)
        requires
            old(self).wf(),
        ensures
            final(self).wf(),
            final(self)@ == old(self)@.cursor_to(row as int),
    {
        proof {
            reveal(sound);
            reveal(Session::cursor_to);
        }
        let (total, screen, offset) = match &self.store {
            Some(store) => (store.row_count(), store.viewport_rows, store.row_offset),
            None => {
                return;
            },
        };
        if total == 0 {
            return;
        }
        let at: usize = if row < total { row } else { total - 1 };
        self.cursor_row = at;
        if at < offset {
            self.scroll_to(at);
        } else if at - offset >= screen {
            self.scroll_to((at + 1).saturating_sub(screen));
        }
        assert(self@ =~= old(self)@.cursor_to(row as int));
    }

    pub fn cursor_down(&mut self, n: usize)
        requires
            old(self).wf(),
        ensures
            final(self).wf(),
            final(self)@ == old(self)@.down(n as int),
    {
        let total = self.row_total();
        if total == 0 {
            return;
        }
        let to: usize = self.cursor_row.saturating_add(n);
        self.cursor_to(if to < total { to } else { total - 1 });
    }

    pub fn cursor_up(&mut self, n: usize)
        requires
            old(self).wf(),
        ensures
            final(self).wf(),
            final(self)@ == old(self)@.up(n as int),
    {
        self.cursor_to(self.cursor_row.saturating_sub(n));
    }

    /// Scroll so the cursor is vertically centered.
    pub fn scroll_center(&mut self)
        requires
            old(self).wf(),
        ensures
            final(self).wf(),
            final(self)@ == old(self)@.centered(),
    {
        let screen: usize = match &self.store {
            Some(store) => store.viewport_rows,
            None => {
                return;
            },
        };
        self.scroll_to(self.cursor_row.saturating_sub(screen / 2));
    }

    /// Scroll so the cursor is at the top of the view.
    pub fn scroll_cursor_top(&mut self)
        requires
            old(self).wf(),
        ensures
            final(self).wf(),
            final(self)@ == old(self)@.topped(),
    {
        self.scroll_to(self.cursor_row);
    }

    /// Scroll so the cursor is at the bottom of the view.
    pub fn scroll_cursor_bottom(&mut self)
        requires
            old(self).wf(),
        ensures
            final(self).wf(),
            final(self)@ == old(self)@.bottomed(),
    {
        let screen: usize = match &self.store {
            Some(store) => store.viewport_rows,
            None => {
                return;
            },
        };
        self.scroll_to(self.cursor_row.saturating_sub(screen.saturating_sub(1)));
    }

    /// A screen or half of one, view and cursor together.
    #[verifier::rlimit(40)]
    pub fn scroll_page(&mut self, down: bool, whole: bool)
        requires
            old(self).wf(),
        ensures
            final(self).wf(),
            final(self)@ == old(self)@.paged(down, whole),
    {
        let (screen, offset): (usize, usize) = match &self.store {
            None => {
                return;
            },
            Some(store) => (store.viewport_rows, store.row_offset),
        };
        let step = step_of(screen, whole);
        let last = self.last_row();
        let total = self.row_total();
        let height: usize = self.cursor_row.saturating_sub(offset);
        let wanted: usize = if down {
            let bound: usize = total.saturating_sub(step_of(screen, true));
            let next: usize = offset.saturating_add(step);
            if next < bound {
                next
            } else {
                bound
            }
        } else {
            offset.saturating_sub(step)
        };
        self.scroll_to(wanted);
        let settled: usize = match &self.store {
            None => 0,
            Some(store) => store.row_offset,
        };
        if settled == offset {
            // The view could not move, so only the cursor does.
            if down {
                let to: usize = self.cursor_row.saturating_add(step);
                self.cursor_row = if to < last { to } else { last };
            } else {
                self.cursor_row = self.cursor_row.saturating_sub(step);
            }
        } else {
            let to: usize = settled.saturating_add(height);
            self.cursor_row = if to < last { to } else { last };
        }
        assert(self@ =~= old(self)@.paged(down, whole));
    }

    /// Jump to the row with this 1-based number.
    pub fn jump_to_line(&mut self, digits: &str)
        requires
            old(self).wf(),
            all_digits(digits@),
        ensures
            final(self).wf(),
            final(self)@ == old(self)@.to_line(digits@),
    {
        let total = self.row_total();
        match parse_count(digits) {
            None => {
                let mut out = text::joined("Not a valid line number: \"", digits);
                text::push_str(&mut out, "\"");
                self.message = Some(out);
            },
            Some(n) => if n == 0 {
                let mut out = text::joined(
                    "Invalid line: 0  (valid: 1\u{2013}",
                    text::decimal(total).as_str(),
                );
                text::push_str(&mut out, ")");
                self.message = Some(out);
            } else if n > total {
                let mut out = text::joined("Line ", text::decimal(n).as_str());
                text::push_str(&mut out, " out of range  (file has ");
                text::push_str(&mut out, text::decimal(total).as_str());
                text::push_str(&mut out, " rows)");
                self.message = Some(out);
            } else {
                self.cursor_to(n - 1);
            },
        }
        assert(self@ =~= old(self)@.to_line(digits@));
    }

    /// Consume the pending count, `default` if there is none.
    pub fn take_count(&mut self, default: usize) -> (n: usize)
        requires
            old(self).wf(),
        ensures
            final(self).wf(),
            final(self)@ == old(self)@.uncounted(),
            n == counted(old(self)@.pending_num, default),
    {
        let n: usize = if self.pending_num.as_str().is_empty() {
            default
        } else {
            let n: usize = match parse_count(self.pending_num.as_str()) {
                Some(n) => n,
                None => default,
            };
            if n == 0 {
                1
            } else {
                n
            }
        };
        self.uncount();
        n
    }

    /// To the row the pending count names, or else where `bottom` says.
    pub(crate) fn go_counted(&mut self, bottom: bool)
        requires
            old(self).wf(),
        ensures
            final(self).wf(),
            final(self)@ == if bottom { old(self)@.to_bottom() } else { old(self)@.to_first() },
    {
        if self.pending_num.as_str().is_empty() {
            if bottom {
                let last = self.last_row();
                self.cursor_to(last);
            } else {
                self.cursor_to(0);
            }
        } else {
            let digits = self.pending_num.clone();
            self.uncount();
            self.jump_to_line(digits.as_str());
        }
    }

    /// Whether the column at a display position is pinned.
    fn is_pinned(&self, display: usize) -> (b: bool)
        ensures
            b == self@.pinned_at(display),
    {
        broadcast use {vstd::std_specs::btree::group_btree_axioms, vstd::laws_cmp::group_laws_cmp};

        match &self.store {
            None => false,
            Some(store) => match store.source_column(display) {
                Some(c) => self.pinned.contains(&c),
                None => false,
            },
        }
    }

    /// So many columns left, or so many columns of scroll in row mode.
    pub fn column_left(&mut self, n: usize)
        requires
            old(self).wf(),
        ensures
            final(self).wf(),
            final(self)@ == old(self)@.left(n as int),
    {
        match self.selection_mode {
            SelectionMode::Row => {
                self.col_offset = self.col_offset.saturating_sub(n);
            },
            _ => {
                self.cursor_col = self.cursor_col.saturating_sub(n);
                if !self.is_pinned(self.cursor_col) && self.col_offset >= self.cursor_col {
                    self.col_offset = self.cursor_col;
                }
            },
        }
        assert(self@ =~= old(self)@.left(n as int));
    }

    /// So many columns right.
    pub fn column_right(&mut self, n: usize, drawn: Drawn)
        requires
            old(self).wf(),
        ensures
            final(self).wf(),
            final(self)@ == old(self)@.right(n as int, drawn),
    {
        match self.selection_mode {
            SelectionMode::Row => {
                let to: usize = self.col_offset.saturating_add(n);
                self.col_offset = if to < drawn.max_col_offset { to } else { drawn.max_col_offset };
            },
            _ => {
                let last = self.last_column();
                let to: usize = self.cursor_col.saturating_add(n);
                self.cursor_col = if to < last { to } else { last };
            },
        }
        assert(self@ =~= old(self)@.right(n as int, drawn));
    }

    pub(crate) fn go_first_column(&mut self)
        requires
            old(self).wf(),
        ensures
            final(self).wf(),
            final(self)@ == old(self)@.first_column(),
    {
        self.uncount();
        self.col_offset = 0;
        self.cursor_col = 0;
    }

    pub(crate) fn go_last_column(&mut self, drawn: Drawn)
        requires
            old(self).wf(),
        ensures
            final(self).wf(),
            final(self)@ == old(self)@.to_last_column(drawn),
    {
        let last = self.last_column();
        self.uncount();
        self.cursor_col = last;
        self.col_offset = drawn.max_col_offset;
    }

    pub(crate) fn cycle_mode(&mut self)
        requires
            old(self).wf(),
        ensures
            final(self).wf(),
            final(self)@ == old(self)@.cycled(),
    {
        self.visual_anchor = None;
        self.selection_mode = self.selection_mode.cycle();
        match self.selection_mode {
            SelectionMode::Row => {},
            _ => {
                self.cursor_col = self.col_offset;
            },
        }
        self.unsearch();
    }

    /// Bring the view back to where the drawing says it has to be.
    pub fn settle(&mut self, drawn: Drawn, last_drawn: usize, showing: usize)
        requires
            old(self).wf(),
        ensures
            final(self).wf(),
            final(self)@ == old(self)@.settled(drawn, last_drawn, showing),
    {
        match self.selection_mode {
            SelectionMode::Row => {
                if self.col_offset >= drawn.max_col_offset {
                    self.col_offset = drawn.max_col_offset;
                }
            },
            _ => {
                // Landing on a pinned column is never a reason to scroll.
                if !self.is_pinned(self.cursor_col) {
                    if self.cursor_col < self.col_offset {
                        self.col_offset = self.cursor_col;
                    } else if self.cursor_col > last_drawn {
                        self.col_offset = showing;
                    }
                }
            },
        }
        assert(self@ =~= old(self)@.settled(drawn, last_drawn, showing));
    }

    /// The column the status bar names.
    pub fn col_position(&self) -> (c: usize)
        ensures
            c == self@.named_column(),
    {
        match self.selection_mode {
            SelectionMode::Row => self.col_offset,
            _ => self.cursor_col,
        }
    }
}

/// Wherever the cursor is sent, it lands on a row that is on show, in view.
pub proof fn the_cursor_lands_in_view(s: Session, row: int)
    requires
        s.store is Some,
        s.rows() > 0,
        row >= 0,
        s.store->Some_0.viewport_rows > 0,
    ensures
        ({
            let after = s.cursor_to(row);
            let h = after.store->Some_0;
            &&& after.cursor_row < after.rows()
            &&& h.row_offset <= after.cursor_row < h.row_offset + h.viewport_rows
        }),
{
    reveal(Session::cursor_to);
}

/// Moving down and then up by as much ends where it began, unless the end of the
/// file was in the way.
pub proof fn up_undoes_down(s: Session, n: int)
    requires
        n >= 0,
        s.cursor_row + n < s.rows(),
    ensures
        s.down(n).up(n).cursor_row == s.cursor_row,
{
    reveal(Session::cursor_to);
}

} // verus!
