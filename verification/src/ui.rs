//! A cursor in a list longer than the screen, and how much of the screen panels
//! take.
use vstd::prelude::*;
use crate::text;
use crate::text::{split_text, texts};

verus! {

/// The fewest characters a column is drawn in.
pub const MIN_COLUMN: usize = 4;

/// The room that a column of a list asks for.
#[derive(Clone, Copy, Debug, PartialEq, Eq, Structural)]
pub enum Width {
    /// This many characters.
    Length(u16),
    /// What the others leave, and at least this many.
    Min(u16),
}

/// Which entry is selected and which is the first one drawn.
#[derive(Clone, Copy, Debug, PartialEq, Eq, Structural)]
pub struct BrowserState {
    pub selected: usize,
    pub offset: usize,
}

/// `at` if a list of `len` entries has it, else the last entry, or 0 in a list
/// that has none.
pub open spec fn held(at: int, len: nat) -> int {
    if at < 0 || len == 0 {
        0
    } else if at >= len {
        len - 1
    } else {
        at
    }
}

/// The first row drawn, so that `selected` is among `height` rows from it,
/// moved no further than that takes.
pub open spec fn scrolled(offset: int, selected: int, height: nat) -> int {
    if selected < offset {
        selected
    } else if height > 0 && selected >= offset + height {
        selected - height + 1
    } else {
        offset
    }
}

impl BrowserState {
    pub fn new() -> (s: Self)
        ensures
            s.selected == 0,
            s.offset == 0,
    {
        BrowserState { selected: 0, offset: 0 }
    }

    /// Put the cursor on an entry, or on the last one where there is no such.
    pub fn go_to(&mut self, at: usize, len: usize)
        ensures
            final(self).selected == held(at as int, len as nat),
            final(self).offset == old(self).offset,
    {
        self.selected = if len == 0 {
            0
        } else if at >= len {
            len - 1
        } else {
            at
        };
    }

    /// Move the cursor, stopping at either end.
    pub fn move_by(&mut self, delta: isize, len: usize)
        ensures
            final(self).selected == held(old(self).selected + delta, len as nat),
            final(self).offset == old(self).offset,
    {
        let at: usize = if delta >= 0 {
            self.selected.saturating_add(delta as usize)
        } else if delta == isize::MIN {
            self.selected.saturating_sub(isize::MAX as usize).saturating_sub(1)
        } else {
            self.selected.saturating_sub((-delta) as usize)
        };
        self.go_to(at, len);
    }

    /// Scroll no further than keeps the cursor on screen.
    pub fn clamp_scroll(&mut self, height: usize)
        ensures
            final(self).selected == old(self).selected,
            final(self).offset == scrolled(
                old(self).offset as int,
                old(self).selected as int,
                height as nat,
            ),
    {
        if self.selected < self.offset {
            self.offset = self.selected;
        } else if height > 0 && self.selected - self.offset >= height {
            self.offset = self.selected - height + 1;
        }
    }
}

/// After scrolling, the cursor is on screen.
pub proof fn the_cursor_stays_on_screen(offset: int, selected: int, height: nat)
    requires
        height > 0,
        0 <= offset,
        0 <= selected,
    ensures
        ({
            let at = scrolled(offset, selected, height);
            at <= selected < at + height
        }),
{
}

/// The length of the longest of some texts.
pub open spec fn longest(items: Seq<Seq<char>>) -> nat
    decreases items.len(),
{
    if items.len() == 0 {
        0
    } else {
        let before = longest(items.drop_last());
        if items.last().len() > before {
            items.last().len()
        } else {
            before
        }
    }
}

/// How often `size` goes into `n`, with whatever is left over counted as once
/// more.
pub open spec fn rows_for(n: nat, size: nat) -> nat {
    if size == 0 {
        n
    } else {
        (n + size - 1) as nat / size
    }
}

/// How many items of this length stand side by side, two spaces between them,
/// and always at least one.
pub open spec fn abreast(length: nat, width: nat) -> nat {
    let fit = width / (length + 2);
    if fit == 0 {
        1
    } else {
        fit
    }
}

/// `n`, as far as a screen goes.
pub open spec fn on_screen(n: nat) -> u16 {
    if n > u16::MAX {
        u16::MAX
    } else {
        n as u16
    }
}

fn screen_rows(n: usize, size: usize) -> (rows: usize)
    requires
        size > 0,
    ensures
        rows == rows_for(n as nat, size as nat),
{
    let whole: usize = n / size;
    let rest: usize = n % size;
    proof {
        vstd::arithmetic::div_mod::lemma_fundamental_div_mod(n as int, size as int);
        let q = n as int / size as int;
        let r = n as int % size as int;
        if r == 0 {
            assert((n + size - 1) / (size as int) == q) by (nonlinear_arith)
                requires
                    n == size * q,
                    size > 0,
                    q >= 0,
            ;
        } else {
            assert((n + size - 1) / (size as int) == q + 1) by (nonlinear_arith)
                requires
                    n == size * q + r,
                    0 < r < size,
                    q >= 0,
            ;
            assert(whole < usize::MAX) by (nonlinear_arith)
                requires
                    n == size * q + r,
                    q == whole,
                    0 < r < size,
                    n <= usize::MAX,
            ;
        }
    }
    if rest == 0 {
        whole
    } else {
        whole + 1
    }
}

/// How many rows a panel of candidates takes on a screen this wide.
pub fn panel_height(items: &Vec<String>, width: u16) -> (rows: u16)
    requires
        longest(texts(items@)) <= usize::MAX - 2,
    ensures
        rows == on_screen(
            rows_for(items@.len(), abreast(longest(texts(items@)), width as nat)),
        ),
{
    let ghost all = texts(items@);
    let mut most: usize = 0;
    let mut i: usize = 0;
    assert(all.take(0) =~= Seq::empty());
    while i < items.len()
        invariant
            i <= items@.len(),
            all == texts(items@),
            most == longest(all.take(i as int)),
        decreases items@.len() - i,
    {
        assert(all.take(i + 1).drop_last() =~= all.take(i as int));
        let n = text::length(items[i].as_str());
        if n > most {
            most = n;
        }
        i += 1;
    }
    assert(all.take(i as int) =~= all);
    let fit: usize = width as usize / (most + 2);
    let across: usize = if fit == 0 { 1 } else { fit };
    let rows = screen_rows(items.len(), across);
    if rows > u16::MAX as usize {
        u16::MAX
    } else {
        rows as u16
    }
}

/// Rows that lines of text take on a screen this wide. An empty line is one.
pub open spec fn wrapped(lines: Seq<Seq<char>>, width: nat) -> nat
    decreases lines.len(),
{
    if lines.len() == 0 {
        0
    } else {
        wrapped(lines.drop_last(), width) + (if lines.last().len() == 0 {
            1
        } else {
            rows_for(lines.last().len(), width)
        })
    }
}

/// How many rows the text of a cell takes on a screen this wide, under a line
/// that names it, and never more than there is room for.
pub fn cell_height(value: &str, width: u16, room: u16) -> (rows: u16)
    ensures
        ({
            let across = if width == 0 { 1nat } else { width as nat };
            let full = 1 + wrapped(split_text(value@, '\n'), across);
            rows == if full > room { room } else { full as u16 }
        }),
{
    let across: usize = if width == 0 { 1 } else { width as usize };
    let lines = text::split(value, '\n');
    let ghost all = texts(lines@);
    let mut rows: usize = 1;
    let mut i: usize = 0;
    assert(all.take(0) =~= Seq::empty());
    if room == 0 {
        return 0;
    }
    while i < lines.len()
        invariant
            i <= lines@.len(),
            all == texts(lines@),
            all == split_text(value@, '\n'),
            across == if width == 0 { 1usize } else { width as usize },
            0 < rows <= room,
            rows == 1 + wrapped(all.take(i as int), across as nat),
        decreases lines@.len() - i,
    {
        assert(all.take(i + 1).drop_last() =~= all.take(i as int));
        proof {
            lemma_wrapped(all, i + 1, across as nat);
        }
        let n = text::length(lines[i].as_str());
        let more: usize = if n == 0 { 1 } else { screen_rows(n, across) };
        if more > room as usize - rows {
            return room;
        }
        rows += more;
        i += 1;
    }
    assert(all.take(i as int) =~= all);
    rows as u16
}

/// The first lines take no more rows than all of them.
proof fn lemma_wrapped(lines: Seq<Seq<char>>, k: int, width: nat)
    requires
        0 <= k <= lines.len(),
    ensures
        wrapped(lines.take(k), width) <= wrapped(lines, width),
    decreases lines.len() - k,
{
    if k < lines.len() {
        assert(lines.take(k + 1).drop_last() =~= lines.take(k));
        lemma_wrapped(lines, k + 1, width);
    } else {
        assert(lines.take(k) =~= lines);
    }
}

} // verus!
