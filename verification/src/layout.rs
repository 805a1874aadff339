//! Which columns of a table there is room for.
//!
//! Pinned columns stand at the left edge, whatever is scrolled to. The others
//! follow from the offset on, as far as they fit.
use vstd::prelude::*;
use std::collections::BTreeSet;
use crate::ui::MIN_COLUMN;

verus! {

/// Widest a column is drawn unless a width is set by hand.
pub const MAX_COLUMN: usize = 40;

/// How wide a column is drawn: as it was set, or as its name and the widest
/// value on screen ask for, within bounds.
pub fn column_width(set: Option<usize>, name: usize, widest: usize) -> (width: usize)
    ensures
        width == match set {
            Some(width) => width,
            None => {
                let wanted = if widest < name { name } else { widest };
                if wanted < MIN_COLUMN {
                    MIN_COLUMN
                } else if wanted > MAX_COLUMN {
                    MAX_COLUMN
                } else {
                    wanted
                }
            },
        },
{
    match set {
        Some(width) => width,
        None => {
            let wanted: usize = if widest < name { name } else { widest };
            if wanted < MIN_COLUMN {
                MIN_COLUMN
            } else if wanted > MAX_COLUMN {
                MAX_COLUMN
            } else {
                wanted
            }
        },
    }
}

/// The room that the columns from `first` up to `end` take, the pinned ones
/// aside.
pub open spec fn scrolling(widths: Seq<usize>, pins: Set<usize>, first: int, end: int) -> nat
    decreases end - first,
{
    if first >= end {
        0
    } else {
        scrolling(widths, pins, first, end - 1) + if pins.contains((end - 1) as usize) {
            0nat
        } else {
            widths[end - 1] as nat
        }
    }
}

/// The room that the pinned columns among the first `n` take.
pub open spec fn pinned(widths: Seq<usize>, pins: Set<usize>, n: nat) -> nat
    decreases n,
{
    if n == 0 {
        0
    } else {
        pinned(widths, pins, (n - 1) as nat) + if pins.contains((n - 1) as usize) {
            widths[n - 1] as nat
        } else {
            0nat
        }
    }
}

/// What pinned columns and the gutter leave of a screen.
pub open spec fn room_left(widths: Seq<usize>, pins: Set<usize>, screen: usize, gutter: usize) -> nat {
    let taken = gutter + pinned(widths, pins, widths.len());
    if taken < screen {
        (screen - taken) as nat
    } else {
        0
    }
}

/// What is left of a screen for the columns that scroll.
pub fn room(widths: &Vec<usize>, pins: &BTreeSet<usize>, screen: usize, gutter: usize) -> (left: usize)
    ensures
        left == room_left(widths@, pins@, screen, gutter),
{
    let mut left: usize = screen.saturating_sub(gutter);
    let mut c: usize = 0;
    while c < widths.len()
        invariant
            c <= widths@.len(),
            left == if gutter + pinned(widths@, pins@, c as nat) < screen {
                screen - (gutter + pinned(widths@, pins@, c as nat))
            } else {
                0
            },
        decreases widths@.len() - c,
    {
        if pins.contains(&c) {
            left = left.saturating_sub(widths[c]);
        }
        c += 1;
    }
    left
}

/// Whether the pinned columns leave room to scroll in.
pub fn pin_fits(widths: &Vec<usize>, pins: &BTreeSet<usize>, screen: usize, gutter: usize) -> (b: bool)
    ensures
        b == (room_left(widths@, pins@, screen, gutter) > MIN_COLUMN),
{
    room(widths, pins, screen, gutter) > MIN_COLUMN
}

/// A column from which all up to `last` fit.
pub open spec fn reaches(widths: Seq<usize>, pins: Set<usize>, room: usize, first: int, last: int) -> bool {
    !pins.contains(first as usize) && scrolling(widths, pins, first, last + 1) <= room
}

proof fn lemma_scrolling_front(widths: Seq<usize>, pins: Set<usize>, first: int, end: int)
    requires
        first < end,
    ensures
        scrolling(widths, pins, first, end) == scrolling(widths, pins, first + 1, end) + if pins.contains(
            first as usize,
        ) {
            0nat
        } else {
            widths[first] as nat
        },
    decreases end - first,
{
    if first + 1 < end {
        lemma_scrolling_front(widths, pins, first, end - 1);
    } else {
        assert(scrolling(widths, pins, first, first) == 0);
        assert(scrolling(widths, pins, first + 1, end) == 0);
    }
}

proof fn lemma_scrolling_grows(widths: Seq<usize>, pins: Set<usize>, a: int, b: int, end: int)
    requires
        0 <= a <= b <= end,
    ensures
        scrolling(widths, pins, b, end) <= scrolling(widths, pins, a, end),
    decreases b - a,
{
    if a < b {
        lemma_scrolling_front(widths, pins, a, end);
        lemma_scrolling_grows(widths, pins, a + 1, b, end);
    }
}

/// The offset that brings a column to the right edge: the first column from
/// which all up to it fit, or the column itself where it does not fit alone.
pub fn col_offset_showing(widths: &Vec<usize>, pins: &BTreeSet<usize>, room: usize, last: usize) -> (first: usize)
    requires
        last < widths@.len(),
    ensures
        first <= last,
        first != last ==> reaches(widths@, pins@, room, first as int, last as int),
        forall|f: int| 0 <= f < first ==> !#[trigger] reaches(widths@, pins@, room, f, last as int),
{
    let mut left: usize = room;
    let mut first: usize = last;
    assert(last < widths.len());
    let mut c: usize = last + 1;
    while c > 0
        invariant
            c <= last + 1,
            last < widths@.len(),
            left + scrolling(widths@, pins@, c as int, last + 1) == room,
            first <= last,
            c <= first || first == last,
            first != last ==> reaches(widths@, pins@, room, first as int, last as int),
            forall|f: int|
                c <= f < first ==> !#[trigger] reaches(widths@, pins@, room, f, last as int),
        decreases c,
    {
        proof {
            lemma_scrolling_front(widths@, pins@, c - 1, last + 1);
        }
        if !pins.contains(&(c - 1)) {
            if widths[c - 1] > left {
                assert forall|f: int| 0 <= f < first implies !#[trigger] reaches(
                    widths@,
                    pins@,
                    room,
                    f,
                    last as int,
                ) by {
                    if f < c {
                        lemma_scrolling_grows(widths@, pins@, f, c - 1, last + 1);
                    }
                }
                return first;
            }
            left = left - widths[c - 1];
            first = c - 1;
        }
        c -= 1;
    }
    first
}

/// The columns drawn behind the pinned ones, from the offset on.
pub fn shown_from(widths: &Vec<usize>, pins: &BTreeSet<usize>, room: usize, offset: usize) -> (out: Vec<usize>)
    ensures
        forall|k: int|
            0 <= k < out@.len() ==> offset <= (#[trigger] out@[k]) < widths@.len() && !pins@.contains(out@[k])
                && scrolling(widths@, pins@, offset as int, out@[k] + 1) <= room,
        forall|c: usize|
            offset <= c < widths@.len() && !pins@.contains(c) && scrolling(
                widths@,
                pins@,
                offset as int,
                c + 1,
            ) <= room ==> #[trigger] out@.contains(c),
        forall|a: int, b: int| 0 <= a < b < out@.len() ==> out@[a] < out@[b],
{
    let mut out: Vec<usize> = Vec::new();
    let mut left: usize = room;
    let mut c: usize = offset;
    while c < widths.len()
        invariant
            offset <= c,
            c <= widths@.len() || c == offset,
            left + scrolling(widths@, pins@, offset as int, c as int) == room,
            forall|k: int|
                0 <= k < out@.len() ==> offset <= (#[trigger] out@[k]) < c && out@[k] < widths@.len()
                    && !pins@.contains(out@[k]) && scrolling(widths@, pins@, offset as int, out@[k] + 1)
                    <= room,
            forall|d: usize|
                offset <= d < c && d < widths@.len() && !pins@.contains(d) && scrolling(
                    widths@,
                    pins@,
                    offset as int,
                    d + 1,
                ) <= room ==> #[trigger] out@.contains(d),
            forall|a: int, b: int| 0 <= a < b < out@.len() ==> out@[a] < out@[b],
        decreases widths@.len() - c,
    {
        if !pins.contains(&c) {
            if widths[c] > left {
                assert forall|d: usize|
                    offset <= d < widths@.len() && !pins@.contains(d) && scrolling(
                        widths@,
                        pins@,
                        offset as int,
                        d + 1,
                    ) <= room implies #[trigger] out@.contains(d) by {
                    if d >= c {
                        lemma_scrolling_behind(widths@, pins@, offset as int, c + 1, d + 1);
                    }
                }
                return out;
            }
            left = left - widths[c];
            let ghost before = out@;
            out.push(c);
            proof {
                assert(out@[before.len() as int] == c);
                assert forall|d: usize|
                    offset <= d < c + 1 && d < widths@.len() && !pins@.contains(d) && scrolling(
                        widths@,
                        pins@,
                        offset as int,
                        d + 1,
                    ) <= room implies #[trigger] out@.contains(d) by {
                    if d < c {
                        assert(before.contains(d));
                        let k = choose|k: int| 0 <= k < before.len() && before[k] == d;
                        assert(out@[k] == d);
                    }
                }
            }
        }
        c += 1;
    }
    out
}

proof fn lemma_scrolling_behind(widths: Seq<usize>, pins: Set<usize>, first: int, a: int, b: int)
    requires
        first <= a <= b,
    ensures
        scrolling(widths, pins, first, a) <= scrolling(widths, pins, first, b),
    decreases b - a,
{
    if a < b {
        lemma_scrolling_behind(widths, pins, first, a, b - 1);
    }
}

/// A column that is brought to the right edge is drawn, unless it is wider than
/// all the room there is.
pub proof fn what_is_scrolled_to_is_drawn(
    widths: Seq<usize>,
    pins: Set<usize>,
    room: usize,
    first: int,
    last: int,
)
    requires
        0 <= first <= last < widths.len(),
        first != last ==> reaches(widths, pins, room, first, last),
        !pins.contains(last as usize),
        widths[last] <= room,
    ensures
        scrolling(widths, pins, first, last + 1) <= room,
{
    if first == last {
        assert(scrolling(widths, pins, last, last) == 0);
    }
}

} // verus!
