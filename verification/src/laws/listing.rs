//! The list of columns, how wide they are drawn, and what the clipboard is given.
use vstd::prelude::*;
use crate::app::keys::Key;
use crate::app::session::{Mode, Session};
use crate::clipboard::{base64_text, group, letter};
use crate::layout::{column_width, pinned, room_left, scrolling};
use crate::picker::{mark, Choice};
use crate::ui::{held, scrolled};

verus! {

/// A line of a list is gone to, or the first or the last one if there is no such
/// line.
pub proof fn a_line_is_held_within_the_list(at: int, len: nat)
    requires
        len > 0,
    ensures
        0 <= at < len ==> held(at, len) == at,
        at < 0 ==> held(at, len) == 0,
        at >= len ==> held(at, len) == len - 1,
{
}

/// A list is scrolled no further than brings the line that is gone to on the
/// screen: to its top from below, to its bottom from above.
pub proof fn a_list_is_scrolled_to_its_line(offset: int, selected: int, height: nat)
    requires
        0 <= offset,
        0 <= selected,
        height > 0,
    ensures
        selected < offset ==> scrolled(offset, selected, height) == selected,
        offset <= selected < offset + height ==> scrolled(offset, selected, height) == offset,
        selected >= offset + height ==> scrolled(offset, selected, height) + height == selected + 1,
{
}

/// The columns that were picked are those of the list that are marked, in its
/// order.
pub proof fn what_is_picked_is_what_is_marked(c: Choice, column: usize)
    ensures
        ({
            let longer = Choice { order: c.order.push(column), ..c };
            &&& c.shown.contains(column) ==> longer.selection() == c.selection().push(column)
            &&& !c.shown.contains(column) ==> longer.selection() == c.selection()
        }),
        c.order.len() == 0 ==> c.selection().len() == 0,
        c.lines().len() == c.order.len(),
        forall|i: int|
            0 <= i < c.order.len() ==> {
                let column = c.order[i];
                let line = #[trigger] c.lines()[i];
                &&& line.len() == 3
                &&& column < c.names.len() ==> line[0] == c.names[column as int]
                &&& (line[1] == "\u{2713}"@) == c.shown.contains(column)
                &&& (line[2] == "\u{2713}"@) == c.pinned.contains(column)
                &&& !c.shown.contains(column) ==> line[1].len() == 0
                &&& !c.pinned.contains(column) ==> line[2].len() == 0
            },
{
    reveal(Seq::filter);
    let longer = Choice { order: c.order.push(column), ..c };
    assert(longer.order.drop_last() =~= c.order);
    let keep = |x: usize| c.shown.contains(x);
    assert(longer.selection() == longer.order.filter(keep));
    reveal_strlit("\u{2713}");
    assert("\u{2713}"@.len() == 1);
    assert(mark(false).len() == 0);
}

/// The keys of the list of columns.
pub proof fn keys_of_the_list(s: Session, c: Choice, key: Key, ctrl: bool)
    requires
        s.picker == Some(c),
        c.order.len() > 0,
        c.state.selected < c.order.len(),
        c.order.len() <= usize::MAX,
    ensures
        ({
            let after = s.picker_key(key, ctrl);
            let at = c.state.selected as int;
            let column = c.order[at];
            let last = c.order.len() - 1;
            let half = s.last_vp as int / 2;
            let line = after.picker->Some_0.state.selected as int;
            let down = key == Key::Down || key == Key::Char('j');
            let up = key == Key::Up || key == Key::Char('k');
            &&& down && at < last ==> line == at + 1
            &&& down && at == last ==> line == at
            &&& up && at > 0 ==> line == at - 1
            &&& up && at == 0 ==> line == 0
            &&& key == Key::Home || key == Key::Char('g') ==> line == 0
            &&& key == Key::End || key == Key::Char('G') ==> line == last
            &&& ctrl && key == Key::Char('d') && at + half <= last ==> line == at + half
            &&& ctrl && key == Key::Char('d') && at + half > last ==> line == last
            &&& ctrl && key == Key::Char('u') && at >= half ==> line == at - half
            &&& ctrl && key == Key::Char('u') && at < half ==> line == 0
            &&& key == Key::Char('p') ==> after.picker->Some_0.shown == c.shown
                && after.picker->Some_0.pinned == (if c.pinned.contains(column) {
                c.pinned.remove(column)
            } else {
                c.pinned.insert(column)
            })
            &&& key == Key::Char('-') && !c.shown.contains(column) ==> after.picker->Some_0.shown
                == c.shown.insert(column) && after.picker->Some_0.pinned == c.pinned
            &&& key == Key::Char('-') && c.shown.contains(column) && c.shown.len() != 1
                ==> after.picker->Some_0.shown == c.shown.remove(column) && after.picker->Some_0.pinned
                == c.pinned
            &&& key == Key::Char('-') && c.shown.contains(column) && c.shown.len() == 1 ==> after.picker
                == s.picker && after.message == Some("that would hide every column"@)
            &&& key == Key::Char('a') ==> forall|x: usize|
                after.picker->Some_0.shown.contains(x) <==> #[trigger] c.order.contains(x)
            &&& key == Key::Char('A') ==> forall|x: usize| #[trigger]
                after.picker->Some_0.shown.contains(x) <==> x == column
            &&& key == Key::Esc ==> after == (Session { picker: None, mode: Mode::Normal, ..s })
            &&& key == Key::Enter && c.selection().len() == 0 ==> after.store == s.store && after.pinned
                == s.pinned && after.mode == Mode::Normal && after.message == Some(
                "that would hide every column"@,
            )
            &&& key == Key::Enter && c.selection().len() > 0 && s.store is Some ==> after.mode == Mode::Normal
                && after.picker is None && after.pinned == c.pinned && after.store->Some_0.columns()
                == c.selection()
            &&& key != Key::Enter ==> after.store == s.store && after.pinned == s.pinned
        }),
{
    if key == Key::Char('a') {
        let after = s.picker_key(key, ctrl);
        assert forall|x: usize| after.picker->Some_0.shown.contains(x) <==> #[trigger] c.order.contains(x) by {
            assert(c.order.to_set().contains(x) <==> c.order.contains(x));
        }
    }
}

/// The list comes up with what is shown and pinned marked, the first line first.
pub proof fn the_list_comes_up_as_things_are(s: Session)
    requires
        s.store is Some,
    ensures
        ({
            let after = s.picking();
            let c = after.picker->Some_0;
            &&& after.mode == Mode::Picker && after.picker is Some
            &&& c.pinned == s.pinned && c.state.selected == 0
            &&& forall|x: usize| c.shown.contains(x) <==> #[trigger] s.store->Some_0.columns().contains(x)
            &&& c.names.len() == s.store->Some_0.names@.len()
            &&& after.store == s.store
        }),
{
}

/// Widths added up.
pub open spec fn total(widths: Seq<usize>, n: nat) -> nat
    decreases n,
{
    if n == 0 {
        0
    } else {
        total(widths, (n - 1) as nat) + widths[n - 1] as nat
    }
}

/// A column takes its room among the pinned ones or among the others, and not
/// twice.
pub proof fn a_column_takes_its_room_once(widths: Seq<usize>, pins: Set<usize>, n: nat)
    requires
        n <= widths.len(),
    ensures
        pinned(widths, pins, n) + scrolling(widths, pins, 0, n as int) == total(widths, n),
        pins == Set::<usize>::empty() ==> pinned(widths, pins, n) == 0,
    decreases n,
{
    if n > 0 {
        a_column_takes_its_room_once(widths, pins, (n - 1) as nat);
    }
}

/// What is left of the screen is what the gutter and the pinned columns do not
/// take.
pub proof fn room_is_what_is_left(widths: Seq<usize>, pins: Set<usize>, screen: usize, gutter: usize)
    ensures
        ({
            let taken = gutter + pinned(widths, pins, widths.len());
            &&& taken <= screen ==> room_left(widths, pins, screen, gutter) + taken == screen
            &&& taken > screen ==> room_left(widths, pins, screen, gutter) == 0
        }),
{
}

/// The number that a letter of the clipboard's alphabet stands for.
pub open spec fn letter_value(c: char) -> int {
    if 'A' <= c <= 'Z' {
        c as int - 'A' as int
    } else if 'a' <= c <= 'z' {
        c as int - 'a' as int + 26
    } else if '0' <= c <= '9' {
        c as int - '0' as int + 52
    } else if c == '+' {
        62
    } else {
        63
    }
}

/// Each letter stands for its own number.
pub proof fn each_letter_has_its_number(k: int)
    requires
        0 <= k < 64,
    ensures
        letter_value(letter(k)) == k,
        letter(k) != '=',
{
}

/// The bytes that a group of four letters stands for.
pub open spec fn group_bytes(g: Seq<char>) -> Seq<int> {
    let n = letter_value(g[0]) * 4 + letter_value(g[1]) / 16;
    let m = (letter_value(g[1]) % 16) * 16 + letter_value(g[2]) / 4;
    let o = (letter_value(g[2]) % 4) * 64 + letter_value(g[3]);
    if g[2] == '=' {
        seq![n]
    } else if g[3] == '=' {
        seq![n, m]
    } else {
        seq![n, m, o]
    }
}

/// A group of letters gives back the bytes that it was made of, up to three.
pub proof fn a_group_gives_back_its_bytes(bytes: Seq<u8>)
    requires
        1 <= bytes.len() <= 3,
    ensures
        group(bytes).len() == 4,
        group_bytes(group(bytes)) == bytes.map_values(|b: u8| b as int),
{
    let b0 = bytes[0] as int;
    let b1 = if bytes.len() > 1 { bytes[1] as int } else { 0 };
    let b2 = if bytes.len() > 2 { bytes[2] as int } else { 0 };
    let g = group(bytes);
    each_letter_has_its_number(b0 / 4);
    each_letter_has_its_number((b0 % 4) * 16 + b1 / 16);
    each_letter_has_its_number((b1 % 16) * 4 + b2 / 64);
    each_letter_has_its_number(b2 % 64);
    assert(group_bytes(g) =~= bytes.map_values(|b: u8| b as int));
}

/// Bytes are put in letters three at a time.
pub proof fn bytes_go_three_at_a_time(three: Seq<u8>, rest: Seq<u8>)
    requires
        three.len() == 3,
        rest.len() > 0,
    ensures
        base64_text(three + rest) == group(three) + base64_text(rest),
        base64_text(three) == group(three),
        base64_text(Seq::empty()).len() == 0,
{
    assert((three + rest).take(3) =~= three);
    assert((three + rest).skip(3) =~= rest);
}

/// A column is as wide as it was set to be; else as wide as its widest text or its
/// name, within bounds.
pub proof fn a_column_is_as_wide_as_its_text(set: Option<usize>, name: usize, widest: usize, width: usize)
    requires
        call_ensures(column_width, (set, name, widest), width),
    ensures
        set matches Some(given) ==> width == given,
        set is None ==> 4 <= width <= 40,
        set is None && 4 <= name <= 40 ==> width >= name,
        set is None && 4 <= widest <= 40 ==> width >= widest,
        set is None && name <= widest && 4 <= widest <= 40 ==> width == widest,
        set is None && widest <= name && 4 <= name <= 40 ==> width == name,
{
}

} // verus!
