//! Keys, and what each is bound to.
use vstd::prelude::*;

verus! {

/// A key as a terminal reports it.
#[derive(Clone, Copy, Debug, PartialEq, Eq, Structural)]
pub enum Key {
    Char(char),
    Up,
    Down,
    Left,
    Right,
    Home,
    End,
    PageUp,
    PageDown,
    Enter,
    Esc,
    Tab,
    BackTab,
    Backspace,
    Delete,
    Other,
}

/// How a fill combines the typed text with what each cell already holds.
#[derive(Clone, Copy, Debug, PartialEq, Eq, Structural)]
pub enum FillMode {
    /// The typed value replaces each cell.
    Replace,
    /// The typed text goes in front of what is already there.
    Prepend,
    /// The typed text goes after what is already there.
    Append,
}

/// Where the caret lands when a cell edit opens.
#[derive(Clone, Copy, Debug, PartialEq, Eq, Structural)]
pub enum EditStart {
    /// The value as it stands, caret at the front.
    Front,
    /// The value as it stands, caret at the end.
    End,
    /// An empty field.
    Empty,
}

/// What a key means while looking at a table.
#[derive(Clone, Copy, Debug, PartialEq, Eq, Structural)]
pub enum Normal {
    Quit,
    FirstColumn,
    LastColumn,
    Digit(char),
    Down,
    Up,
    Page { down: bool, whole: bool },
    Prefix(char),
    Top,
    Bottom,
    Left,
    Right,
    Picker,
    Hide,
    /// A column cursor where there is none.
    TakeColumn,
    Sort,
    Mode,
    Partitions,
    Catalog,
    Snapshots,
    Search,
    NextMatch,
    PreviousMatch,
    Select,
    Fill(FillMode),
    ClearSelection,
    DeleteSelection,
    CellView,
    RelativeRows,
    OpenRow { below: bool },
    Yank,
    Paste,
    Edit(EditStart),
    ClearCell,
    Undo,
    Redo,
    Command,
    CloseCellView,
    DropSelection,
    Escape,
    Nothing,
}

/// What the meaning of a key depends on.
#[derive(Clone, Copy, Debug, PartialEq, Eq, Structural)]
pub struct Setting {
    pub ctrl: bool,
    /// A count is being typed.
    pub counting: bool,
    /// A selection is being made.
    pub selecting: bool,
    /// There is a column cursor.
    pub columns: bool,
    /// The table belongs to a lake.
    pub lake: bool,
    /// The cell under the cursor is shown in full.
    pub cell_view: bool,
}

/// What a character is bound to while looking at a table. A digit goes on with a
/// count, but a zero that begins none goes to the first column. Over a selection
/// the operators act on it; elsewhere they act on the cursor's cell, and `d`
/// waits for a second key. Hiding a column takes a column cursor first.
pub open spec fn normal_char(c: char, s: Setting) -> Normal {
    if c == 'q' || c == 'Q' {
        Normal::Quit
    } else if '0' <= c <= '9' && !s.ctrl {
        if c == '0' && !s.counting {
            Normal::FirstColumn
        } else {
            Normal::Digit(c)
        }
    } else if c == 'j' {
        Normal::Down
    } else if c == 'k' {
        Normal::Up
    } else if s.ctrl && c == 'd' {
        Normal::Page { down: true, whole: false }
    } else if s.ctrl && c == 'u' {
        Normal::Page { down: false, whole: false }
    } else if s.ctrl && c == 'f' {
        Normal::Page { down: true, whole: true }
    } else if s.ctrl && c == 'b' {
        Normal::Page { down: false, whole: true }
    } else if c == 'g' {
        Normal::Prefix('g')
    } else if c == 'd' {
        if s.selecting {
            Normal::DeleteSelection
        } else {
            Normal::Prefix('d')
        }
    } else if c == 'G' {
        Normal::Bottom
    } else if c == 'z' || c == 'Z' {
        Normal::Prefix('z')
    } else if c == 'h' {
        Normal::Left
    } else if c == 'l' {
        Normal::Right
    } else if c == 'H' {
        Normal::FirstColumn
    } else if c == '$' {
        Normal::LastColumn
    } else if c == 'C' {
        Normal::Picker
    } else if c == '-' {
        if s.columns {
            Normal::Hide
        } else {
            Normal::TakeColumn
        }
    } else if c == 's' {
        Normal::Sort
    } else if c == 'f' && s.lake {
        Normal::Partitions
    } else if c == 'b' && s.lake {
        Normal::Catalog
    } else if c == 'T' && s.lake {
        Normal::Snapshots
    } else if c == '/' {
        Normal::Search
    } else if c == 'n' {
        Normal::NextMatch
    } else if c == 'N' {
        Normal::PreviousMatch
    } else if c == 'v' {
        Normal::Select
    } else if c == 'c' {
        if s.selecting {
            Normal::Fill(FillMode::Replace)
        } else {
            Normal::Edit(EditStart::Empty)
        }
    } else if c == 'i' {
        if s.selecting {
            Normal::Fill(FillMode::Prepend)
        } else {
            Normal::Edit(EditStart::Front)
        }
    } else if c == 'a' {
        if s.selecting {
            Normal::Fill(FillMode::Append)
        } else {
            Normal::Edit(EditStart::End)
        }
    } else if c == 'x' {
        if s.selecting {
            Normal::ClearSelection
        } else {
            Normal::ClearCell
        }
    } else if c == 'K' {
        Normal::CellView
    } else if c == '#' {
        Normal::RelativeRows
    } else if c == 'o' {
        Normal::OpenRow { below: true }
    } else if c == 'O' {
        Normal::OpenRow { below: false }
    } else if c == 'y' {
        Normal::Yank
    } else if c == 'p' {
        Normal::Paste
    } else if c == 'u' {
        Normal::Undo
    } else if c == 'r' && s.ctrl {
        Normal::Redo
    } else if c == ':' {
        Normal::Command
    } else {
        Normal::Nothing
    }
}

/// What a key is bound to while looking at a table. Escape closes one thing at a
/// time: the cell in full, then the selection, then searches and sorts.
pub open spec fn normal_key(key: Key, s: Setting) -> Normal {
    match key {
        Key::Char(c) => normal_char(c, s),
        Key::Down => Normal::Down,
        Key::Up => Normal::Up,
        Key::PageDown => Normal::Page { down: true, whole: true },
        Key::PageUp => Normal::Page { down: false, whole: true },
        Key::Home => Normal::Top,
        Key::End => Normal::Bottom,
        Key::Left => Normal::Left,
        Key::Right => Normal::Right,
        Key::Tab => Normal::Mode,
        Key::Esc => if s.cell_view {
            Normal::CloseCellView
        } else if s.selecting {
            Normal::DropSelection
        } else {
            Normal::Escape
        },
        _ => Normal::Nothing,
    }
}

fn bind_char(c: char, s: Setting) -> (b: Normal)
    ensures
        b == normal_char(c, s),
{
    if s.ctrl {
        match c {
            'd' => {
                return Normal::Page { down: true, whole: false };
            },
            'u' => {
                return Normal::Page { down: false, whole: false };
            },
            'f' => {
                return Normal::Page { down: true, whole: true };
            },
            'b' => {
                return Normal::Page { down: false, whole: true };
            },
            'r' => {
                return Normal::Redo;
            },
            _ => {},
        }
    } else if '0' <= c && c <= '9' {
        return if c == '0' && !s.counting {
            Normal::FirstColumn
        } else {
            Normal::Digit(c)
        };
    }
    match c {
        'q' | 'Q' => Normal::Quit,
        'j' => Normal::Down,
        'k' => Normal::Up,
        'g' => Normal::Prefix('g'),
        'd' => if s.selecting {
            Normal::DeleteSelection
        } else {
            Normal::Prefix('d')
        },
        'G' => Normal::Bottom,
        'z' | 'Z' => Normal::Prefix('z'),
        'h' => Normal::Left,
        'l' => Normal::Right,
        'H' => Normal::FirstColumn,
        '$' => Normal::LastColumn,
        'C' => Normal::Picker,
        '-' => if s.columns {
            Normal::Hide
        } else {
            Normal::TakeColumn
        },
        's' => Normal::Sort,
        'f' => if s.lake {
            Normal::Partitions
        } else {
            Normal::Nothing
        },
        'b' => if s.lake {
            Normal::Catalog
        } else {
            Normal::Nothing
        },
        'T' => if s.lake {
            Normal::Snapshots
        } else {
            Normal::Nothing
        },
        '/' => Normal::Search,
        'n' => Normal::NextMatch,
        'N' => Normal::PreviousMatch,
        'v' => Normal::Select,
        'c' => if s.selecting {
            Normal::Fill(FillMode::Replace)
        } else {
            Normal::Edit(EditStart::Empty)
        },
        'i' => if s.selecting {
            Normal::Fill(FillMode::Prepend)
        } else {
            Normal::Edit(EditStart::Front)
        },
        'a' => if s.selecting {
            Normal::Fill(FillMode::Append)
        } else {
            Normal::Edit(EditStart::End)
        },
        'x' => if s.selecting {
            Normal::ClearSelection
        } else {
            Normal::ClearCell
        },
        'K' => Normal::CellView,
        '#' => Normal::RelativeRows,
        'o' => Normal::OpenRow { below: true },
        'O' => Normal::OpenRow { below: false },
        'y' => Normal::Yank,
        'p' => Normal::Paste,
        'u' => Normal::Undo,
        ':' => Normal::Command,
        _ => Normal::Nothing,
    }
}

/// What a key means while looking at a table.
pub fn bind_normal(key: Key, s: Setting) -> (b: Normal)
    ensures
        b == normal_key(key, s),
{
    match key {
        Key::Char(c) => bind_char(c, s),
        Key::Down => Normal::Down,
        Key::Up => Normal::Up,
        Key::PageDown => Normal::Page { down: true, whole: true },
        Key::PageUp => Normal::Page { down: false, whole: true },
        Key::Home => Normal::Top,
        Key::End => Normal::Bottom,
        Key::Left => Normal::Left,
        Key::Right => Normal::Right,
        Key::Tab => Normal::Mode,
        Key::Esc => if s.cell_view {
            Normal::CloseCellView
        } else if s.selecting {
            Normal::DropSelection
        } else {
            Normal::Escape
        },
        _ => Normal::Nothing,
    }
}

/// What a second key means behind a prefix.
#[derive(Clone, Copy, Debug, PartialEq, Eq, Structural)]
pub enum Prefixed {
    Center,
    CursorTop,
    CursorBottom,
    Wider,
    Narrower,
    Fit,
    Pin,
    UnpinAll,
    ResetWidths,
    CellView,
    DeleteRows,
    First,
    Nothing,
}

/// The letter a shifted one is.
pub open spec fn unshifted(c: char) -> char {
    if 'A' <= c <= 'Z' {
        (c as u8 + 32) as u8 as char
    } else {
        c
    }
}

/// What a second key means behind a prefix. It is read whatever its case: the
/// width commands take shifted keys, and the shift goes down before the prefix
/// does.
pub open spec fn prefixed_key(prefix: char, key: Key) -> Prefixed {
    match key {
        Key::Char(c) => {
            let c = unshifted(c);
            if prefix == 'z' {
                if c == 'z' {
                    Prefixed::Center
                } else if c == 't' {
                    Prefixed::CursorTop
                } else if c == 'b' {
                    Prefixed::CursorBottom
                } else if c == '>' {
                    Prefixed::Wider
                } else if c == '<' {
                    Prefixed::Narrower
                } else if c == '_' {
                    Prefixed::Fit
                } else if c == 'p' {
                    Prefixed::Pin
                } else if c == '|' {
                    Prefixed::UnpinAll
                } else if c == '=' {
                    Prefixed::ResetWidths
                } else if c == 'k' {
                    Prefixed::CellView
                } else {
                    Prefixed::Nothing
                }
            } else if prefix == 'd' && c == 'd' {
                Prefixed::DeleteRows
            } else if prefix == 'g' && c == 'g' {
                Prefixed::First
            } else {
                Prefixed::Nothing
            }
        },
        _ => Prefixed::Nothing,
    }
}

/// What a second key means behind a prefix.
pub fn bind_prefixed(prefix: char, key: Key) -> (b: Prefixed)
    ensures
        b == prefixed_key(prefix, key),
{
    match key {
        Key::Char(c) => {
            let c: char = if 'A' <= c && c <= 'Z' {
                (c as u8 + 32) as char
            } else {
                c
            };
            match (prefix, c) {
                ('z', 'z') => Prefixed::Center,
                ('z', 't') => Prefixed::CursorTop,
                ('z', 'b') => Prefixed::CursorBottom,
                ('z', '>') => Prefixed::Wider,
                ('z', '<') => Prefixed::Narrower,
                ('z', '_') => Prefixed::Fit,
                ('z', 'p') => Prefixed::Pin,
                ('z', '|') => Prefixed::UnpinAll,
                ('z', '=') => Prefixed::ResetWidths,
                ('z', 'k') => Prefixed::CellView,
                ('d', 'd') => Prefixed::DeleteRows,
                ('g', 'g') => Prefixed::First,
                _ => Prefixed::Nothing,
            }
        },
        _ => Prefixed::Nothing,
    }
}

} // verus!
