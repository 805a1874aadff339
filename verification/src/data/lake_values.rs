//! Values that a lake's database hands out, made into columns.
use vstd::prelude::*;
use crate::data::jsonl::{maybe_text, ColumnType};
use crate::text;
use crate::text::{decimal_text, signed_text};

verus! {

/// One value of a database. Next to a number stands how the database itself
/// would print it.
#[derive(Debug)]
pub enum Datum {
    Null,
    Bool(bool),
    Int { value: i64, printed: String },
    Unsigned { value: u64, printed: String },
    /// A number that need not be whole, as text.
    Real { value: String, printed: String },
    Text(String),
    /// Bytes, of which only their number is shown.
    Blob(usize),
    Other(String),
}

/// A column of values of one type.
#[derive(Debug)]
pub enum Series {
    Bools(Vec<Option<bool>>),
    Ints(Vec<Option<i64>>),
    Reals(Vec<Option<String>>),
    Texts(Vec<Option<String>>),
}

impl Datum {
    pub open spec fn as_bool(self) -> Option<bool> {
        match self {
            Datum::Bool(b) => Some(b),
            _ => None,
        }
    }

    /// A whole number, where it fits.
    pub open spec fn as_int(self) -> Option<i64> {
        match self {
            Datum::Int { value, .. } => Some(value),
            Datum::Unsigned { value, .. } => if value <= i64::MAX {
                Some(value as i64)
            } else {
                None
            },
            _ => None,
        }
    }

    pub open spec fn as_real(self) -> Option<Seq<char>> {
        match self {
            Datum::Real { value, .. } => Some(value@),
            _ => match self.as_int() {
                Some(n) => Some(signed_text(n as int)),
                None => None,
            },
        }
    }

    pub open spec fn as_text(self) -> Option<Seq<char>> {
        match self {
            Datum::Null => None,
            Datum::Text(t) => Some(t@),
            Datum::Bool(b) => Some(if b { "true"@ } else { "false"@ }),
            Datum::Blob(n) => Some("<"@ + decimal_text(n as nat) + " bytes>"@),
            Datum::Int { printed, .. } => Some(printed@),
            Datum::Unsigned { printed, .. } => Some(printed@),
            Datum::Real { printed, .. } => Some(printed@),
            Datum::Other(printed) => Some(printed@),
        }
    }

    /// The type of a column that begins with this value.
    pub open spec fn kind(self) -> ColumnType {
        match self {
            Datum::Bool(_) => ColumnType::Bool,
            Datum::Int { .. } => ColumnType::Int,
            Datum::Unsigned { .. } => ColumnType::Int,
            Datum::Real { .. } => ColumnType::Float,
            _ => ColumnType::Text,
        }
    }

    fn read_bool(&self) -> (b: Option<bool>)
        ensures
            b == self.as_bool(),
    {
        match self {
            Datum::Bool(b) => Some(*b),
            _ => None,
        }
    }

    fn read_int(&self) -> (n: Option<i64>)
        ensures
            n == self.as_int(),
    {
        match self {
            Datum::Int { value, .. } => Some(*value),
            Datum::Unsigned { value, .. } => if *value <= i64::MAX as u64 {
                Some(*value as i64)
            } else {
                None
            },
            _ => None,
        }
    }

    fn read_real(&self) -> (t: Option<String>)
        ensures
            maybe_text(t) == self.as_real(),
    {
        match self {
            Datum::Real { value, .. } => Some(value.clone()),
            _ => match self.read_int() {
                Some(n) => Some(text::signed(n)),
                None => None,
            },
        }
    }

    fn read_text(&self) -> (t: Option<String>)
        ensures
            maybe_text(t) == self.as_text(),
    {
        match self {
            Datum::Null => None,
            Datum::Text(t) => Some(t.clone()),
            Datum::Bool(b) => Some(if *b { "true".to_owned() } else { "false".to_owned() }),
            Datum::Blob(n) => {
                let mut out = text::joined("<", text::decimal(*n).as_str());
                text::push_str(&mut out, " bytes>");
                Some(out)
            },
            Datum::Int { printed, .. } => Some(printed.clone()),
            Datum::Unsigned { printed, .. } => Some(printed.clone()),
            Datum::Real { printed, .. } => Some(printed.clone()),
            Datum::Other(printed) => Some(printed.clone()),
        }
    }
}

/// The type of a column: that of its first value that is one.
pub open spec fn column_kind(values: Seq<Datum>) -> ColumnType
    decreases values.len(),
{
    if values.len() == 0 {
        ColumnType::Text
    } else if values[0] is Null {
        column_kind(values.skip(1))
    } else {
        values[0].kind()
    }
}

fn kind_of(values: &Vec<Datum>) -> (kind: ColumnType)
    ensures
        kind == column_kind(values@),
{
    let mut i: usize = 0;
    assert(values@.skip(0) =~= values@);
    while i < values.len()
        invariant
            i <= values@.len(),
            column_kind(values@.skip(i as int)) == column_kind(values@),
        decreases values@.len() - i,
    {
        assert(values@.skip(i as int).skip(1) =~= values@.skip(i + 1));
        match &values[i] {
            Datum::Null => {},
            Datum::Bool(_) => {
                return ColumnType::Bool;
            },
            Datum::Int { .. } => {
                return ColumnType::Int;
            },
            Datum::Unsigned { .. } => {
                return ColumnType::Int;
            },
            Datum::Real { .. } => {
                return ColumnType::Float;
            },
            _ => {
                return ColumnType::Text;
            },
        }
        i += 1;
    }
    ColumnType::Text
}

/// A column holds these values, as the type it has takes them. One that the type
/// does not take is missing.
pub open spec fn holds(column: Series, values: Seq<Datum>) -> bool {
    match column {
        Series::Bools(cells) => column_kind(values) == ColumnType::Bool && cells@.len() == values.len()
            && forall|i: int| 0 <= i < values.len() ==> #[trigger] cells@[i] == values[i].as_bool(),
        Series::Ints(cells) => column_kind(values) == ColumnType::Int && cells@.len() == values.len()
            && forall|i: int| 0 <= i < values.len() ==> #[trigger] cells@[i] == values[i].as_int(),
        Series::Reals(cells) => column_kind(values) == ColumnType::Float && cells@.len() == values.len()
            && forall|i: int|
            0 <= i < values.len() ==> maybe_text(#[trigger] cells@[i]) == values[i].as_real(),
        Series::Texts(cells) => column_kind(values) == ColumnType::Text && cells@.len() == values.len()
            && forall|i: int|
            0 <= i < values.len() ==> maybe_text(#[trigger] cells@[i]) == values[i].as_text(),
    }
}

/// A column of a database's values.
///
/// Numbers and booleans keep their type, so the table shows them as such;
/// everything else is shown as text, which is what a viewer displays anyway.
pub fn series_from_values(values: &Vec<Datum>) -> (column: Series)
    ensures
        holds(column, values@),
{
    match kind_of(values) {
        ColumnType::Bool => {
            let mut cells: Vec<Option<bool>> = Vec::new();
            let mut i: usize = 0;
            while i < values.len()
                invariant
                    i <= values@.len(),
                    cells@.len() == i,
                    forall|k: int| 0 <= k < i ==> #[trigger] cells@[k] == values@[k].as_bool(),
                decreases values@.len() - i,
            {
                cells.push(values[i].read_bool());
                i += 1;
            }
            Series::Bools(cells)
        },
        ColumnType::Int => {
            let mut cells: Vec<Option<i64>> = Vec::new();
            let mut i: usize = 0;
            while i < values.len()
                invariant
                    i <= values@.len(),
                    cells@.len() == i,
                    forall|k: int| 0 <= k < i ==> #[trigger] cells@[k] == values@[k].as_int(),
                decreases values@.len() - i,
            {
                cells.push(values[i].read_int());
                i += 1;
            }
            Series::Ints(cells)
        },
        ColumnType::Float => {
            let mut cells: Vec<Option<String>> = Vec::new();
            let mut i: usize = 0;
            while i < values.len()
                invariant
                    i <= values@.len(),
                    cells@.len() == i,
                    forall|k: int| 0 <= k < i ==> maybe_text(#[trigger] cells@[k]) == values@[k].as_real(),
                decreases values@.len() - i,
            {
                cells.push(values[i].read_real());
                i += 1;
            }
            Series::Reals(cells)
        },
        ColumnType::Text => {
            let mut cells: Vec<Option<String>> = Vec::new();
            let mut i: usize = 0;
            while i < values.len()
                invariant
                    i <= values@.len(),
                    cells@.len() == i,
                    forall|k: int| 0 <= k < i ==> maybe_text(#[trigger] cells@[k]) == values@[k].as_text(),
                decreases values@.len() - i,
            {
                cells.push(values[i].read_text());
                i += 1;
            }
            Series::Texts(cells)
        },
    }
}

/// Why a catalog could not be attached. One that another process holds open for
/// writing is the common case while a lake is being built, so it is said in so
/// many words.
pub open spec fn attach_text(path: Seq<char>, error: Seq<char>) -> Seq<char> {
    if text::occurs("Conflicting lock"@, error) {
        path + " is locked by another process that has it open for writing"@
    } else {
        "attaching DuckLake catalog "@ + path + ": "@ + error
    }
}

pub fn attach_error(path: &str, error: &str) -> (out: String)
    ensures
        out@ == attach_text(path@, error@),
{
    if text::contains(error, "Conflicting lock") {
        text::joined(path, " is locked by another process that has it open for writing")
    } else {
        let mut out = text::joined("attaching DuckLake catalog ", path);
        text::push_str(&mut out, ": ");
        text::push_str(&mut out, error);
        out
    }
}

/// A path that ends in a slash.
pub open spec fn as_directory(path: Seq<char>) -> Seq<char> {
    if path.len() > 0 && path.last() == '/' {
        path
    } else {
        path.push('/')
    }
}

/// Where the data files of a lake that was moved are, or `None` if the recorded
/// place still stands: a directory beside the catalog with the recorded name if
/// there is one, then the catalog's own directory.
pub fn relocated(stands: bool, beside: Option<&str>, dir: &str) -> (root: Option<String>)
    ensures
        match root {
            Some(path) => !stands && path@ == as_directory(
                match beside {
                    Some(path) => path@,
                    None => dir@,
                },
            ),
            None => stands,
        },
{
    if stands {
        return None;
    }
    let path = match beside {
        Some(path) => path,
        None => dir,
    };
    let chars = text::chars(path);
    let mut out = path.to_owned();
    if chars.len() == 0 || chars[chars.len() - 1] != '/' {
        text::push(&mut out, '/');
    }
    Some(out)
}

} // verus!
