//! A view in words, for the status bar: the commands that would give it.
use vstd::prelude::*;
use crate::text;
use crate::text::{decimal_text, join_text, texts};
use crate::view::{Condition, Op, Shown, TableView, Value};

verus! {

/// How an operator is written.
pub open spec fn op_text(op: Op) -> Seq<char> {
    match op {
        Op::Eq => "="@,
        Op::Ne => "!="@,
        Op::Lt => "<"@,
        Op::Le => "<="@,
        Op::Gt => ">"@,
        Op::Ge => ">="@,
        Op::Matches => "~"@,
        Op::NotMatches => "!~"@,
    }
}

fn op_word(op: Op) -> (out: &'static str)
    ensures
        out@ == op_text(op),
{
    match op {
        Op::Eq => "=",
        Op::Ne => "!=",
        Op::Lt => "<",
        Op::Le => "<=",
        Op::Gt => ">",
        Op::Ge => ">=",
        Op::Matches => "~",
        Op::NotMatches => "!~",
    }
}

/// How a value is written. One that asks for nothing is a pair of quotes.
pub open spec fn value_text(value: Value) -> Seq<char> {
    match value {
        Value::Empty => "\"\""@,
        Value::Pattern(text) | Value::Number(text) | Value::Text(text) => text@,
        Value::Bool(b) => if b {
            "true"@
        } else {
            "false"@
        },
    }
}

fn value_word(value: &Value) -> (out: String)
    ensures
        out@ == value_text(*value),
{
    match value {
        Value::Empty => "\"\"".to_owned(),
        Value::Pattern(text) => text.clone(),
        Value::Number(text) => text.clone(),
        Value::Text(text) => text.clone(),
        Value::Bool(b) => if *b {
            "true".to_owned()
        } else {
            "false".to_owned()
        },
    }
}

/// What a column is called, or its number where there is none of that number.
pub open spec fn called(names: Seq<Seq<char>>, column: usize) -> Seq<char> {
    if column < names.len() {
        names[column as int]
    } else {
        decimal_text(column as nat)
    }
}

fn name_of(names: &[String], column: usize) -> (out: String)
    ensures
        out@ == called(texts(names@), column),
{
    if column < names.len() {
        names[column].clone()
    } else {
        text::decimal(column)
    }
}

/// The columns on show, as the command that chose them names them.
pub open spec fn select_text(names: Seq<Seq<char>>, columns: Seq<usize>) -> Seq<char> {
    "select "@ + join_text(columns.map_values(|c: usize| called(names, c)), " "@)
}

pub open spec fn condition_text(names: Seq<Seq<char>>, c: Condition) -> Seq<char> {
    called(names, c.column) + " "@ + op_text(c.op) + " "@ + value_text(c.value)
}

/// The conditions, as the command that set them lists them.
pub open spec fn filter_text(names: Seq<Seq<char>>, conditions: Seq<Condition>) -> Seq<char> {
    "filter "@ + join_text(conditions.map_values(|c: Condition| condition_text(names, c)), " and "@)
}

/// A sort key, a dash behind one that descends.
pub open spec fn key_word(names: Seq<Seq<char>>, key: (usize, bool)) -> Seq<char> {
    if key.1 {
        called(names, key.0)
    } else {
        called(names, key.0) + "-"@
    }
}

pub open spec fn sort_text(names: Seq<Seq<char>>, keys: Seq<(usize, bool)>) -> Seq<char> {
    "sort "@ + join_text(keys.map_values(|key: (usize, bool)| key_word(names, key)), " "@)
}

impl Shown {
    /// What shapes the view, one word for each of its parts that is set.
    pub open spec fn parts(self, names: Seq<Seq<char>>) -> Seq<Seq<char>> {
        (match self.select {
            Some(columns) => seq![select_text(names, columns)],
            None => Seq::empty(),
        }) + (match self.filter {
            Some(filter) => seq![filter_text(names, filter.conditions@)],
            None => Seq::empty(),
        }) + (if self.sort.len() > 0 {
            seq![sort_text(names, self.sort)]
        } else {
            Seq::empty()
        })
    }

    /// The view in words, or nothing where the table is as the file has it.
    pub open spec fn described(self, names: Seq<Seq<char>>) -> Option<Seq<char>> {
        if self.parts(names).len() == 0 {
            None
        } else {
            Some(join_text(self.parts(names), "  "@))
        }
    }
}

fn select_words(names: &[String], columns: &Vec<usize>) -> (out: String)
    ensures
        out@ == select_text(texts(names@), columns@),
{
    let mut words: Vec<String> = Vec::new();
    let ghost all = columns@.map_values(|c: usize| called(texts(names@), c));
    let mut i: usize = 0;
    while i < columns.len()
        invariant
            i <= columns.len(),
            all == columns@.map_values(|c: usize| called(texts(names@), c)),
            words@.len() == i,
            forall|k: int| 0 <= k < i ==> (#[trigger] words@[k])@ == all[k],
        decreases columns.len() - i,
    {
        words.push(name_of(names, columns[i]));
        i += 1;
    }
    assert(texts(words@) =~= all);
    text::joined("select ", text::join(&words, " ").as_str())
}

fn condition_words(names: &[String], c: &Condition) -> (out: String)
    ensures
        out@ == condition_text(texts(names@), *c),
{
    let mut out = name_of(names, c.column);
    text::push_str(&mut out, " ");
    text::push_str(&mut out, op_word(c.op));
    text::push_str(&mut out, " ");
    text::push_str(&mut out, value_word(&c.value).as_str());
    out
}

fn filter_words(names: &[String], conditions: &Vec<Condition>) -> (out: String)
    ensures
        out@ == filter_text(texts(names@), conditions@),
{
    let mut words: Vec<String> = Vec::new();
    let ghost all = conditions@.map_values(|c: Condition| condition_text(texts(names@), c));
    let mut i: usize = 0;
    while i < conditions.len()
        invariant
            i <= conditions.len(),
            all == conditions@.map_values(|c: Condition| condition_text(texts(names@), c)),
            words@.len() == i,
            forall|k: int| 0 <= k < i ==> (#[trigger] words@[k])@ == all[k],
        decreases conditions.len() - i,
    {
        words.push(condition_words(names, &conditions[i]));
        i += 1;
    }
    assert(texts(words@) =~= all);
    text::joined("filter ", text::join(&words, " and ").as_str())
}

fn sort_words(names: &[String], keys: &Vec<(usize, bool)>) -> (out: String)
    ensures
        out@ == sort_text(texts(names@), keys@),
{
    let mut words: Vec<String> = Vec::new();
    let ghost all = keys@.map_values(|key: (usize, bool)| key_word(texts(names@), key));
    let mut i: usize = 0;
    while i < keys.len()
        invariant
            i <= keys.len(),
            all == keys@.map_values(|key: (usize, bool)| key_word(texts(names@), key)),
            words@.len() == i,
            forall|k: int| 0 <= k < i ==> (#[trigger] words@[k])@ == all[k],
        decreases keys.len() - i,
    {
        let (column, ascends): (usize, bool) = keys[i];
        let mut word = name_of(names, column);
        if !ascends {
            text::push_str(&mut word, "-");
        }
        words.push(word);
        i += 1;
    }
    assert(texts(words@) =~= all);
    text::joined("sort ", text::join(&words, " ").as_str())
}

impl TableView {
    /// The view in words, or `None` where the table is as the file has it.
    pub fn describe(&self, names: &[String]) -> (out: Option<String>)
        ensures
            match out {
                Some(text) => self.shows().described(texts(names@)) == Some(text@),
                None => self.shows().described(texts(names@)) is None,
            },
    {
        let mut parts: Vec<String> = Vec::new();
        if let Some(columns) = &self.select {
            parts.push(select_words(names, columns));
        }
        if let Some(filter) = &self.filter {
            parts.push(filter_words(names, &filter.conditions));
        }
        if self.sort.len() > 0 {
            parts.push(sort_words(names, &self.sort));
        }
        assert(texts(parts@) =~= self.shows().parts(texts(names@)));
        if parts.len() == 0 {
            None
        } else {
            Some(text::join(&parts, "  "))
        }
    }
}

/// A view is described just where something shapes it.
pub proof fn only_a_shaped_view_is_described(view: Shown, names: Seq<Seq<char>>)
    ensures
        view.described(names) is None <==> view.select is None && view.filter is None && view.sort.len()
            == 0,
{
}

} // verus!
