//! The view language: one line, read against the columns of a file.
use vstd::prelude::*;
use crate::app::values::{fits, is_number, kind_name, reads_as_float, type_label};
use crate::complete::{quoted_text, view_verbs};
use crate::data::jsonl::ColumnType;
use crate::data::store::name_at;
use crate::search;
use crate::search::regex_accepts;
use crate::text;
use crate::text::{is_space, space, texts};
use crate::view::{Command, Condition, Filter, Op, Slot, Value};

verus! {

/// A word of a line.
#[derive(Debug)]
pub struct Word {
    pub text: String,
    /// Its last character stood outside quotes.
    pub bare: bool,
}

#[verifier::ext_equal]
pub struct Token {
    pub text: Seq<char>,
    pub bare: bool,
}

/// How far a line has been read.
#[verifier::ext_equal]
pub struct Lexed {
    pub words: Seq<Token>,
    /// The word being read.
    pub word: Option<Token>,
    /// Between quotes, where white space is part of the word.
    pub quoted: bool,
}

impl Lexed {
    pub open spec fn text(self) -> Seq<char> {
        match self.word {
            Some(word) => word.text,
            None => Seq::empty(),
        }
    }

    pub open spec fn step(self, c: char) -> Lexed {
        if c == '"' {
            Lexed {
                word: Some(Token { text: self.text(), bare: false }),
                quoted: !self.quoted,
                ..self
            }
        } else if self.quoted || !is_space(c) {
            Lexed { word: Some(Token { text: self.text().push(c), bare: !self.quoted }), ..self }
        } else {
            match self.word {
                Some(word) => Lexed { words: self.words.push(word), word: None, ..self },
                None => self,
            }
        }
    }

    pub open spec fn all(self) -> Seq<Token> {
        match self.word {
            Some(word) => self.words.push(word),
            None => self.words,
        }
    }
}

/// A line read to its end.
pub open spec fn lexed(line: Seq<char>) -> Lexed
    decreases line.len(),
{
    if line.len() == 0 {
        Lexed { words: Seq::empty(), word: None, quoted: false }
    } else {
        lexed(line.drop_last()).step(line.last())
    }
}

pub open spec fn tokens(words: Seq<Word>) -> Seq<Token> {
    words.map_values(|w: Word| Token { text: w.text@, bare: w.bare })
}

/// What a condition compares with, as characters.
pub enum Literal {
    Empty,
    Pattern(Seq<char>),
    Number(Seq<char>),
    Bool(bool),
    Text(Seq<char>),
}

pub struct Sought {
    pub column: usize,
    pub op: Op,
    pub value: Literal,
}

/// What a command asks for.
#[verifier::ext_equal]
pub enum Meaning {
    Select(Seq<usize>),
    Hide(Seq<usize>),
    Filter(Seq<Sought>),
    Sort(Seq<(usize, bool)>),
    Reset(Option<Slot>),
}

pub open spec fn literal(value: Value) -> Literal {
    match value {
        Value::Empty => Literal::Empty,
        Value::Pattern(p) => Literal::Pattern(p@),
        Value::Number(n) => Literal::Number(n@),
        Value::Bool(b) => Literal::Bool(b),
        Value::Text(t) => Literal::Text(t@),
    }
}

pub open spec fn sought(conditions: Seq<Condition>) -> Seq<Sought> {
    conditions.map_values(
        |c: Condition| Sought { column: c.column, op: c.op, value: literal(c.value) },
    )
}

pub open spec fn meaning(command: Command) -> Meaning {
    match command {
        Command::Select(columns) => Meaning::Select(columns@),
        Command::Hide(columns) => Meaning::Hide(columns@),
        Command::Filter(filter) => Meaning::Filter(sought(filter.conditions@)),
        Command::Sort(keys) => Meaning::Sort(keys@),
        Command::Reset(slot) => Meaning::Reset(slot),
    }
}

/// A column by its name.
pub open spec fn column_called(name: Seq<char>, names: Seq<Seq<char>>) -> Result<usize, Seq<char>> {
    match name_at(names, name, 0) {
        Some(at) => Ok(at as usize),
        None => Err("no column called "@ + name),
    }
}

/// The columns that words name, in their order.
pub open spec fn columns_called(words: Seq<Token>, names: Seq<Seq<char>>) -> Result<Seq<usize>, Seq<char>>
    decreases words.len(),
{
    if words.len() == 0 {
        Ok(Seq::empty())
    } else {
        match columns_called(words.drop_last(), names) {
            Err(why) => Err(why),
            Ok(before) => match column_called(words.last().text, names) {
                Err(why) => Err(why),
                Ok(column) => Ok(before.push(column)),
            },
        }
    }
}

/// A word ends in a dash that no quote holds.
pub open spec fn descends(word: Token) -> bool {
    word.bare && word.text.len() > 0 && word.text.last() == '-'
}

/// A sort key: a column, ascending unless a dash is behind its name.
pub open spec fn key_called(word: Token, names: Seq<Seq<char>>) -> Result<(usize, bool), Seq<char>> {
    let name = if descends(word) { word.text.drop_last() } else { word.text };
    match column_called(name, names) {
        Err(why) => Err(why),
        Ok(column) => Ok((column, !descends(word))),
    }
}

pub open spec fn keys_called(words: Seq<Token>, names: Seq<Seq<char>>) -> Result<
    Seq<(usize, bool)>,
    Seq<char>,
>
    decreases words.len(),
{
    if words.len() == 0 {
        Ok(Seq::empty())
    } else {
        match keys_called(words.drop_last(), names) {
            Err(why) => Err(why),
            Ok(before) => match key_called(words.last(), names) {
                Err(why) => Err(why),
                Ok(key) => Ok(before.push(key)),
            },
        }
    }
}

pub open spec fn operator(text: Seq<char>) -> Option<Op> {
    if text == "="@ {
        Some(Op::Eq)
    } else if text == "!="@ {
        Some(Op::Ne)
    } else if text == "<"@ {
        Some(Op::Lt)
    } else if text == "<="@ {
        Some(Op::Le)
    } else if text == ">"@ {
        Some(Op::Gt)
    } else if text == ">="@ {
        Some(Op::Ge)
    } else if text == "~"@ {
        Some(Op::Matches)
    } else if text == "!~"@ {
        Some(Op::NotMatches)
    } else {
        None
    }
}

/// Why a value cannot be compared with a column.
pub open spec fn unfit(name: Seq<char>, kind: ColumnType, value: Seq<char>) -> Seq<char> {
    name + " is "@ + kind_name(kind) + ", and "@ + value + " is not"@
}

/// What a value means next to an operator and a column: a pattern, nothing at
/// all, or a value of the column's type.
pub open spec fn value_meant(op: Op, name: Seq<char>, kind: ColumnType, value: Seq<char>) -> Result<
    Literal,
    Seq<char>,
> {
    if value.len() == 0 {
        Ok(Literal::Empty)
    } else if op == Op::Matches || op == Op::NotMatches {
        if regex_accepts(value) {
            Ok(Literal::Pattern(value))
        } else {
            Err("not a regular expression: "@ + value)
        }
    } else {
        match kind {
            ColumnType::Int | ColumnType::Float => if reads_as_float(value) {
                Ok(Literal::Number(value))
            } else {
                Err(unfit(name, kind, value))
            },
            ColumnType::Bool => if fits(kind, value) {
                Ok(Literal::Bool(value == "true"@))
            } else {
                Err(unfit(name, kind, value))
            },
            ColumnType::Text => Ok(Literal::Text(value)),
        }
    }
}

/// The columns of a file: their names and types.
#[verifier::ext_equal]
pub struct Known {
    pub names: Seq<Seq<char>>,
    pub types: Seq<ColumnType>,
}

/// One condition: a column, an operator and a value.
pub open spec fn condition(column: Token, op: Token, value: Token, known: Known) -> Result<
    Sought,
    Seq<char>,
> {
    match column_called(column.text, known.names) {
        Err(why) => Err(why),
        Ok(c) => match operator(op.text) {
            None => Err("not an operator: "@ + op.text),
            Some(o) => match value_meant(o, known.names[c as int], known.types[c as int], value.text) {
                Err(why) => Err(why),
                Ok(v) => Ok(Sought { column: c, op: o, value: v }),
            },
        },
    }
}

/// Conditions from a word on, with an `and` between them.
pub open spec fn conditions(words: Seq<Token>, at: int, known: Known) -> Result<Seq<Sought>, Seq<char>>
    decreases words.len() - at,
{
    if at + 3 > words.len() {
        Err("a filter wants a column, an operator and a value"@)
    } else {
        match condition(words[at], words[at + 1], words[at + 2], known) {
            Err(why) => Err(why),
            Ok(first) => if at + 3 == words.len() {
                Ok(seq![first])
            } else if words[at + 3].text != "and"@ {
                Err("conditions join with and"@)
            } else {
                match conditions(words, at + 4, known) {
                    Err(why) => Err(why),
                    Ok(rest) => Ok(seq![first] + rest),
                }
            },
        }
    }
}

/// What words ask for. A verb on its own puts its slot back.
pub open spec fn asked_for(words: Seq<Token>, known: Known) -> Result<Meaning, Seq<char>> {
    let verb = words[0].text;
    let rest = words.skip(1);
    if words.len() == 0 {
        Err("not a command: :"@)
    } else if verb == "select"@ {
        if rest.len() == 0 || (rest.len() == 1 && rest[0].bare && rest[0].text == "*"@) {
            Ok(Meaning::Reset(Some(Slot::Select)))
        } else {
            match columns_called(rest, known.names) {
                Ok(columns) => Ok(Meaning::Select(columns)),
                Err(why) => Err(why),
            }
        }
    } else if verb == "hide"@ {
        if rest.len() == 0 {
            Ok(Meaning::Reset(Some(Slot::Select)))
        } else {
            match columns_called(rest, known.names) {
                Ok(columns) => Ok(Meaning::Hide(columns)),
                Err(why) => Err(why),
            }
        }
    } else if verb == "filter"@ {
        if rest.len() == 0 {
            Ok(Meaning::Reset(Some(Slot::Filter)))
        } else {
            match conditions(words, 1, known) {
                Ok(all) => Ok(Meaning::Filter(all)),
                Err(why) => Err(why),
            }
        }
    } else if verb == "sort"@ {
        match keys_called(rest, known.names) {
            Ok(keys) => Ok(Meaning::Sort(keys)),
            Err(why) => Err(why),
        }
    } else if verb == "reset"@ {
        if rest.len() == 0 {
            Ok(Meaning::Reset(None))
        } else if rest[0].text == "select"@ {
            Ok(Meaning::Reset(Some(Slot::Select)))
        } else if rest[0].text == "filter"@ {
            Ok(Meaning::Reset(Some(Slot::Filter)))
        } else if rest[0].text == "sort"@ {
            Ok(Meaning::Reset(Some(Slot::Sort)))
        } else {
            Err("nothing to reset called "@ + rest[0].text)
        }
    } else {
        Err("not a command: :"@ + verb)
    }
}

/// What a line asks for.
pub open spec fn parsed(line: Seq<char>, known: Known) -> Result<Meaning, Seq<char>> {
    if lexed(line).quoted {
        Err("a quote is left open"@)
    } else {
        asked_for(lexed(line).all(), known)
    }
}

/// The words of a line, or nothing where a quote is left open.
fn split_words(line: &str) -> (out: Option<Vec<Word>>)
    ensures
        match out {
            Some(words) => !lexed(line@).quoted && tokens(words@) == lexed(line@).all(),
            None => lexed(line@).quoted,
        },
{
    let chars = text::chars(line);
    let mut words: Vec<Word> = Vec::new();
    let mut word: Option<Word> = None;
    let mut quoted = false;
    let mut i: usize = 0;
    assert(line@.take(0) =~= Seq::empty());
    assert(tokens(words@) =~= Seq::empty());
    while i < chars.len()
        invariant
            i <= chars.len(),
            chars@ == line@,
            lexed(line@.take(i as int)) == (Lexed {
                words: tokens(words@),
                word: match word {
                    Some(w) => Some(Token { text: w.text@, bare: w.bare }),
                    None => None,
                },
                quoted,
            }),
        decreases chars.len() - i,
    {
        assert(line@.take(i + 1).drop_last() =~= line@.take(i as int));
        let c = chars[i];
        if c == '"' {
            let held = match word {
                Some(w) => w.text,
                None => String::new(),
            };
            assert(held@ =~= lexed(line@.take(i as int)).text());
            word = Some(Word { text: held, bare: false });
            quoted = !quoted;
        } else if quoted || !space(c) {
            let mut held = match word {
                Some(w) => w.text,
                None => String::new(),
            };
            assert(held@ =~= lexed(line@.take(i as int)).text());
            text::push(&mut held, c);
            word = Some(Word { text: held, bare: !quoted });
        } else {
            match word {
                Some(w) => {
                    let ghost before = words@;
                    words.push(w);
                    assert(tokens(words@) =~= tokens(before).push(Token { text: w.text@, bare: w.bare }));
                },
                None => {},
            }
            word = None;
        }
        i += 1;
    }
    assert(line@.take(i as int) =~= line@);
    if quoted {
        return None;
    }
    match word {
        Some(w) => {
            let ghost before = words@;
            words.push(w);
            assert(tokens(words@) =~= tokens(before).push(Token { text: w.text@, bare: w.bare }));
        },
        None => {},
    }
    Some(words)
}

fn find_column(name: &str, names: &[String]) -> (column: Result<usize, String>)
    ensures
        match column {
            Ok(c) => column_called(name@, texts(names@)) == Ok::<usize, Seq<char>>(c) && c < names@.len(),
            Err(why) => column_called(name@, texts(names@)) == Err::<usize, Seq<char>>(why@),
        },
{
    let ghost all = texts(names@);
    let mut i: usize = 0;
    while i < names.len()
        invariant
            i <= names@.len(),
            all == texts(names@),
            name_at(all, name@, 0) == name_at(all, name@, i as int),
        decreases names@.len() - i,
    {
        if text::same(names[i].as_str(), name) {
            return Ok(i);
        }
        i += 1;
    }
    Err(text::joined("no column called ", name))
}

fn find_columns(words: &Vec<Word>, names: &[String]) -> (columns: Result<Vec<usize>, String>)
    requires
        words@.len() > 0,
    ensures
        match columns {
            Ok(found) => columns_called(tokens(words@).skip(1), texts(names@)) == Ok::<
                Seq<usize>,
                Seq<char>,
            >(found@),
            Err(why) => columns_called(tokens(words@).skip(1), texts(names@)) == Err::<
                Seq<usize>,
                Seq<char>,
            >(why@),
        },
{
    let ghost rest = tokens(words@).skip(1);
    let ghost all = texts(names@);
    let mut found: Vec<usize> = Vec::new();
    let mut i: usize = 1;
    assert(rest.take(0) =~= Seq::empty());
    while i < words.len()
        invariant
            1 <= i <= words@.len(),
            rest == tokens(words@).skip(1),
            all == texts(names@),
            columns_called(rest.take(i - 1), all) == Ok::<Seq<usize>, Seq<char>>(found@),
        decreases words@.len() - i,
    {
        assert(rest.take(i as int).drop_last() =~= rest.take(i - 1));
        assert(rest.take(i as int).last().text == words@[i as int].text@);
        match find_column(words[i].text.as_str(), names) {
            Ok(c) => {
                found.push(c);
            },
            Err(why) => {
                proof {
                    lemma_columns_fail(rest, i as int, all);
                }
                return Err(why);
            },
        }
        i += 1;
    }
    assert(rest.take(i - 1) =~= rest);
    Ok(found)
}

proof fn lemma_columns_fail(words: Seq<Token>, k: int, names: Seq<Seq<char>>)
    requires
        0 <= k <= words.len(),
        columns_called(words.take(k), names) is Err,
    ensures
        columns_called(words, names) == columns_called(words.take(k), names),
    decreases words.len() - k,
{
    if k < words.len() {
        assert(words.take(k + 1).drop_last() =~= words.take(k));
        lemma_columns_fail(words, k + 1, names);
    } else {
        assert(words.take(k) =~= words);
    }
}

proof fn lemma_keys_fail(words: Seq<Token>, k: int, names: Seq<Seq<char>>)
    requires
        0 <= k <= words.len(),
        keys_called(words.take(k), names) is Err,
    ensures
        keys_called(words, names) == keys_called(words.take(k), names),
    decreases words.len() - k,
{
    if k < words.len() {
        assert(words.take(k + 1).drop_last() =~= words.take(k));
        lemma_keys_fail(words, k + 1, names);
    } else {
        assert(words.take(k) =~= words);
    }
}

fn find_key(word: &Word, names: &[String]) -> (key: Result<(usize, bool), String>)
    ensures
        ({
            let token = Token { text: word.text@, bare: word.bare };
            match key {
                Ok(k) => key_called(token, texts(names@)) == Ok::<(usize, bool), Seq<char>>(k),
                Err(why) => key_called(token, texts(names@)) == Err::<(usize, bool), Seq<char>>(why@),
            }
        }),
{
    let chars = text::chars(word.text.as_str());
    let n = chars.len();
    if word.bare && n > 0 && chars[n - 1] == '-' {
        match text::shortened(word.text.as_str()) {
            Some(name) => match find_column(name.as_str(), names) {
                Ok(c) => Ok((c, false)),
                Err(why) => Err(why),
            },
            None => Err(String::new()),
        }
    } else {
        match find_column(word.text.as_str(), names) {
            Ok(c) => Ok((c, true)),
            Err(why) => Err(why),
        }
    }
}

fn find_keys(words: &Vec<Word>, names: &[String]) -> (keys: Result<Vec<(usize, bool)>, String>)
    requires
        words@.len() > 0,
    ensures
        match keys {
            Ok(found) => keys_called(tokens(words@).skip(1), texts(names@)) == Ok::<
                Seq<(usize, bool)>,
                Seq<char>,
            >(found@),
            Err(why) => keys_called(tokens(words@).skip(1), texts(names@)) == Err::<
                Seq<(usize, bool)>,
                Seq<char>,
            >(why@),
        },
{
    let ghost rest = tokens(words@).skip(1);
    let ghost all = texts(names@);
    let mut found: Vec<(usize, bool)> = Vec::new();
    let mut i: usize = 1;
    assert(rest.take(0) =~= Seq::empty());
    while i < words.len()
        invariant
            1 <= i <= words@.len(),
            rest == tokens(words@).skip(1),
            all == texts(names@),
            keys_called(rest.take(i - 1), all) == Ok::<Seq<(usize, bool)>, Seq<char>>(found@),
        decreases words@.len() - i,
    {
        assert(rest.take(i as int).drop_last() =~= rest.take(i - 1));
        assert(rest.take(i as int).last() == tokens(words@)[i as int]);
        match find_key(&words[i], names) {
            Ok(k) => {
                found.push(k);
            },
            Err(why) => {
                proof {
                    lemma_keys_fail(rest, i as int, all);
                }
                return Err(why);
            },
        }
        i += 1;
    }
    assert(rest.take(i - 1) =~= rest);
    Ok(found)
}

fn read_operator(text: &str) -> (op: Option<Op>)
    ensures
        op == operator(text@),
{
    if text::same(text, "=") {
        Some(Op::Eq)
    } else if text::same(text, "!=") {
        Some(Op::Ne)
    } else if text::same(text, "<") {
        Some(Op::Lt)
    } else if text::same(text, "<=") {
        Some(Op::Le)
    } else if text::same(text, ">") {
        Some(Op::Gt)
    } else if text::same(text, ">=") {
        Some(Op::Ge)
    } else if text::same(text, "~") {
        Some(Op::Matches)
    } else if text::same(text, "!~") {
        Some(Op::NotMatches)
    } else {
        None
    }
}

fn say_unfit(name: &str, kind: ColumnType, value: &str) -> (out: String)
    ensures
        out@ == unfit(name@, kind, value@),
{
    let mut out = text::joined(name, " is ");
    text::push_str(&mut out, type_label(kind));
    text::push_str(&mut out, ", and ");
    text::push_str(&mut out, value);
    text::push_str(&mut out, " is not");
    out
}

fn read_value(op: Op, name: &str, kind: ColumnType, value: &str) -> (out: Result<Value, String>)
    ensures
        match out {
            Ok(v) => value_meant(op, name@, kind, value@) == Ok::<Literal, Seq<char>>(literal(v)),
            Err(why) => value_meant(op, name@, kind, value@) == Err::<Literal, Seq<char>>(why@),
        },
{
    if value.is_empty() {
        return Ok(Value::Empty);
    }
    let pattern = match op {
        Op::Matches | Op::NotMatches => true,
        _ => false,
    };
    if pattern {
        return match search::compile(value) {
            Ok(_) => Ok(Value::Pattern(value.to_owned())),
            Err(_) => Err(text::joined("not a regular expression: ", value)),
        };
    }
    match kind {
        ColumnType::Int | ColumnType::Float => if is_number(value) {
            Ok(Value::Number(value.to_owned()))
        } else {
            Err(say_unfit(name, kind, value))
        },
        ColumnType::Bool => if text::same(value, "true") {
            Ok(Value::Bool(true))
        } else if text::same(value, "false") {
            Ok(Value::Bool(false))
        } else {
            Err(say_unfit(name, kind, value))
        },
        ColumnType::Text => Ok(Value::Text(value.to_owned())),
    }
}

pub open spec fn known(names: Seq<String>, types: Seq<ColumnType>) -> Known {
    Known { names: texts(names), types }
}

fn read_condition(words: &Vec<Word>, at: usize, names: &[String], types: &[ColumnType]) -> (out: Result<
    Condition,
    String,
>)
    requires
        at + 3 <= words@.len(),
        names@.len() == types@.len(),
    ensures
        ({
            let t = tokens(words@);
            let c = condition(t[at as int], t[at + 1], t[at + 2], known(names@, types@));
            match out {
                Ok(found) => c == Ok::<Sought, Seq<char>>(
                    Sought { column: found.column, op: found.op, value: literal(found.value) },
                ),
                Err(why) => c == Err::<Sought, Seq<char>>(why@),
            }
        }),
{
    let count = words.len();
    assert(at + 3 <= count);
    let column = match find_column(words[at].text.as_str(), names) {
        Ok(c) => c,
        Err(why) => {
            return Err(why);
        },
    };
    let op = match read_operator(words[at + 1].text.as_str()) {
        Some(op) => op,
        None => {
            return Err(text::joined("not an operator: ", words[at + 1].text.as_str()));
        },
    };
    match read_value(op, names[column].as_str(), types[column], words[at + 2].text.as_str()) {
        Ok(value) => Ok(Condition { column, op, value }),
        Err(why) => Err(why),
    }
}

fn read_conditions(words: &Vec<Word>, names: &[String], types: &[ColumnType]) -> (out: Result<
    Vec<Condition>,
    String,
>)
    requires
        names@.len() == types@.len(),
        words@.len() <= usize::MAX - 4,
    ensures
        ({
            let all = conditions(tokens(words@), 1, known(names@, types@));
            match out {
                Ok(found) => all == Ok::<Seq<Sought>, Seq<char>>(sought(found@)),
                Err(why) => all == Err::<Seq<Sought>, Seq<char>>(why@),
            }
        }),
{
    let ghost t = tokens(words@);
    let ghost k = known(names@, types@);
    let ghost whole = conditions(t, 1, k);
    let mut found: Vec<Condition> = Vec::new();
    let mut at: usize = 1;
    assert(sought(found@) =~= Seq::empty());
    proof {
        if whole is Ok {
            assert(sought(found@) + whole->Ok_0 =~= whole->Ok_0);
        }
    }
    loop
        invariant
            1 <= at <= words@.len() + 1,
            words@.len() <= usize::MAX - 4,
            names@.len() == types@.len(),
            t == tokens(words@),
            k == known(names@, types@),
            whole == conditions(t, 1, k),
            match conditions(t, at as int, k) {
                Ok(rest) => whole == Ok::<Seq<Sought>, Seq<char>>(sought(found@) + rest),
                Err(why) => whole == Err::<Seq<Sought>, Seq<char>>(why),
            },
        decreases words@.len() + 4 - at,
    {
        if at + 3 > words.len() {
            return Err("a filter wants a column, an operator and a value".to_owned());
        }
        let ghost before = found@;
        match read_condition(words, at, names, types) {
            Err(why) => {
                return Err(why);
            },
            Ok(c) => {
                let ghost first = Sought { column: c.column, op: c.op, value: literal(c.value) };
                found.push(c);
                assert(sought(found@) =~= sought(before) + seq![first]);
            },
        }
        if at + 3 == words.len() {
            return Ok(found);
        }
        if !text::same(words[at + 3].text.as_str(), "and") {
            return Err("conditions join with and".to_owned());
        }
        proof {
            let rest = conditions(t, at + 4, k);
            if rest is Ok {
                let first = sought(found@).last();
                assert(sought(before) + (seq![first] + rest->Ok_0) =~= sought(found@) + rest->Ok_0);
            }
        }
        at += 4;
    }
}

/// Read one line of the view language against the columns of a file.
pub fn parse(line: &str, names: &[String], types: &[ColumnType]) -> (out: Result<Command, String>)
    requires
        names@.len() == types@.len(),
        line@.len() <= usize::MAX - 5,
    ensures
        match out {
            Ok(command) => parsed(line@, known(names@, types@)) == Ok::<Meaning, Seq<char>>(
                meaning(command),
            ),
            Err(why) => parsed(line@, known(names@, types@)) == Err::<Meaning, Seq<char>>(why@),
        },
{
    let words = match split_words(line) {
        Some(words) => words,
        None => {
            return Err("a quote is left open".to_owned());
        },
    };
    proof {
        lemma_no_more_words(line@);
        assert(tokens(words@).len() == words@.len());
    }
    read_words(&words, names, types)
}

/// There are no more words than characters.
proof fn lemma_no_more_words(line: Seq<char>)
    ensures
        lexed(line).all().len() <= line.len(),
        lexed(line).words.len() + (if lexed(line).word is Some { 1int } else { 0 }) <= line.len(),
    decreases line.len(),
{
    if line.len() > 0 {
        lemma_no_more_words(line.drop_last());
    }
}

fn read_words(words: &Vec<Word>, names: &[String], types: &[ColumnType]) -> (out: Result<Command, String>)
    requires
        names@.len() == types@.len(),
        words@.len() <= usize::MAX - 4,
    ensures
        ({
            let all = asked_for(tokens(words@), known(names@, types@));
            match out {
                Ok(command) => all == Ok::<Meaning, Seq<char>>(meaning(command)),
                Err(why) => all == Err::<Meaning, Seq<char>>(why@),
            }
        }),
{
    if words.is_empty() {
        return Err("not a command: :".to_owned());
    }
    let verb = words[0].text.as_str();
    if text::same(verb, "select") {
        if words.len() == 1 || (words.len() == 2 && words[1].bare && text::same(
            words[1].text.as_str(),
            "*",
        )) {
            return Ok(Command::Reset(Some(Slot::Select)));
        }
        return match find_columns(words, names) {
            Ok(columns) => Ok(Command::Select(columns)),
            Err(why) => Err(why),
        };
    }
    if text::same(verb, "hide") {
        if words.len() == 1 {
            return Ok(Command::Reset(Some(Slot::Select)));
        }
        return match find_columns(words, names) {
            Ok(columns) => Ok(Command::Hide(columns)),
            Err(why) => Err(why),
        };
    }
    if text::same(verb, "filter") {
        if words.len() == 1 {
            return Ok(Command::Reset(Some(Slot::Filter)));
        }
        return match read_conditions(words, names, types) {
            Ok(conditions) => Ok(Command::Filter(Filter { conditions })),
            Err(why) => Err(why),
        };
    }
    if text::same(verb, "sort") {
        return match find_keys(words, names) {
            Ok(keys) => Ok(Command::Sort(keys)),
            Err(why) => Err(why),
        };
    }
    if text::same(verb, "reset") {
        if words.len() == 1 {
            return Ok(Command::Reset(None));
        }
        let slot = words[1].text.as_str();
        return if text::same(slot, "select") {
            Ok(Command::Reset(Some(Slot::Select)))
        } else if text::same(slot, "filter") {
            Ok(Command::Reset(Some(Slot::Filter)))
        } else if text::same(slot, "sort") {
            Ok(Command::Reset(Some(Slot::Sort)))
        } else {
            Err(text::joined("nothing to reset called ", slot))
        };
    }
    Err(text::joined("not a command: :", verb))
}

/// Every verb that completion offers is one that the language knows, and means
/// something on its own.
pub proof fn every_offered_verb_is_known(verb: int, known: Known)
    requires
        0 <= verb < view_verbs().len(),
    ensures
        asked_for(seq![Token { text: view_verbs()[verb], bare: true }], known) is Ok,
{
    let words = seq![Token { text: view_verbs()[verb], bare: true }];
    assert(words.skip(1) =~= Seq::empty());
}

proof fn lemma_inside_quotes(name: Seq<char>, k: int)
    requires
        0 <= k <= name.len(),
        !name.contains('"'),
    ensures
        lexed(seq!['"'] + name.take(k)) == (Lexed {
            words: Seq::empty(),
            word: Some(Token { text: name.take(k), bare: false }),
            quoted: true,
        }),
    decreases k,
{
    let line = seq!['"'] + name.take(k);
    if k == 0 {
        assert(line.drop_last() =~= Seq::empty());
        assert(line.last() == '"');
        assert(name.take(0) =~= Seq::empty());
        let start = Lexed { words: Seq::empty(), word: None, quoted: false };
        assert(lexed(line.drop_last()) == start);
        assert(start.text() =~= Seq::empty());
        assert(lexed(line) =~= (Lexed {
            words: Seq::empty(),
            word: Some(Token { text: name.take(k), bare: false }),
            quoted: true,
        }));
    } else {
        lemma_inside_quotes(name, k - 1);
        assert(line.drop_last() =~= seq!['"'] + name.take(k - 1));
        assert(line.last() == name[k - 1]);
        assert(name.contains(name[k - 1]));
        assert(name.take(k - 1).push(name[k - 1]) =~= name.take(k));
    }
}

proof fn lemma_plain_word(name: Seq<char>, k: int)
    requires
        0 < k <= name.len(),
        forall|i: int| 0 <= i < name.len() ==> !is_space(#[trigger] name[i]) && name[i] != '"',
    ensures
        lexed(name.take(k)) == (Lexed {
            words: Seq::empty(),
            word: Some(Token { text: name.take(k), bare: true }),
            quoted: false,
        }),
    decreases k,
{
    assert(name.take(k).drop_last() =~= name.take(k - 1));
    assert(name.take(k).last() == name[k - 1]);
    assert(name.take(k - 1).push(name[k - 1]) =~= name.take(k));
    if k == 1 {
        assert(name.take(0) =~= Seq::empty());
    } else {
        lemma_plain_word(name, k - 1);
    }
}

/// A column name that completion writes reads back as one word, and as that
/// column rather than as all of them or as a reversed one. A name that itself
/// holds a quote is the exception.
pub proof fn a_completed_name_reads_back(name: Seq<char>, names: Seq<Seq<char>>)
    requires
        !name.contains('"'),
        names.contains(name),
        names.len() <= usize::MAX,
    ensures
        ({
            let read = lexed(quoted_text(name));
            let word = read.all()[0];
            &&& !read.quoted
            &&& read.all() == seq![word]
            &&& word.text == name
            &&& !(word.bare && name == "*"@)
            &&& column_called(name, names) is Ok
            &&& names[column_called(name, names)->Ok_0 as int] == name
            &&& key_called(word, names) == Ok::<(usize, bool), Seq<char>>(
                (column_called(name, names)->Ok_0, true),
            )
        }),
{
    let at = names.index_of(name);
    lemma_named(names, name, 0, at);
    let needs = name.len() == 0 || name == "*"@ || name.last() == '-' || exists|i: int|
        0 <= i < name.len() && (is_space(#[trigger] name[i]) || name[i] == '"');
    if needs {
        let line = seq!['"'] + name + seq!['"'];
        lemma_inside_quotes(name, name.len() as int);
        assert(name.take(name.len() as int) =~= name);
        assert(line.drop_last() =~= seq!['"'] + name);
        assert(line.last() == '"');
        let read = lexed(line);
        assert(read == lexed(line.drop_last()).step('"'));
        assert(read.all() =~= seq![Token { text: name, bare: false }]);
    } else {
        lemma_plain_word(name, name.len() as int);
        assert(name.take(name.len() as int) =~= name);
        assert(lexed(name).all() =~= seq![Token { text: name, bare: true }]);
    }
}

proof fn lemma_named(names: Seq<Seq<char>>, name: Seq<char>, from: int, at: int)
    requires
        0 <= from <= at < names.len(),
        names[at] == name,
    ensures
        name_at(names, name, from) matches Some(found) && from <= found <= at && names[found] == name,
    decreases at - from,
{
    if names[from] != name {
        lemma_named(names, name, from + 1, at);
    }
}

} // verus!
