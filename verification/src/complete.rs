//! Completion for the command line.
//!
//! Deliberately not fuzzy. This is a small closed vocabulary, a handful of verbs
//! and the file's own column names, that the user is trying to type exactly. A
//! prefix match is predictable; a fuzzy one is a guess, and the one thing
//! completion must never do is fight what someone is halfway through typing.
//!
//! What can be completed depends on where in the line the cursor is: verbs at
//! the front, then column names, and inside a filter the positions cycle
//! through column, operator, value, `and`.
use vstd::prelude::*;
use crate::text;
use crate::text::{is_space, space, texts};

verus! {

/// A text in lower case, as `str::to_lowercase` gives it.
pub uninterp spec fn lowercase(text: Seq<char>) -> Seq<char>;

/// `str::to_lowercase`, which depends on the text alone.
#[verifier::external_body]
pub(crate) fn lower(text: &str) -> (r: String)
    ensures
        r@ == lowercase(text@),
{
    text.to_lowercase()
}

/// Verbs that shape the view.
pub open spec fn view_verbs() -> Seq<Seq<char>> {
    seq!["select"@, "hide"@, "filter"@, "sort"@, "reset"@]
}

/// Verbs that change which columns there are. They want an argument.
pub open spec fn column_verbs() -> Seq<Seq<char>> {
    seq!["expand"@]
}

/// Verbs that act on the file.
pub open spec fn file_verbs() -> Seq<Seq<char>> {
    seq!["w"@, "wq"@, "q"@, "x"@]
}

pub open spec fn operators() -> Seq<Seq<char>> {
    seq!["="@, "!="@, "<"@, "<="@, ">"@, ">="@, "~"@, "!~"@]
}

pub open spec fn slots() -> Seq<Seq<char>> {
    seq!["select"@, "filter"@, "sort"@]
}

/// A column name as it must be written to be read back as itself.
pub open spec fn quoted_text(name: Seq<char>) -> Seq<char> {
    if name.len() == 0 || name == "*"@ || name.last() == '-' || exists|i: int|
        0 <= i < name.len() && (is_space(#[trigger] name[i]) || name[i] == '"') {
        seq!['"'] + name + seq!['"']
    } else {
        name
    }
}

/// Where the last word of a line begins: behind its last white space.
pub open spec fn word_start(line: Seq<char>) -> int
    decreases line.len(),
{
    if line.len() == 0 || is_space(line.last()) {
        line.len() as int
    } else {
        word_start(line.drop_last())
    }
}

/// Whether what follows a text stands between quotes.
pub open spec fn is_quoting(line: Seq<char>) -> bool
    decreases line.len(),
{
    line.len() > 0 && is_quoting(line.drop_last()) != (line.last() == '"')
}

/// A line ends in white space that parts words: none between quotes does.
pub open spec fn breaks(line: Seq<char>) -> bool {
    line.len() > 0 && is_space(line.last()) && !is_quoting(line)
}

/// The words of a line, between white space. What stands between quotes is one
/// word.
pub open spec fn words(line: Seq<char>) -> Seq<Seq<char>>
    decreases line.len(),
{
    if line.len() == 0 {
        Seq::empty()
    } else {
        let before = words(line.drop_last());
        if breaks(line) {
            before
        } else if line.len() > 1 && !breaks(line.drop_last()) {
            before.drop_last().push(before.last().push(line.last()))
        } else {
            before.push(seq![line.last()])
        }
    }
}

/// A text without the quotes it begins with.
pub open spec fn unquoted_front(word: Seq<char>) -> Seq<char>
    decreases word.len(),
{
    if word.len() > 0 && word[0] == '"' {
        unquoted_front(word.drop_first())
    } else {
        word
    }
}

/// A candidate: the name it goes by and how it is written.
pub type Candidate = (Seq<char>, Seq<char>);

pub open spec fn plainly(list: Seq<Seq<char>>) -> Seq<Candidate> {
    list.map_values(|s: Seq<char>| (s, s))
}

pub open spec fn columns(names: Seq<Seq<char>>) -> Seq<Candidate> {
    names.map_values(|s: Seq<char>| (s, quoted_text(s)))
}

/// What belongs where the cursor is, decided by the words already typed.
pub open spec fn candidates(head: Seq<char>, names: Seq<Seq<char>>) -> Seq<Candidate> {
    let w = words(head);
    if w.len() == 0 {
        plainly(view_verbs()) + plainly(column_verbs()) + plainly(file_verbs())
    } else if w[0] == "select"@ || w[0] == "hide"@ || w[0] == "sort"@ || w[0] == "expand"@ {
        columns(names)
    } else if w[0] == "reset"@ {
        plainly(slots())
    } else if w[0] == "filter"@ {
        if (w.len() - 1) % 4 == 0 {
            columns(names)
        } else if (w.len() - 1) % 4 == 1 {
            plainly(operators())
        } else if (w.len() - 1) % 4 == 2 {
            Seq::empty()
        } else {
            plainly(seq!["and"@])
        }
    } else {
        Seq::empty()
    }
}

/// The candidates that go on from `stem`, whatever the case, as written.
pub open spec fn matching(all: Seq<Candidate>, stem: Seq<char>) -> Seq<Seq<char>>
    decreases all.len(),
{
    if all.len() == 0 {
        Seq::empty()
    } else {
        let before = matching(all.drop_last(), stem);
        if lowercase(stem).is_prefix_of(lowercase(all.last().0)) {
            before.push(all.last().1)
        } else {
            before
        }
    }
}

/// What a completion request found.
#[derive(Debug, PartialEq)]
pub struct Completion {
    /// Everything before the word being completed, trailing space included.
    pub head: String,
    /// The word as typed, so a caller can tell whether extending it is safe.
    pub word: String,
    /// The candidates, already quoted where they need to be.
    pub options: Vec<String>,
}

/// A text that all of the options begin with.
pub open spec fn shared_by(front: Seq<char>, options: Seq<Seq<char>>) -> bool {
    forall|i: int| 0 <= i < options.len() ==> front.is_prefix_of(#[trigger] options[i])
}

/// The longest text that all of the options begin with.
pub open spec fn is_common_prefix(front: Seq<char>, options: Seq<Seq<char>>) -> bool {
    if options.len() == 0 {
        front.len() == 0
    } else {
        &&& shared_by(front, options)
        &&& forall|other: Seq<char>| #[trigger] shared_by(other, options) ==> other.len() <= front.len()
    }
}

pub open spec fn extended_text(
    head: Seq<char>,
    word: Seq<char>,
    options: Seq<Seq<char>>,
    shared: Seq<char>,
) -> Seq<char> {
    if options.len() == 1 {
        head + options[0] + seq![' ']
    } else if shared.len() > word.len() && word.is_prefix_of(shared) {
        head + shared
    } else {
        head + word
    }
}

impl Completion {
    /// The line with the longest unambiguous extension applied.
    ///
    /// A single candidate replaces the word outright and gains a trailing
    /// space, because the next argument is what comes next. With several, the
    /// line only grows, never shrinks, so completion cannot eat characters that
    /// were typed on purpose.
    pub fn extended(&self) -> (out: String)
        ensures
            exists|shared: Seq<char>| #[trigger]
                is_common_prefix(shared, texts(self.options@)) && out@ == extended_text(
                    self.head@,
                    self.word@,
                    texts(self.options@),
                    shared,
                ),
    {
        let shared = common_prefix(&self.options);
        let mut out = self.head.clone();
        assert(is_common_prefix(shared@, texts(self.options@)));
        if self.options.len() == 1 {
            text::push_str(&mut out, self.options[0].as_str());
            text::push(&mut out, ' ');
            assert(out@ =~= self.head@ + texts(self.options@)[0] + seq![' ']);
            return out;
        }
        if text::starts_with(shared.as_str(), self.word.as_str()) {
            // At least as long as the word, so it is what the word grows to.
            text::push_str(&mut out, shared.as_str());
            assert(shared@.len() == self.word@.len() ==> shared@ =~= self.word@);
        } else {
            text::push_str(&mut out, self.word.as_str());
        }
        out
    }

    /// The line with one named candidate in place of the word.
    pub fn with(&self, index: usize) -> (out: String)
        ensures
            out@ == if index < self.options@.len() {
                self.head@ + self.options@[index as int]@ + seq![' ']
            } else {
                self.head@ + self.word@
            },
    {
        let mut out = self.head.clone();
        if index < self.options.len() {
            text::push_str(&mut out, self.options[index].as_str());
            text::push(&mut out, ' ');
            assert(out@ =~= self.head@ + self.options@[index as int]@ + seq![' ']);
        } else {
            text::push_str(&mut out, self.word.as_str());
        }
        out
    }
}

/// With several candidates, completing a line only ever adds to it.
pub proof fn completion_never_eats_what_was_typed(
    head: Seq<char>,
    word: Seq<char>,
    options: Seq<Seq<char>>,
    shared: Seq<char>,
)
    requires
        options.len() != 1,
    ensures
        (head + word).is_prefix_of(extended_text(head, word, options, shared)),
{
    let out = extended_text(head, word, options, shared);
    let line = head + word;
    if shared.len() > word.len() && word.is_prefix_of(shared) {
        assert forall|i: int| 0 <= i < line.len() implies line[i] == out[i] by {
            if i >= head.len() {
                assert(word[i - head.len()] == shared.take(word.len() as int)[i - head.len()]);
            }
        }
        assert(line =~= out.take(line.len() as int));
    } else {
        assert(line =~= out.take(line.len() as int));
    }
}

/// The longest text that every option begins with.
pub fn common_prefix(options: &Vec<String>) -> (out: String)
    ensures
        is_common_prefix(out@, texts(options@)),
{
    let ghost all = texts(options@);
    if options.is_empty() {
        return String::new();
    }
    let first = text::chars(options[0].as_str());
    let mut end: usize = first.len();
    let mut i: usize = 0;
    while i < options.len()
        invariant
            all == texts(options@),
            i <= options.len(),
            options.len() > 0,
            first@ == all[0],
            end <= first.len(),
            forall|k: int| 0 <= k < i ==> first@.take(end as int).is_prefix_of(#[trigger] all[k]),
            forall|other: Seq<char>| #[trigger] shared_by(other, all) ==> other.len() <= end,
        decreases options.len() - i,
    {
        let other = text::chars(options[i].as_str());
        let mut n: usize = 0;
        while n < end && n < other.len() && first[n] == other[n]
            invariant
                n <= end <= first.len(),
                n <= other.len(),
                forall|k: int| 0 <= k < n ==> first@[k] == other@[k],
            decreases end - n,
        {
            n += 1;
        }
        proof {
            assert(other@ == all[i as int]);
            assert forall|k: int| 0 <= k < i + 1 implies first@.take(n as int).is_prefix_of(
                #[trigger] all[k],
            ) by {
                if k < i {
                    assert(first@.take(end as int) =~= all[k].take(end as int));
                    assert forall|m: int| 0 <= m < n implies first@[m] == all[k][m] by {
                        assert(first@.take(end as int)[m] == all[k].take(end as int)[m]);
                    }
                    assert(first@.take(n as int) =~= all[k].take(n as int));
                } else {
                    assert(first@.take(n as int) =~= all[k].take(n as int));
                }
            }
            assert forall|p: Seq<char>| #[trigger] shared_by(p, all) implies p.len() <= n by {
                if p.len() > n {
                    assert(p.is_prefix_of(all[0]));
                    assert(p.is_prefix_of(all[i as int]));
                    assert(p =~= all[0].take(p.len() as int));
                    assert(p =~= all[i as int].take(p.len() as int));
                    assert(p[n as int] == first@[n as int]);
                    assert(p[n as int] == other@[n as int]);
                }
            }
        }
        end = n;
        i += 1;
    }
    let out = text::from_chars(vstd::slice::slice_subrange(first.as_slice(), 0, end));
    assert(out@ =~= first@.take(end as int));
    out
}

/// A column name as it must be written to be read back as itself.
pub fn quoted(name: &str) -> (out: String)
    ensures
        out@ == quoted_text(name@),
{
    let chars = text::chars(name);
    let n = chars.len();
    let mut needs = n == 0 || text::same(name, "*") || chars[n - 1] == '-';
    let mut i: usize = 0;
    while !needs && i < n
        invariant
            n == chars.len(),
            chars@ == name@,
            i <= n,
            !needs ==> forall|k: int| 0 <= k < i ==> !(is_space(#[trigger] name@[k]) || name@[k] == '"'),
            needs ==> (name@.len() == 0 || name@ == "*"@ || name@.last() == '-' || exists|k: int|
                0 <= k < name@.len() && (is_space(#[trigger] name@[k]) || name@[k] == '"')),
            !needs ==> name@.len() > 0 && name@ != "*"@ && name@.last() != '-',
        decreases n - i,
    {
        if space(chars[i]) || chars[i] == '"' {
            needs = true;
        }
        i += 1;
    }
    if needs {
        let mut out = String::new();
        text::push(&mut out, '"');
        text::push_str(&mut out, name);
        text::push(&mut out, '"');
        assert(out@ =~= seq!['"'] + name@ + seq!['"']);
        out
    } else {
        name.to_owned()
    }
}

proof fn lemma_word_start(line: Seq<char>)
    ensures
        0 <= word_start(line) <= line.len(),
        forall|i: int| word_start(line) <= i < line.len() ==> !is_space(#[trigger] line[i]),
        word_start(line) > 0 ==> is_space(line[word_start(line) - 1]),
    decreases line.len(),
{
    if line.len() > 0 && !is_space(line.last()) {
        let front = line.drop_last();
        lemma_word_start(front);
        assert forall|i: int| word_start(line) <= i < line.len() implies !is_space(#[trigger] line[i]) by {
            if i < front.len() {
                assert(front[i] == line[i]);
            }
        }
    }
}

/// Split off the word the cursor sits at the end of, keeping the rest verbatim
/// so it can be put back unchanged.
pub fn split_last_word(line: &str) -> (out: (String, String))
    ensures
        out.0@ == line@.take(word_start(line@)),
        out.1@ == line@.skip(word_start(line@)),
        out.0@ + out.1@ == line@,
        forall|i: int| 0 <= i < out.1@.len() ==> !is_space(#[trigger] out.1@[i]),
        out.0@.len() > 0 ==> is_space(out.0@.last()),
{
    let chars = text::chars(line);
    let n = chars.len();
    let mut at: usize = n;
    assert(line@.take(n as int) =~= line@);
    while at > 0 && !space(chars[at - 1])
        invariant
            at <= n == chars.len(),
            chars@ == line@,
            word_start(line@.take(at as int)) == word_start(line@),
        decreases at,
    {
        assert(line@.take(at as int).drop_last() =~= line@.take(at - 1));
        at -= 1;
    }
    proof {
        assert(word_start(line@) == at);
        lemma_word_start(line@);
        assert(line@.take(at as int) + line@.skip(at as int) =~= line@);
    }
    let head = text::from_chars(vstd::slice::slice_subrange(chars.as_slice(), 0, at));
    let word = text::from_chars(vstd::slice::slice_subrange(chars.as_slice(), at, n));
    assert(head@ =~= line@.take(at as int));
    assert(word@ =~= line@.skip(at as int));
    (head, word)
}

proof fn lemma_word_open(line: Seq<char>)
    requires
        line.len() > 0,
        !breaks(line),
    ensures
        words(line).len() > 0,
{
}

fn split_words(line: &str) -> (out: Vec<String>)
    ensures
        texts(out@) == words(line@),
{
    let chars = text::chars(line);
    let mut out: Vec<String> = Vec::new();
    let mut quoting = false;
    let mut parted = true;
    let mut i: usize = 0;
    assert(line@.take(0) =~= Seq::empty());
    assert(texts(out@) =~= words(line@.take(0)));
    while i < chars.len()
        invariant
            i <= chars.len(),
            chars@ == line@,
            quoting == is_quoting(line@.take(i as int)),
            parted == (i == 0 || breaks(line@.take(i as int))),
            texts(out@) == words(line@.take(i as int)),
        decreases chars.len() - i,
    {
        let c = chars[i];
        let ghost now = line@.take(i + 1);
        let ghost before = out@;
        assert(now.drop_last() =~= line@.take(i as int));
        assert(now.last() == c);
        if c == '"' {
            quoting = !quoting;
        }
        assert(quoting == is_quoting(now));
        if space(c) && !quoting {
            parted = true;
        } else {
            if parted {
                let mut word = String::new();
                text::push(&mut word, c);
                assert(word@ =~= seq![c]);
                out.push(word);
                assert(texts(out@) =~= texts(before).push(seq![c]));
            } else {
                proof {
                    lemma_word_open(line@.take(i as int));
                    assert(texts(before).len() == before.len());
                }
                if let Some(mut word) = out.pop() {
                    text::push(&mut word, c);
                    out.push(word);
                    assert(texts(out@) =~= texts(before).drop_last().push(texts(before).last().push(c)));
                }
            }
            parted = false;
        }
        i += 1;
    }
    assert(line@.take(i as int) =~= line@);
    out
}

spec fn shown(list: Seq<(String, String)>) -> Seq<Candidate> {
    list.map_values(|c: (String, String)| (c.0@, c.1@))
}

fn offer(list: &mut Vec<(String, String)>, name: &str)
    ensures
        shown(final(list)@) == shown(old(list)@).push((name@, name@)),
{
    list.push((name.to_owned(), name.to_owned()));
    assert(shown(list@) =~= shown(old(list)@).push((name@, name@)));
}

fn offer_columns(names: &[String]) -> (list: Vec<(String, String)>)
    ensures
        shown(list@) == columns(texts(names@)),
{
    let mut list: Vec<(String, String)> = Vec::new();
    let mut i: usize = 0;
    while i < names.len()
        invariant
            i <= names.len(),
            shown(list@) == columns(texts(names@)).take(i as int),
        decreases names.len() - i,
    {
        let ghost before = list@;
        list.push((names[i].clone(), quoted(names[i].as_str())));
        assert(shown(list@) =~= shown(before).push((names@[i as int]@, quoted_text(names@[i as int]@))));
        assert(shown(list@) =~= columns(texts(names@)).take(i + 1));
        i += 1;
    }
    assert(shown(list@) =~= columns(texts(names@)));
    list
}

/// What belongs where the cursor is, decided by the words already typed.
fn candidates_for(head: &str, names: &[String]) -> (list: Vec<(String, String)>)
    ensures
        shown(list@) == candidates(head@, texts(names@)),
{
    let typed = split_words(head);
    let mut list: Vec<(String, String)> = Vec::new();
    assert(shown(list@) =~= Seq::empty());
    if typed.is_empty() {
        // Still on the first word.
        offer(&mut list, "select");
        offer(&mut list, "hide");
        offer(&mut list, "filter");
        offer(&mut list, "sort");
        offer(&mut list, "reset");
        offer(&mut list, "expand");
        offer(&mut list, "w");
        offer(&mut list, "wq");
        offer(&mut list, "q");
        offer(&mut list, "x");
        assert(shown(list@) =~= plainly(view_verbs()) + plainly(column_verbs()) + plainly(file_verbs()));
        return list;
    }
    let verb = typed[0].as_str();
    assert(verb@ == words(head@)[0]);
    if text::same(verb, "select") || text::same(verb, "hide") || text::same(verb, "sort") || text::same(
        verb,
        "expand",
    ) {
        return offer_columns(names);
    }
    if text::same(verb, "reset") {
        offer(&mut list, "select");
        offer(&mut list, "filter");
        offer(&mut list, "sort");
        assert(shown(list@) =~= plainly(slots()));
        return list;
    }
    if text::same(verb, "filter") {
        // Inside a filter the positions repeat: column, operator, value, `and`.
        // A value is the file's own data, which is not a vocabulary to complete
        // against.
        let place: usize = (typed.len() - 1) % 4;
        if place == 0 {
            return offer_columns(names);
        }
        if place == 1 {
            offer(&mut list, "=");
            offer(&mut list, "!=");
            offer(&mut list, "<");
            offer(&mut list, "<=");
            offer(&mut list, ">");
            offer(&mut list, ">=");
            offer(&mut list, "~");
            offer(&mut list, "!~");
            assert(shown(list@) =~= plainly(operators()));
        } else if place == 3 {
            offer(&mut list, "and");
            assert(shown(list@) =~= plainly(seq!["and"@]));
        }
    }
    list
}

fn trim_quotes(word: &str) -> (out: String)
    ensures
        out@ == unquoted_front(word@),
{
    let chars = text::chars(word);
    let mut at: usize = 0;
    assert(word@.skip(0) =~= word@);
    while at < chars.len() && chars[at] == '"'
        invariant
            at <= chars.len(),
            chars@ == word@,
            unquoted_front(word@.skip(at as int)) == unquoted_front(word@),
        decreases chars.len() - at,
    {
        assert(word@.skip(at as int).drop_first() =~= word@.skip(at + 1));
        at += 1;
    }
    let out = text::from_chars(vstd::slice::slice_subrange(chars.as_slice(), at, chars.len()));
    assert(out@ =~= word@.skip(at as int));
    out
}

/// Complete `line`, the command line without its leading colon, over the
/// file's column names.
///
/// `None` when nothing matches, so the caller leaves what was typed alone
/// rather than deleting it.
pub fn complete(line: &str, names: &[String]) -> (out: Option<Completion>)
    ensures
        ({
            let at = word_start(line@);
            let head = line@.take(at);
            let word = line@.skip(at);
            let options = matching(candidates(head, texts(names@)), unquoted_front(word));
            match out {
                Some(c) => options.len() > 0 && c.head@ == head && c.word@ == word && texts(c.options@)
                    == options,
                None => options.len() == 0,
            }
        }),
{
    let (head, word) = split_last_word(line);
    // Matched against the bare name and offered in the form that has to be
    // typed: a column called `release date` is matched by `rel` but written
    // with quotes around it.
    let stem = trim_quotes(word.as_str());
    let low = lower(stem.as_str());
    let all = candidates_for(head.as_str(), names);
    let ghost list = shown(all@);
    let mut options: Vec<String> = Vec::new();
    let mut i: usize = 0;
    assert(list.take(0) =~= Seq::empty());
    assert(texts(options@) =~= Seq::empty());
    while i < all.len()
        invariant
            i <= all.len(),
            list == shown(all@),
            low@ == lowercase(stem@),
            texts(options@) == matching(list.take(i as int), stem@),
        decreases all.len() - i,
    {
        assert(list.take(i + 1).drop_last() =~= list.take(i as int));
        let bare = lower(all[i].0.as_str());
        if text::starts_with(bare.as_str(), low.as_str()) {
            let ghost before = options@;
            options.push(all[i].1.clone());
            assert(texts(options@) =~= texts(before).push(list[i as int].1));
        }
        i += 1;
    }
    assert(list.take(i as int) =~= list);
    assert(texts(options@).len() == options@.len());
    if options.is_empty() {
        return None;
    }
    Some(Completion { head, word, options })
}

/// Everything that completion offers is one of the words that belong there, and
/// goes on from what was typed.
pub proof fn options_go_on_from_the_stem(all: Seq<Candidate>, stem: Seq<char>, option: Seq<char>)
    requires
        matching(all, stem).contains(option),
    ensures
        exists|i: int|
            0 <= i < all.len() && (#[trigger] all[i]).1 == option && lowercase(stem).is_prefix_of(
                lowercase(all[i].0),
            ),
    decreases all.len(),
{
    let found = matching(all, stem);
    if all.len() > 0 {
        let front = all.drop_last();
        let before = matching(front, stem);
        let k = choose|k: int| 0 <= k < found.len() && found[k] == option;
        if k < before.len() {
            assert(before[k] == option);
            options_go_on_from_the_stem(front, stem, option);
            let i = choose|i: int|
                0 <= i < front.len() && (#[trigger] front[i]).1 == option && lowercase(stem).is_prefix_of(
                    lowercase(front[i].0),
                );
            assert(all[i] == front[i]);
        } else {
            assert(all[all.len() - 1].1 == option);
        }
    }
}

} // verus!
