//! The command line.
use vstd::prelude::*;
use crate::app::keys::Key;
use crate::app::session::{offer_of, sound, App, Limits, Mode, Offer, Session, Task};
use crate::complete;
use crate::complete::{candidates, extended_text, is_common_prefix, matching, unquoted_front, word_start, Completion};
use crate::data::edit::at_most_max;
use crate::data::store::name_at;
use crate::text;
use crate::text::{decimal_text, is_space, space, texts, trimmed_back, trimmed_front};

verus! {

/// Where the first white space of a line is, or its end.
pub open spec fn first_space(line: Seq<char>) -> int
    decreases line.len(),
{
    if line.len() == 0 || is_space(line[0]) {
        0
    } else {
        1 + first_space(line.skip(1))
    }
}

/// The first word of a line.
pub open spec fn first_word(line: Seq<char>) -> Seq<char> {
    line.take(first_space(line))
}

/// What follows the first word, without the white space around it.
pub open spec fn after_word(line: Seq<char>) -> Seq<char> {
    let at = first_space(line);
    if at >= line.len() {
        Seq::empty()
    } else {
        trimmed_back(trimmed_front(line.skip(at + 1)))
    }
}

/// A word without the exclamation marks at its end.
pub open spec fn unforced(word: Seq<char>) -> Seq<char>
    decreases word.len(),
{
    if word.len() > 0 && word.last() == '!' {
        unforced(word.drop_last())
    } else {
        word
    }
}

pub open spec fn forced(word: Seq<char>) -> bool {
    word.len() > 0 && word.last() == '!'
}

/// How many edits are unsaved, and what can be done about it.
pub open spec fn unsaved_text(dirty: nat) -> Seq<char> {
    decimal_text(dirty) + " unsaved edit"@ + (if dirty == 1 {
        ""@
    } else {
        "s"@
    }) + " \u{2014} :w to write, :q! to discard"@
}

/// A task that writes, as the words of a line say.
pub open spec fn writes(task: Task, rest: Seq<char>, forced: bool, quitting: bool) -> bool {
    match task {
        Task::Write { path, force, quit } => {
            &&& force == forced
            &&& quit == quitting
            &&& match path {
                Some(path) => rest.len() > 0 && path@ == rest,
                None => rest.len() == 0,
            }
        },
        _ => false,
    }
}

/// A name without the quotes around it, if there are any.
pub open spec fn bare_name(written: Seq<char>) -> Seq<char> {
    if written.len() >= 2 && written[0] == '"' && written.last() == '"' {
        written.subrange(1, written.len() - 1)
    } else {
        written
    }
}

fn strip_quotes(written: &str) -> (name: String)
    ensures
        name@ == bare_name(written@),
{
    let chars = text::chars(written);
    let n: usize = chars.len();
    if n >= 2 && chars[0] == '"' && chars[n - 1] == '"' {
        let name = text::from_chars(vstd::slice::slice_subrange(chars.as_slice(), 1, n - 1));
        assert(name@ =~= written@.subrange(1, written@.len() - 1));
        name
    } else {
        written.to_owned()
    }
}

impl Session {
    /// Edits, deletions and additions that are not written.
    pub open spec fn dirty(self) -> usize {
        match self.store {
            Some(h) => at_most_max(h.buffer.pending.count()),
            None => 0,
        }
    }

    /// Done, unless there are edits that would be lost.
    pub open spec fn quitting(self, force: bool) -> Session {
        if self.dirty() > 0 && !force {
            self.say(unsaved_text(self.dirty() as nat))
        } else {
            Session { exit: true, ..self }
        }
    }

    /// What writing came to: the name of what was written, or why it was not. A
    /// file that was read again has lost what backed its view.
    pub open spec fn saved(
        self,
        name: Result<Seq<char>, Seq<char>>,
        quit: bool,
        limits: Limits,
    ) -> Session {
        match name {
            Ok(name) => (Session { exit: self.exit || quit, ..self.say("wrote "@ + name) }).backed(limits),
            Err(why) => self.say(why),
        }
    }

    pub open spec fn uncompleted(self) -> Session {
        Session { completion: None, completion_index: None, ..self }
    }

    /// A command carried out, as far as that needs nothing from outside.
    pub open spec fn runs(self, after: Session, task: Task, line: Seq<char>, limits: Limits) -> bool {
        let word = first_word(line);
        let rest = after_word(line);
        let verb = unforced(word);
        if verb.len() == 0 {
            task is Nothing && after == self
        } else if verb == "w"@ || verb == "wq"@ || verb == "x"@ {
            if self.store is None {
                task is Nothing && after == self.say("no file open"@)
            } else {
                after == self && writes(task, rest, forced(word), verb != "w"@)
            }
        } else if verb == "q"@ {
            task is Nothing && after == self.quitting(forced(word))
        } else if verb == "expand"@ {
            self.expands(after, task, rest)
        } else {
            self.views(after, task, line, limits)
        }
    }

    /// The documents of a column to be made columns of, or a word on why not.
    /// The name can stand between quotes.
    pub open spec fn expands(self, after: Session, task: Task, written: Seq<char>) -> bool {
        let name = bare_name(written);
        match self.store {
            None => task is Nothing && after == self.say("no file open"@),
            Some(h) => match name_at(texts(h.names@), name, 0) {
                Some(column) => after == self && task == Task::Expand(column as usize),
                None => task is Nothing && after == self.say("no column called "@ + name),
            },
        }
    }

    /// The line without its last character; with nothing left of it, the
    /// command line is left.
    pub open spec fn command_shortened(self) -> Session {
        if self.command_buf.len() > 0 {
            Session { command_buf: self.command_buf.drop_last(), ..self.uncompleted() }
        } else {
            Session { mode: Mode::Normal, ..self.uncompleted() }
        }
    }

    /// The command line left, with what was typed gone.
    pub open spec fn command_left(self) -> Session {
        Session { mode: Mode::Normal, command_buf: Seq::empty(), ..self.uncompleted() }
    }

    /// The command line after a key.
    pub open spec fn command_key(self, after: Session, task: Task, key: Key, ctrl: bool, limits: Limits) -> bool {
        match key {
            Key::Esc => task is Nothing && after == self.command_left(),
            Key::Enter => self.command_left().runs(
                after,
                task,
                trimmed_back(trimmed_front(self.command_buf)),
                limits,
            ),
            Key::Backspace => task is Nothing && after == self.command_shortened(),
            Key::Tab => task is Nothing && self.completes(after, false),
            Key::BackTab => task is Nothing && self.completes(after, true),
            Key::Char(c) => task is Nothing && after == if ctrl {
                self
            } else {
                Session { command_buf: self.command_buf.push(c), ..self.uncompleted() }
            },
            _ => task is Nothing && after == self,
        }
    }

    /// What completion offers for the line as it is.
    pub open spec fn offered(self) -> Offer {
        let at = word_start(self.command_buf);
        let head = self.command_buf.take(at);
        let word = self.command_buf.skip(at);
        let names = match self.store {
            Some(h) => texts(h.names@),
            None => Seq::empty(),
        };
        Offer { head, word, options: matching(candidates(head, names), unquoted_front(word)) }
    }

    /// Extended as far as the candidates agree, or stepped on through them.
    pub open spec fn completes(self, after: Session, backwards: bool) -> bool {
        match self.completion {
            Some(offer) => if offer.options.len() > 1 {
                let next = next_option(self.completion_index, offer.options.len() as int, backwards);
                after == (Session {
                    command_buf: offer.head + offer.options[next] + seq![' '],
                    completion_index: Some(next as usize),
                    ..self
                })
            } else {
                self.extends(after)
            },
            None => self.extends(after),
        }
    }

    /// The line grown towards what there is. A single candidate is put in full,
    /// which leaves nothing to step through.
    pub open spec fn extends(self, after: Session) -> bool {
        let offer = self.offered();
        if self.store is None {
            after == self
        } else if offer.options.len() == 0 {
            after == self.uncompleted()
        } else {
            exists|shared: Seq<char>| #[trigger]
                is_common_prefix(shared, offer.options) && after == (Session {
                    command_buf: extended_text(offer.head, offer.word, offer.options, shared),
                    completion_index: None,
                    completion: if offer.options.len() > 1 {
                        Some(offer)
                    } else {
                        None
                    },
                    ..self
                })
        }
    }
}

/// The candidate after the one applied, or before it, going round.
pub open spec fn next_option(index: Option<usize>, count: int, backwards: bool) -> int {
    match index {
        Some(i) => if backwards {
            (i + count - 1) % count
        } else {
            (i + 1) % count
        },
        None => if backwards {
            count - 1
        } else {
            0
        },
    }
}

/// Stepping back through the candidates undoes stepping on.
pub proof fn stepping_back_undoes_stepping_on(index: usize, count: int)
    requires
        0 <= index < count,
        count <= usize::MAX,
    ensures
        next_option(Some(next_option(Some(index), count, false) as usize), count, true) == index,
{
    if index + 1 == count {
        assert((index + 1) % count == 0) by (nonlinear_arith)
            requires
                index + 1 == count,
                count > 0,
        ;
        assert((0 + count - 1) % count == count - 1) by (nonlinear_arith)
            requires
                count > 0,
        ;
    } else {
        assert((index + 1) % count == index + 1) by (nonlinear_arith)
            requires
                0 <= index + 1 < count,
        ;
        assert((index + 1 + count - 1) % count == index) by (nonlinear_arith)
            requires
                0 <= index < count,
        ;
    }
}

fn space_at(chars: &Vec<char>) -> (at: usize)
    ensures
        at == first_space(chars@),
        at <= chars@.len(),
{
    let mut at: usize = 0;
    assert(chars@.skip(0) =~= chars@);
    while at < chars.len() && !space(chars[at])
        invariant
            at <= chars@.len(),
            first_space(chars@) == at + first_space(chars@.skip(at as int)),
        decreases chars@.len() - at,
    {
        assert(chars@.skip(at as int).skip(1) =~= chars@.skip(at + 1));
        at += 1;
    }
    at
}

/// The first word of a line and what follows it.
fn split_command(line: &str) -> (parts: (String, String))
    ensures
        parts.0@ == first_word(line@),
        parts.1@ == after_word(line@),
{
    let chars = text::chars(line);
    let at = space_at(&chars);
    let word = text::from_chars(vstd::slice::slice_subrange(chars.as_slice(), 0, at));
    assert(word@ =~= first_word(line@));
    if at == chars.len() {
        let rest = String::new();
        assert(rest@ =~= Seq::empty());
        return (word, rest);
    }
    let tail = text::from_chars(vstd::slice::slice_subrange(chars.as_slice(), at + 1, chars.len()));
    assert(tail@ =~= line@.skip(at + 1));
    (word, text::trim(tail.as_str()))
}

fn strip_force(word: &str) -> (out: (String, bool))
    ensures
        out.0@ == unforced(word@),
        out.1 == forced(word@),
{
    let chars = text::chars(word);
    let mut n: usize = chars.len();
    assert(chars@.take(n as int) =~= word@);
    while n > 0 && chars[n - 1] == '!'
        invariant
            n <= chars@.len(),
            unforced(chars@.take(n as int)) == unforced(word@),
        decreases n,
    {
        assert(chars@.take(n as int).drop_last() =~= chars@.take(n - 1));
        n -= 1;
    }
    let out = text::from_chars(vstd::slice::slice_subrange(chars.as_slice(), 0, n));
    assert(out@ =~= chars@.take(n as int));
    (out, n < chars.len())
}

impl App {
    /// Edits, deletions and additions that are not written.
    pub fn dirty(&self) -> (n: usize)
        requires
            self.wf(),
        ensures
            n == self@.dirty(),
    {
        proof {
            reveal(sound);
        }
        match &self.store {
            Some(store) => store.dirty(),
            None => 0,
        }
    }

    /// Quitting refuses while the buffer holds unwritten edits.
    pub fn quit(&mut self, force: bool)
        requires
            old(self).wf(),
        ensures
            final(self).wf(),
            final(self)@ == old(self)@.quitting(force),
    {
        let dirty = self.dirty();
        if dirty > 0 && !force {
            let mut out = text::decimal(dirty);
            text::push_str(&mut out, " unsaved edit");
            text::push_str(&mut out, if dirty == 1 { "" } else { "s" });
            text::push_str(&mut out, " \u{2014} :w to write, :q! to discard");
            self.message = Some(out);
            return;
        }
        self.exit = true;
    }

    /// What writing came to: the name of the file that was written, or why it
    /// was not. Quits only where it was. Asks for a sort or a filter that the view
    /// still wants and that went with what was read before.
    pub fn write_finished(
        &mut self,
        outcome: Result<String, String>,
        quit: bool,
        limits: Limits,
    ) -> (task: Task)
        requires
            old(self).wf(),
        ensures
            final(self).wf(),
            final(self)@ == old(self)@.saved(
                match outcome {
                    Ok(name) => Ok(name@),
                    Err(why) => Err(why@),
                },
                quit,
                limits,
            ),
            task == if outcome is Ok {
                old(self)@.backing_task()
            } else {
                Task::Nothing
            },
    {
        match outcome {
            Ok(name) => {
                let text = text::joined("wrote ", name.as_str());
                self.exit = self.exit || quit;
                self.message = Some(text);
                self.back_view(limits)
            },
            Err(why) => {
                self.message = Some(why);
                Task::Nothing
            },
        }
    }

    fn forget_completion(&mut self)
        requires
            old(self).wf(),
        ensures
            final(self).wf(),
            final(self)@ == old(self)@.uncompleted(),
    {
        self.completion = None;
        self.completion_index = None;
    }

    fn leave_command(&mut self)
        requires
            old(self).wf(),
        ensures
            final(self).wf(),
            final(self)@ == old(self)@.command_left(),
    {
        self.forget_completion();
        self.mode = Mode::Normal;
        self.command_buf = String::new();
        assert(self.command_buf@ =~= Seq::empty());
    }

    fn expand_column(&mut self, written: &str) -> (task: Task)
        requires
            old(self).wf(),
        ensures
            final(self).wf(),
            old(self)@.expands(final(self)@, task, written@),
    {
        let name = strip_quotes(written);
        let at: Option<usize> = match &self.store {
            None => {
                self.say("no file open");
                return Task::Nothing;
            },
            Some(store) => crate::data::store::find_name(&store.names, name.as_str()),
        };
        match at {
            Some(column) => Task::Expand(column),
            None => {
                let text = text::joined("no column called ", name.as_str());
                self.message = Some(text);
                Task::Nothing
            },
        }
    }

    /// Carry out a command. A trailing exclamation mark forces past the guard
    /// that writing and quitting put up; anything that is no verb of this list
    /// is the view language, which has a word of its own for what it does not
    /// know.
    pub fn run_command(&mut self, line: &str, limits: Limits) -> (task: Task)
        requires
            old(self).wf(),
            line@.len() <= usize::MAX - 5,
        ensures
            final(self).wf(),
            old(self)@.runs(final(self)@, task, line@, limits),
    {
        let (word, rest) = split_command(line);
        let (verb, force) = strip_force(word.as_str());
        let v = verb.as_str();
        if v.is_empty() {
            return Task::Nothing;
        }
        let quit = text::same(v, "wq") || text::same(v, "x");
        if quit || text::same(v, "w") {
            if self.store.is_none() {
                self.say("no file open");
                return Task::Nothing;
            }
            let path: Option<String> = if rest.as_str().is_empty() { None } else { Some(rest) };
            proof {
                reveal_strlit("w");
                reveal_strlit("wq");
                reveal_strlit("x");
                assert("w"@[0] != "x"@[0]);
                assert("w"@.len() != "wq"@.len());
            }
            return Task::Write { path, force, quit };
        }
        if text::same(v, "q") {
            self.quit(force);
            return Task::Nothing;
        }
        if text::same(v, "expand") {
            return self.expand_column(rest.as_str());
        }
        self.run_view_command(line, limits)
    }

    fn step_option(&mut self, backwards: bool)
        requires
            old(self).wf(),
            old(self).completion matches Some(c) && c.options@.len() > 1,
        ensures
            final(self).wf(),
            old(self)@.completes(final(self)@, backwards),
    {
        let count: usize = match &self.completion {
            Some(c) => c.options.len(),
            None => 0,
        };
        let next: usize = match self.completion_index {
            Some(i) => if backwards {
                if i == 0 {
                    count - 1
                } else {
                    i - 1
                }
            } else if i + 1 < count {
                i + 1
            } else {
                0
            },
            None => if backwards {
                count - 1
            } else {
                0
            },
        };
        proof {
            if let Some(i) = self.completion_index {
                if backwards {
                    lemma_back(i as int, count as int);
                } else {
                    lemma_on(i as int, count as int);
                }
            }
        }
        let line: String = match &self.completion {
            Some(c) => c.with(next),
            None => String::new(),
        };
        self.command_buf = line;
        self.completion_index = Some(next);
    }

    fn extend_line(&mut self)
        requires
            old(self).wf(),
        ensures
            final(self).wf(),
            old(self)@.extends(final(self)@),
    {
        let found: Option<Completion> = match &self.store {
            None => {
                return;
            },
            Some(store) => complete::complete(self.command_buf.as_str(), store.names.as_slice()),
        };
        match found {
            None => self.forget_completion(),
            Some(found) => {
                let ghost offer = offer_of(Some(found))->Some_0;
                assert(offer =~= old(self)@.offered());
                let line = found.extended();
                let several = found.options.len() > 1;
                assert(texts(found.options@).len() == found.options@.len());
                self.command_buf = line;
                self.completion_index = None;
                self.completion = if several { Some(found) } else { None };
            },
        }
    }

    /// Extend the line as far as the candidates agree, then step through them.
    ///
    /// Extending first is what makes it predictable: the line only ever grows
    /// towards something real. Stepping is what makes it useful once the common
    /// prefix has run out, which for column names is most of the time.
    pub fn complete_command(&mut self, backwards: bool)
        requires
            old(self).wf(),
        ensures
            final(self).wf(),
            old(self)@.completes(final(self)@, backwards),
    {
        let several = match &self.completion {
            Some(c) => c.options.len() > 1,
            None => false,
        };
        assert(self.completion matches Some(c) ==> texts(c.options@).len() == c.options@.len());
        if several {
            self.step_option(backwards);
        } else {
            self.extend_line();
        }
    }

    /// A key on the command line.
    pub fn handle_command_key(&mut self, key: Key, ctrl: bool, limits: Limits) -> (task: Task)
        requires
            old(self).wf(),
            old(self).command_buf@.len() <= usize::MAX - 5,
        ensures
            final(self).wf(),
            old(self)@.command_key(final(self)@, task, key, ctrl, limits),
    {
        match key {
            Key::Enter => self.enter_command(limits),
            Key::Esc => {
                self.leave_command();
                Task::Nothing
            },
            Key::Backspace => {
                self.shorten_command();
                Task::Nothing
            },
            Key::Tab => {
                self.complete_command(false);
                Task::Nothing
            },
            Key::BackTab => {
                self.complete_command(true);
                Task::Nothing
            },
            Key::Char(c) => {
                if !ctrl {
                    self.type_command(c);
                }
                Task::Nothing
            },
            _ => Task::Nothing,
        }
    }

    fn enter_command(&mut self, limits: Limits) -> (task: Task)
        requires
            old(self).wf(),
            old(self).command_buf@.len() <= usize::MAX - 5,
        ensures
            final(self).wf(),
            old(self)@.command_left().runs(
                final(self)@,
                task,
                trimmed_back(trimmed_front(old(self)@.command_buf)),
                limits,
            ),
    {
        let line = text::trim(self.command_buf.as_str());
        proof {
            lemma_trimmed_len(self.command_buf@);
        }
        self.leave_command();
        self.run_command(line.as_str(), limits)
    }

    fn shorten_command(&mut self)
        requires
            old(self).wf(),
        ensures
            final(self).wf(),
            final(self)@ == old(self)@.command_shortened(),
    {
        self.forget_completion();
        match text::shortened(self.command_buf.as_str()) {
            Some(text) => {
                self.command_buf = text;
            },
            // Going back past the colon leaves the command line.
            None => {
                self.mode = Mode::Normal;
            },
        }
    }

    fn type_command(&mut self, c: char)
        requires
            old(self).wf(),
        ensures
            final(self).wf(),
            final(self)@ == (Session {
                command_buf: old(self)@.command_buf.push(c),
                ..old(self)@.uncompleted()
            }),
    {
        self.forget_completion();
        text::push(&mut self.command_buf, c);
    }
}

proof fn lemma_back(i: int, count: int)
    requires
        0 <= i < count,
    ensures
        (i + count - 1) % count == if i == 0 { count - 1 } else { i - 1 },
{
    if i == 0 {
        assert((i + count - 1) % count == count - 1) by (nonlinear_arith)
            requires
                i == 0,
                count > 0,
        ;
    } else {
        assert((i + count - 1) % count == i - 1) by (nonlinear_arith)
            requires
                0 < i < count,
        ;
    }
}

proof fn lemma_on(i: int, count: int)
    requires
        0 <= i < count,
    ensures
        (i + 1) % count == if i + 1 < count { i + 1 } else { 0 },
{
    if i + 1 < count {
        assert((i + 1) % count == i + 1) by (nonlinear_arith)
            requires
                0 <= i + 1 < count,
        ;
    } else {
        assert((i + 1) % count == 0) by (nonlinear_arith)
            requires
                i + 1 == count,
                count > 0,
        ;
    }
}

proof fn lemma_trimmed_len(text: Seq<char>)
    ensures
        trimmed_front(text).len() <= text.len(),
        trimmed_back(text).len() <= text.len(),
        trimmed_back(trimmed_front(text)).len() <= text.len(),
    decreases text.len(),
{
    lemma_front_len(text);
    lemma_back_len(text);
    lemma_back_len(trimmed_front(text));
}

proof fn lemma_front_len(text: Seq<char>)
    ensures
        trimmed_front(text).len() <= text.len(),
    decreases text.len(),
{
    if text.len() > 0 && is_space(text[0]) {
        lemma_front_len(text.skip(1));
    }
}

proof fn lemma_back_len(text: Seq<char>)
    ensures
        trimmed_back(text).len() <= text.len(),
    decreases text.len(),
{
    if text.len() > 0 && is_space(text.last()) {
        lemma_back_len(text.drop_last());
    }
}

} // verus!
