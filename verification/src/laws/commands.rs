//! What a command line says.
use vstd::prelude::*;
use crate::app::values::fits;
use crate::data::jsonl::ColumnType;
use crate::grammar::{
    asked_for, column_called, columns_called, conditions, keys_called, lexed, operator, parsed,
    value_meant, Known, Lexed, Literal, Meaning, Sought, Token,
};
use crate::text::is_space;
use crate::view::{Op, Slot};

verus! {

pub(crate) proof fn lemma_signs()
    ensures
        "="@ == seq!['='],
        "!="@ == seq!['!', '='],
        "<"@ == seq!['<'],
        "<="@ == seq!['<', '='],
        ">"@ == seq!['>'],
        ">="@ == seq!['>', '='],
        "~"@ == seq!['~'],
        "!~"@ == seq!['!', '~'],
{
    reveal_strlit("=");
    reveal_strlit("!=");
    reveal_strlit("<");
    reveal_strlit("<=");
    reveal_strlit(">");
    reveal_strlit(">=");
    reveal_strlit("~");
    reveal_strlit("!~");
    assert("="@ =~= seq!['=']);
    assert("!="@ =~= seq!['!', '=']);
    assert("<"@ =~= seq!['<']);
    assert("<="@ =~= seq!['<', '=']);
    assert(">"@ =~= seq!['>']);
    assert(">="@ =~= seq!['>', '=']);
    assert("~"@ =~= seq!['~']);
    assert("!~"@ =~= seq!['!', '~']);
}

/// A condition is asked for by an operator's own sign, and by nothing else.
pub proof fn each_operator_has_its_sign(text: Seq<char>)
    ensures
        operator(text) == Some(Op::Eq) <==> text == seq!['='],
        operator(text) == Some(Op::Ne) <==> text == seq!['!', '='],
        operator(text) == Some(Op::Lt) <==> text == seq!['<'],
        operator(text) == Some(Op::Le) <==> text == seq!['<', '='],
        operator(text) == Some(Op::Gt) <==> text == seq!['>'],
        operator(text) == Some(Op::Ge) <==> text == seq!['>', '='],
        operator(text) == Some(Op::Matches) <==> text == seq!['~'],
        operator(text) == Some(Op::NotMatches) <==> text == seq!['!', '~'],
{
    lemma_signs();
    assert(seq!['='][0] == '=' && seq!['='].len() == 1);
    assert(seq!['<'][0] == '<' && seq!['<'].len() == 1);
    assert(seq!['>'][0] == '>' && seq!['>'].len() == 1);
    assert(seq!['~'][0] == '~' && seq!['~'].len() == 1);
    assert(seq!['!', '='][0] == '!' && seq!['!', '='][1] == '=');
    assert(seq!['<', '='][0] == '<' && seq!['<', '='][1] == '=');
    assert(seq!['>', '='][0] == '>' && seq!['>', '='][1] == '=');
    assert(seq!['!', '~'][0] == '!' && seq!['!', '~'][1] == '~');
}

/// Three words from one on are a condition: a column, an operator and a value.
pub open spec fn is_condition(words: Seq<Token>, at: int, known: Known, one: Sought) -> bool {
    let (name, kind) = (known.names[one.column as int], known.types[one.column as int]);
    &&& column_called(words[at].text, known.names) == Ok::<usize, Seq<char>>(one.column)
    &&& operator(words[at + 1].text) == Some(one.op)
    &&& value_meant(one.op, name, kind, words[at + 2].text) == Ok::<Literal, Seq<char>>(one.value)
}

/// The words from one on are conditions, with the word that joins two of them
/// between them.
pub open spec fn are_conditions(words: Seq<Token>, at: int, known: Known, all: Seq<Sought>) -> bool {
    &&& words.len() - at == 4 * all.len() - 1
    &&& all.len() > 0
    &&& forall|k: int| 0 <= k < all.len() ==> is_condition(words, at + 4 * k, known, #[trigger] all[k])
    &&& forall|k: int| 0 < k < all.len() ==> words[#[trigger] (at + 4 * k) - 1].text == "and"@
}

/// A filter is a condition for each three of its words, in their order: none is
/// left out and none is made up.
pub proof fn a_filter_is_its_conditions(words: Seq<Token>, at: int, known: Known, all: Seq<Sought>)
    requires
        0 <= at,
    ensures
        conditions(words, at, known) == Ok::<Seq<Sought>, Seq<char>>(all) <==> are_conditions(
            words,
            at,
            known,
            all,
        ),
    decreases words.len() - at,
{
    let whole = conditions(words, at, known) == Ok::<Seq<Sought>, Seq<char>>(all);
    if at + 3 == words.len() {
        if whole {
            assert(is_condition(words, at + 4 * 0, known, all[0]));
        }
        if are_conditions(words, at, known, all) {
            assert(is_condition(words, at + 4 * 0, known, all[0]));
            assert(all =~= seq![all[0]]);
        }
    } else if at + 3 < words.len() {
        let rest = all.skip(1);
        a_filter_is_its_conditions(words, at + 4, known, rest);
        if whole {
            assert(rest =~= conditions(words, at + 4, known)->Ok_0);
            assert forall|k: int| 0 <= k < all.len() implies is_condition(
                words,
                at + 4 * k,
                known,
                #[trigger] all[k],
            ) by {
                if k > 0 {
                    assert(rest[k - 1] == all[k]);
                    assert(at + 4 + 4 * (k - 1) == at + 4 * k);
                }
            }
            assert forall|k: int| 0 < k < all.len() implies words[#[trigger] (at + 4 * k) - 1].text
                == "and"@ by {
                if k > 1 {
                    assert((at + 4) + 4 * (k - 1) == at + 4 * k);
                }
            }
        }
        if are_conditions(words, at, known, all) {
            assert(is_condition(words, at + 4 * 0, known, all[0]));
            assert(words[(at + 4 * 1) - 1].text == "and"@);
            assert forall|k: int| 0 <= k < rest.len() implies is_condition(
                words,
                at + 4 + 4 * k,
                known,
                #[trigger] rest[k],
            ) by {
                assert(rest[k] == all[k + 1]);
                assert(at + 4 + 4 * k == at + 4 * (k + 1));
            }
            assert forall|k: int| 0 < k < rest.len() implies words[#[trigger] (at + 4 + 4 * k) - 1].text
                == "and"@ by {
                assert(at + 4 + 4 * k == at + 4 * (k + 1));
            }
            assert(all =~= seq![all[0]] + rest);
        }
    }
}

/// Columns named one after another are those columns, in that order.
pub proof fn columns_are_named_in_order(words: Seq<Token>, names: Seq<Seq<char>>, columns: Seq<usize>)
    ensures
        columns_called(words, names) == Ok::<Seq<usize>, Seq<char>>(columns) <==> (columns.len()
            == words.len() && forall|i: int|
            0 <= i < words.len() ==> column_called((#[trigger] words[i]).text, names) == Ok::<
                usize,
                Seq<char>,
            >(columns[i])),
    decreases words.len(),
{
    if words.len() == 0 {
        assert(columns.len() == 0 ==> columns =~= Seq::empty());
    } else {
        let front = words.drop_last();
        let fewer = columns.drop_last();
        columns_are_named_in_order(front, names, fewer);
        let result = columns_called(words, names);
        if result == Ok::<Seq<usize>, Seq<char>>(columns) {
            let before = columns_called(front, names)->Ok_0;
            assert(fewer =~= before);
            assert forall|i: int| 0 <= i < words.len() implies column_called(
                (#[trigger] words[i]).text,
                names,
            ) == Ok::<usize, Seq<char>>(columns[i]) by {
                if i < front.len() {
                    assert(front[i] == words[i]);
                }
            }
        }
        if columns.len() == words.len() && forall|i: int|
            0 <= i < words.len() ==> column_called((#[trigger] words[i]).text, names) == Ok::<
                usize,
                Seq<char>,
            >(columns[i]) {
            assert forall|i: int| 0 <= i < front.len() implies column_called(
                (#[trigger] front[i]).text,
                names,
            ) == Ok::<usize, Seq<char>>(fewer[i]) by {
                assert(front[i] == words[i]);
            }
            assert(words[words.len() - 1] == words.last());
            assert(columns =~= fewer.push(columns.last()));
        }
    }
}

/// A word is a sort key: a column's name alone asks for the least first, and one
/// with a bare minus behind it for the greatest first.
pub open spec fn is_key(word: Token, names: Seq<Seq<char>>, key: (usize, bool)) -> bool {
    if word.bare && word.text.len() > 0 && word.text.last() == '-' {
        !key.1 && column_called(word.text.take(word.text.len() - 1), names) == Ok::<usize, Seq<char>>(
            key.0,
        )
    } else {
        key.1 && column_called(word.text, names) == Ok::<usize, Seq<char>>(key.0)
    }
}

/// Sort keys are the columns named, in that order, each in its own direction.
pub proof fn keys_are_named_in_order(words: Seq<Token>, names: Seq<Seq<char>>, keys: Seq<(usize, bool)>)
    ensures
        keys_called(words, names) == Ok::<Seq<(usize, bool)>, Seq<char>>(keys) <==> (keys.len()
            == words.len() && forall|i: int|
            0 <= i < words.len() ==> is_key(#[trigger] words[i], names, keys[i])),
    decreases words.len(),
{
    if words.len() == 0 {
        assert(keys.len() == 0 ==> keys =~= Seq::empty());
    } else {
        let front = words.drop_last();
        let fewer = keys.drop_last();
        keys_are_named_in_order(front, names, fewer);
        let last = words.last();
        assert(last.text.len() > 0 ==> last.text.drop_last() =~= last.text.take(last.text.len() - 1));
        if keys_called(words, names) == Ok::<Seq<(usize, bool)>, Seq<char>>(keys) {
            let before = keys_called(front, names)->Ok_0;
            assert(fewer =~= before);
            assert forall|i: int| 0 <= i < words.len() implies is_key(#[trigger] words[i], names, keys[i]) by {
                if i < front.len() {
                    assert(front[i] == words[i]);
                }
            }
        }
        if keys.len() == words.len() && forall|i: int|
            0 <= i < words.len() ==> is_key(#[trigger] words[i], names, keys[i]) {
            assert forall|i: int| 0 <= i < front.len() implies is_key(#[trigger] front[i], names, fewer[i]) by {
                assert(front[i] == words[i]);
            }
            assert(is_key(words[words.len() - 1], names, keys[keys.len() - 1]));
            assert(keys =~= fewer.push(keys.last()));
        }
    }
}

/// A value is read by its column: nothing as nothing, a pattern's text as the
/// pattern, and else a number, a truth value or text as the column holds them.
pub proof fn a_value_is_read_by_its_column(op: Op, name: Seq<char>, kind: ColumnType, value: Seq<char>)
    ensures
        ({
            let result = value_meant(op, name, kind, value);
            let pattern = op == Op::Matches || op == Op::NotMatches;
            &&& value.len() == 0 <==> result == Ok::<Literal, Seq<char>>(Literal::Empty)
            &&& pattern && value.len() > 0 && result is Ok ==> result == Ok::<Literal, Seq<char>>(
                Literal::Pattern(value),
            )
            &&& !pattern && value.len() > 0 ==> match kind {
                ColumnType::Text => result == Ok::<Literal, Seq<char>>(Literal::Text(value)),
                ColumnType::Bool => {
                    &&& value == "true"@ ==> result == Ok::<Literal, Seq<char>>(Literal::Bool(true))
                    &&& value == "false"@ ==> result == Ok::<Literal, Seq<char>>(Literal::Bool(false))
                    &&& value != "true"@ && value != "false"@ ==> result == Err::<Literal, Seq<char>>(
                        name + " is bool, and "@ + value + " is not"@,
                    )
                },
                ColumnType::Int => result == Ok::<Literal, Seq<char>>(Literal::Number(value)) || result
                    == Err::<Literal, Seq<char>>(name + " is i64, and "@ + value + " is not"@),
                ColumnType::Float => result == Ok::<Literal, Seq<char>>(Literal::Number(value)) || result
                    == Err::<Literal, Seq<char>>(name + " is f64, and "@ + value + " is not"@),
            }
        }),
{
    reveal_strlit("true");
    reveal_strlit("false");
    reveal_strlit(" is ");
    reveal_strlit("i64");
    reveal_strlit("f64");
    reveal_strlit("bool");
    reveal_strlit(", and ");
    reveal_strlit(" is bool, and ");
    reveal_strlit(" is i64, and ");
    reveal_strlit(" is f64, and ");
    reveal_strlit(" is not");
    assert("true"@.len() == 4 && "false"@.len() == 5);
    assert(name + " is bool, and "@ + value + " is not"@ =~= name + " is "@ + "bool"@ + ", and "@ + value
        + " is not"@);
    assert(name + " is i64, and "@ + value + " is not"@ =~= name + " is "@ + "i64"@ + ", and "@ + value
        + " is not"@);
    assert(name + " is f64, and "@ + value + " is not"@ =~= name + " is "@ + "f64"@ + ", and "@ + value
        + " is not"@);
    assert(kind == ColumnType::Bool ==> (fits(kind, value) <==> value.len() == 0 || value == "true"@
        || value == "false"@));
}

/// A line that is one verb alone takes back what that verb does, and a reset
/// everything.
pub proof fn a_verb_alone_takes_back_what_it_does(word: Token, known: Known)
    ensures
        ({
            let result = asked_for(seq![word], known);
            &&& word.text == "select"@ || word.text == "hide"@ ==> result == Ok::<Meaning, Seq<char>>(
                Meaning::Reset(Some(Slot::Select)),
            )
            &&& word.text == "filter"@ ==> result == Ok::<Meaning, Seq<char>>(
                Meaning::Reset(Some(Slot::Filter)),
            )
            &&& word.text == "sort"@ ==> result == Ok::<Meaning, Seq<char>>(Meaning::Sort(Seq::empty()))
            &&& word.text == "reset"@ ==> result == Ok::<Meaning, Seq<char>>(Meaning::Reset(None))
        }),
{
    lemma_verbs_differ();
    assert(seq![word].skip(1) =~= Seq::empty());
}

/// A verb with words behind it does what it says with what those words name.
pub proof fn a_verb_takes_the_words_behind_it(verb: Token, rest: Seq<Token>, known: Known)
    requires
        rest.len() > 0,
    ensures
        ({
            let words = seq![verb] + rest;
            let result = asked_for(words, known);
            &&& verb.text == "select"@ && !(rest.len() == 1 && rest[0].bare && rest[0].text == seq!['*']) ==> (
            match columns_called(rest, known.names) {
                Ok(columns) => result == Ok::<Meaning, Seq<char>>(Meaning::Select(columns)),
                Err(why) => result == Err::<Meaning, Seq<char>>(why),
            })
            &&& verb.text == "select"@ && rest.len() == 1 && rest[0].bare && rest[0].text == seq!['*']
                ==> result == Ok::<Meaning, Seq<char>>(Meaning::Reset(Some(Slot::Select)))
            &&& verb.text == "hide"@ ==> (match columns_called(rest, known.names) {
                Ok(columns) => result == Ok::<Meaning, Seq<char>>(Meaning::Hide(columns)),
                Err(why) => result == Err::<Meaning, Seq<char>>(why),
            })
            &&& verb.text == "filter"@ ==> (match conditions(words, 1, known) {
                Ok(all) => result == Ok::<Meaning, Seq<char>>(Meaning::Filter(all)),
                Err(why) => result == Err::<Meaning, Seq<char>>(why),
            })
            &&& verb.text == "sort"@ ==> (match keys_called(rest, known.names) {
                Ok(keys) => result == Ok::<Meaning, Seq<char>>(Meaning::Sort(keys)),
                Err(why) => result == Err::<Meaning, Seq<char>>(why),
            })
            &&& verb.text == "reset"@ && rest[0].text == "select"@ ==> result == Ok::<Meaning, Seq<char>>(
                Meaning::Reset(Some(Slot::Select)),
            )
            &&& verb.text == "reset"@ && rest[0].text == "filter"@ ==> result == Ok::<Meaning, Seq<char>>(
                Meaning::Reset(Some(Slot::Filter)),
            )
            &&& verb.text == "reset"@ && rest[0].text == "sort"@ ==> result == Ok::<Meaning, Seq<char>>(
                Meaning::Reset(Some(Slot::Sort)),
            )
        }),
{
    lemma_verbs_differ();
    reveal_strlit("*");
    assert("*"@ =~= seq!['*']);
    let words = seq![verb] + rest;
    assert(words.skip(1) =~= rest);
}

/// A line that starts with none of the verbs is refused, and so is an empty one.
pub proof fn other_words_are_no_commands(words: Seq<Token>, known: Known)
    requires
        words.len() > 0 ==> words[0].text != "select"@ && words[0].text != "hide"@ && words[0].text
            != "filter"@ && words[0].text != "sort"@ && words[0].text != "reset"@,
    ensures
        asked_for(words, known) == Err::<Meaning, Seq<char>>(
            if words.len() == 0 {
                "not a command: :"@
            } else {
                "not a command: :"@ + words[0].text
            },
        ),
{
}

proof fn lemma_verbs_differ()
    ensures
        "select"@ != "hide"@,
        "select"@ != "filter"@,
        "select"@ != "sort"@,
        "select"@ != "reset"@,
        "hide"@ != "filter"@,
        "hide"@ != "sort"@,
        "hide"@ != "reset"@,
        "filter"@ != "sort"@,
        "filter"@ != "reset"@,
        "sort"@ != "reset"@,
{
    reveal_strlit("select");
    reveal_strlit("hide");
    reveal_strlit("filter");
    reveal_strlit("sort");
    reveal_strlit("reset");
    assert("select"@[0] == 's' && "select"@[1] == 'e');
    assert("hide"@[0] == 'h');
    assert("filter"@[0] == 'f');
    assert("sort"@[0] == 's' && "sort"@[1] == 'o');
    assert("reset"@[0] == 'r');
}

/// No white space and no quote stands in a text.
pub open spec fn is_one_word(text: Seq<char>) -> bool {
    &&& text.len() > 0
    &&& forall|i: int| 0 <= i < text.len() ==> #[trigger] text[i] != '"' && !is_space(text[i])
}

proof fn lemma_reading_on(line: Seq<char>, word: Seq<char>, quoted: bool)
    requires
        lexed(line).quoted == quoted,
        quoted ==> lexed(line).word == Some(Token { text: Seq::empty(), bare: false }),
        !quoted ==> lexed(line).word is None,
        forall|i: int| 0 <= i < word.len() ==> #[trigger] word[i] != '"' && (quoted || !is_space(word[i])),
    ensures
        lexed(line + word) == (Lexed {
            word: if word.len() == 0 {
                lexed(line).word
            } else {
                Some(Token { text: word, bare: !quoted })
            },
            ..lexed(line)
        }),
    decreases word.len(),
{
    if word.len() == 0 {
        assert(line + word =~= line);
    } else {
        let front = word.drop_last();
        assert forall|i: int| 0 <= i < front.len() implies #[trigger] front[i] != '"' && (quoted
            || !is_space(front[i])) by {
            assert(front[i] == word[i]);
        }
        lemma_reading_on(line, front, quoted);
        assert((line + word).drop_last() =~= line + front);
        assert(word[word.len() - 1] == word.last());
        assert(front.push(word.last()) =~= word);
        assert(Seq::<char>::empty().push(word.last()) =~= front.push(word.last()) || front.len() > 0);
        assert(front.len() == 0 ==> word =~= Seq::<char>::empty().push(word.last()));
    }
}

/// A space ends a word: what is read of a line before it is a whole word of its
/// own, and what comes behind it another.
pub proof fn a_space_parts_two_words(line: Seq<char>, word: Seq<char>)
    requires
        !lexed(line).quoted,
        is_one_word(word),
    ensures
        ({
            let more = lexed(line + seq![' '] + word);
            &&& !more.quoted
            &&& more.all() == lexed(line).all().push(Token { text: word, bare: true })
        }),
{
    let spaced = line + seq![' '];
    assert(spaced.drop_last() =~= line);
    assert(is_space(' '));
    assert(lexed(spaced) == lexed(line).step(' '));
    lemma_reading_on(spaced, word, false);
    assert(lexed(spaced).words =~= lexed(line).all());
}

/// What stands between quotes is one word, white space and all.
pub proof fn quotes_keep_a_word_together(line: Seq<char>, word: Seq<char>)
    requires
        !lexed(line).quoted,
        !word.contains('"'),
    ensures
        ({
            let more = lexed(line + seq![' '] + seq!['"'] + word + seq!['"']);
            &&& !more.quoted
            &&& more.all() == lexed(line).all().push(Token { text: word, bare: false })
        }),
{
    let spaced = line + seq![' '];
    let begun = spaced + seq!['"'];
    let read = begun + word;
    let ended = read + seq!['"'];
    assert(spaced.drop_last() =~= line);
    assert(begun.drop_last() =~= spaced);
    assert(ended.drop_last() =~= read);
    assert(is_space(' '));
    assert(lexed(spaced) == lexed(line).step(' '));
    assert(lexed(begun) == lexed(spaced).step('"'));
    assert forall|i: int| 0 <= i < word.len() implies #[trigger] word[i] != '"' by {
        assert(word.contains(word[i]));
    }
    lemma_reading_on(begun, word, true);
    assert(lexed(ended) == lexed(read).step('"'));
    assert(word.len() == 0 ==> word =~= Seq::<char>::empty());
    assert(lexed(spaced).words =~= lexed(line).all());
}

/// The first word of a line is read as it stands.
pub proof fn a_line_starts_with_its_first_word(word: Seq<char>)
    requires
        is_one_word(word),
    ensures
        !lexed(word).quoted,
        lexed(word).all() == seq![Token { text: word, bare: true }],
{
    lemma_reading_on(Seq::empty(), word, false);
    assert(Seq::<char>::empty() + word =~= word);
    assert(lexed(word).all() =~= seq![Token { text: word, bare: true }]);
}

/// A line whose last quote is left open is refused, and any other says what its
/// words do.
pub proof fn a_line_says_what_its_words_do(line: Seq<char>, known: Known)
    ensures
        lexed(line).quoted ==> parsed(line, known) == Err::<Meaning, Seq<char>>("a quote is left open"@),
        !lexed(line).quoted ==> parsed(line, known) == asked_for(lexed(line).all(), known),
        lexed(line.push('"')).quoted == !lexed(line).quoted,
{
    assert(line.push('"').drop_last() =~= line);
}

} // verus!
