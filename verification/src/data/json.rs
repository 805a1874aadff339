//! Telling the parts of a line of JSON apart, without building a document.
use vstd::prelude::*;

verus! {

/// What a value is.
#[derive(Clone, Copy, Debug, PartialEq, Eq, Structural)]
pub enum Kind {
    Null,
    Bool,
    Int,
    Float,
    Str,
    /// An object or an array, kept as the file's own bytes.
    Nested,
}

pub open spec fn is_space(b: u8) -> bool {
    b == 32 || b == 9 || b == 13
}

pub open spec fn is_digit(b: u8) -> bool {
    48 <= b <= 57
}

/// The byte at a place, if the line has one there.
pub open spec fn byte_at(line: Seq<u8>, at: int) -> Option<u8> {
    if 0 <= at < line.len() {
        Some(line[at])
    } else {
        None
    }
}

/// The first place from `at` on that is not space.
pub open spec fn space_end(line: Seq<u8>, at: int) -> int
    decreases line.len() - at,
{
    if 0 <= at < line.len() && is_space(line[at]) {
        space_end(line, at + 1)
    } else {
        at
    }
}

/// The first place from `at` on that is not a digit.
pub open spec fn digits_end(line: Seq<u8>, at: int) -> int
    decreases line.len() - at,
{
    if 0 <= at < line.len() && is_digit(line[at]) {
        digits_end(line, at + 1)
    } else {
        at
    }
}

/// One past the quote that closes a string whose text begins at `at`. A raw
/// control character is not allowed in a JSON string.
pub open spec fn text_end(line: Seq<u8>, at: int) -> Option<int>
    decreases line.len() - at,
{
    if at < 0 || at >= line.len() {
        None
    } else if line[at] == 92 {
        if at + 1 < line.len() {
            text_end(line, at + 2)
        } else {
            None
        }
    } else if line[at] == 34 {
        Some(at + 1)
    } else if line[at] < 32 {
        None
    } else {
        text_end(line, at + 1)
    }
}

/// One past the closing quote of the string starting at `at`.
pub open spec fn string_stop(line: Seq<u8>, at: int) -> Option<int> {
    if byte_at(line, at) == Some(34u8) {
        text_end(line, at + 1)
    } else {
        None
    }
}

/// A point and digits, if a point stands at `at`. `None` where digits are
/// missing.
pub open spec fn fraction_stop(line: Seq<u8>, at: int) -> Option<int> {
    if byte_at(line, at) == Some(46u8) {
        if digits_end(line, at + 1) == at + 1 {
            None
        } else {
            Some(digits_end(line, at + 1))
        }
    } else {
        Some(at)
    }
}

/// An exponent, if one stands at `at`. `None` where its digits are missing.
pub open spec fn exponent_stop(line: Seq<u8>, at: int) -> Option<int> {
    if byte_at(line, at) == Some(101u8) || byte_at(line, at) == Some(69u8) {
        let sign = byte_at(line, at + 1) == Some(43u8) || byte_at(line, at + 1) == Some(45u8);
        let start = if sign { at + 2 } else { at + 1 };
        if digits_end(line, start) == start {
            None
        } else {
            Some(digits_end(line, start))
        }
    } else {
        Some(at)
    }
}

/// A number in the shape JSON allows, so `01` and `1.` are not numbers. A
/// fraction or an exponent makes it one that is not whole.
pub open spec fn number_stop(line: Seq<u8>, at: int) -> Option<(Kind, int)> {
    let whole = if byte_at(line, at) == Some(45u8) { at + 1 } else { at };
    let point = digits_end(line, whole);
    if point == whole || (point - whole > 1 && line[whole] == 48) {
        None
    } else {
        match fraction_stop(line, point) {
            None => None,
            Some(exponent) => match exponent_stop(line, exponent) {
                None => None,
                Some(end) => Some((if end == point { Kind::Int } else { Kind::Float }, end)),
            },
        }
    }
}

/// The end of an object or array `depth` of which are open at `at`, stepping
/// over strings so a brace inside one does not close it.
pub open spec fn closing(line: Seq<u8>, at: int, depth: nat) -> Option<int>
    decreases line.len() - at,
{
    if at < 0 || at >= line.len() {
        None
    } else if line[at] == 34 {
        match text_end(line, at + 1) {
            None => None,
            Some(end) => if end <= at || end > line.len() {
                None
            } else {
                closing(line, end, depth)
            },
        }
    } else if line[at] == 123 || line[at] == 91 {
        closing(line, at + 1, depth + 1)
    } else if line[at] == 125 || line[at] == 93 {
        if depth <= 1 {
            Some(at + 1)
        } else {
            closing(line, at + 1, (depth - 1) as nat)
        }
    } else {
        closing(line, at + 1, depth)
    }
}

/// A word stands at `at`.
pub open spec fn word_at(line: Seq<u8>, at: int, word: Seq<u8>) -> bool {
    at + word.len() <= line.len() && line.subrange(at, at + word.len()) == word
}

pub open spec fn true_word() -> Seq<u8> {
    seq![116u8, 114, 117, 101]
}

pub open spec fn false_word() -> Seq<u8> {
    seq![102u8, 97, 108, 115, 101]
}

pub open spec fn null_word() -> Seq<u8> {
    seq![110u8, 117, 108, 108]
}

/// What the value at `at` is, and where it ends.
pub open spec fn value_stop(line: Seq<u8>, at: int) -> Option<(Kind, int)> {
    match byte_at(line, at) {
        None => None,
        Some(b) => if b == 34 {
            match string_stop(line, at) {
                Some(end) => Some((Kind::Str, end)),
                None => None,
            }
        } else if b == 123 || b == 91 {
            match closing(line, at, 0) {
                Some(end) => Some((Kind::Nested, end)),
                None => None,
            }
        } else if b == 116 {
            if word_at(line, at, true_word()) {
                Some((Kind::Bool, at + 4))
            } else {
                None
            }
        } else if b == 102 {
            if word_at(line, at, false_word()) {
                Some((Kind::Bool, at + 5))
            } else {
                None
            }
        } else if b == 110 {
            if word_at(line, at, null_word()) {
                Some((Kind::Null, at + 4))
            } else {
                None
            }
        } else if b == 45 || is_digit(b) {
            number_stop(line, at)
        } else {
            None
        },
    }
}

/// One field of an object: its key, what its value is, and the value's bytes.
#[verifier::ext_equal]
pub struct Member {
    pub key: Seq<u8>,
    pub kind: Kind,
    pub raw: Seq<u8>,
}

/// The fields of an object from `at` on, past its opening brace or a comma.
pub open spec fn members_from(line: Seq<u8>, at: int) -> Option<Seq<Member>>
    decreases line.len() - at,
{
    let start = space_end(line, at);
    match string_stop(line, start) {
        None => None,
        Some(key_end) => {
            let colon = space_end(line, key_end);
            let value = space_end(line, colon + 1);
            if byte_at(line, colon) != Some(58u8) {
                None
            } else {
                match value_stop(line, value) {
                    None => None,
                    Some((kind, end)) => {
                        let next = space_end(line, end);
                        let member = Member {
                            key: line.subrange(start + 1, key_end - 1),
                            kind,
                            raw: line.subrange(value, end),
                        };
                        if byte_at(line, next) == Some(44u8) {
                            if next < at {
                                None
                            } else {
                                match members_from(line, next + 1) {
                                    None => None,
                                    Some(rest) => Some(seq![member] + rest),
                                }
                            }
                        } else if byte_at(line, next) == Some(125u8) && space_end(line, next + 1)
                            == line.len() {
                            Some(seq![member])
                        } else {
                            None
                        }
                    },
                }
            }
        },
    }
}

/// The top-level fields of a line, or `None` where it is not a JSON object: a
/// blank line, a stack trace someone let into the log, a bare array.
pub open spec fn members(line: Seq<u8>) -> Option<Seq<Member>> {
    let open = space_end(line, 0);
    if byte_at(line, open) != Some(123u8) {
        None
    } else {
        let first = space_end(line, open + 1);
        if byte_at(line, first) == Some(125u8) {
            if space_end(line, first + 1) == line.len() {
                Some(Seq::empty())
            } else {
                None
            }
        } else {
            members_from(line, first)
        }
    }
}

pub fn skip_space(line: &[u8], at: usize) -> (end: usize)
    requires
        at <= line.len(),
    ensures
        end == space_end(line@, at as int),
        at <= end <= line.len(),
{
    let mut i = at;
    while i < line.len() && (line[i] == 32 || line[i] == 9 || line[i] == 13)
        invariant
            at <= i <= line.len(),
            space_end(line@, i as int) == space_end(line@, at as int),
        decreases line.len() - i,
    {
        i += 1;
    }
    i
}

fn skip_digits(line: &[u8], at: usize) -> (end: usize)
    requires
        at <= line.len(),
    ensures
        end == digits_end(line@, at as int),
        at <= end <= line.len(),
{
    let mut i = at;
    while i < line.len() && 48 <= line[i] && line[i] <= 57
        invariant
            at <= i <= line.len(),
            digits_end(line@, i as int) == digits_end(line@, at as int),
        decreases line.len() - i,
    {
        i += 1;
    }
    i
}

fn is_at(line: &[u8], at: usize, b: u8) -> (r: bool)
    ensures
        r == (byte_at(line@, at as int) == Some(b)),
{
    at < line.len() && line[at] == b
}

/// One past the closing quote of the string starting at `at`.
pub fn string_end(line: &[u8], at: usize) -> (end: Option<usize>)
    ensures
        match end {
            Some(end) => string_stop(line@, at as int) == Some(end as int) && at + 2 <= end <= line.len(),
            None => string_stop(line@, at as int) is None,
        },
{
    let n: usize = line.len();
    if at >= n || line[at] != 34 {
        return None;
    }
    let mut i: usize = at + 1;
    while i < line.len()
        invariant
            at + 1 <= i <= line.len(),
            byte_at(line@, at as int) == Some(34u8),
            text_end(line@, i as int) == text_end(line@, at + 1),
        decreases line.len() - i,
    {
        let b = line[i];
        if b == 92 {
            if line.len() - i < 2 {
                return None;
            }
            i += 2;
        } else if b == 34 {
            return Some(i + 1);
        } else if b < 32 {
            // Letting one through would make a line of prose with a brace in
            // it read as a record.
            return None;
        } else {
            i += 1;
        }
    }
    None
}

/// Where the number at `at` ends, and whether it is whole.
pub fn number_end(line: &[u8], at: usize) -> (end: Option<(Kind, usize)>)
    requires
        at < line.len(),
    ensures
        match end {
            Some((kind, end)) => number_stop(line@, at as int) == Some((kind, end as int)) && at < end
                <= line.len() && kind != Kind::Str,
            None => number_stop(line@, at as int) is None,
        },
{
    let whole: usize = if is_at(line, at, 45) { at + 1 } else { at };
    let point = skip_digits(line, whole);
    if point == whole || (point - whole > 1 && line[whole] == 48) {
        return None;
    }
    let mut i: usize = point;
    let mut kind = Kind::Int;
    if is_at(line, i, 46) {
        let start: usize = i + 1;
        i = skip_digits(line, start);
        if i == start {
            return None;
        }
        kind = Kind::Float;
    }
    let ghost exponent = i as int;
    assert(fraction_stop(line@, point as int) == Some(exponent));
    if is_at(line, i, 101) || is_at(line, i, 69) {
        let start: usize = if is_at(line, i + 1, 43) || is_at(line, i + 1, 45) { i + 2 } else { i + 1 };
        i = skip_digits(line, start);
        if i == start {
            return None;
        }
        kind = Kind::Float;
    }
    assert(exponent_stop(line@, exponent) == Some(i as int));
    Some((kind, i))
}

/// The end of an object or array, counting depth and stepping over strings so
/// a brace inside one does not close it.
pub fn nested_end(line: &[u8], at: usize) -> (end: Option<usize>)
    requires
        at < line.len(),
    ensures
        match end {
            Some(end) => closing(line@, at as int, 0) == Some(end as int) && at < end <= line.len(),
            None => closing(line@, at as int, 0) is None,
        },
{
    let mut depth: usize = 0;
    let mut i: usize = at;
    while i < line.len()
        invariant
            at <= i <= line.len(),
            depth <= i,
            closing(line@, i as int, depth as nat) == closing(line@, at as int, 0),
        decreases line.len() - i,
    {
        let b = line[i];
        if b == 34 {
            match string_end(line, i) {
                None => {
                    return None;
                },
                Some(end) => {
                    i = end;
                },
            }
        } else if b == 123 || b == 91 {
            depth += 1;
            i += 1;
        } else if b == 125 || b == 93 {
            if depth <= 1 {
                return Some(i + 1);
            }
            depth -= 1;
            i += 1;
        } else {
            i += 1;
        }
    }
    None
}

fn word_stands(line: &[u8], at: usize, a: u8, b: u8, c: u8, d: u8) -> (r: bool)
    requires
        at < line.len(),
    ensures
        r == word_at(line@, at as int, seq![a, b, c, d]),
{
    if line.len() - at < 4 {
        return false;
    }
    let r = line[at] == a && line[at + 1] == b && line[at + 2] == c && line[at + 3] == d;
    proof {
        let got = line@.subrange(at as int, at + 4);
        let want = seq![a, b, c, d];
        assert(got[0] == line@[at as int] && got[1] == line@[at + 1] && got[2] == line@[at + 2] && got[3]
            == line@[at + 3]);
        assert(want[0] == a && want[1] == b && want[2] == c && want[3] == d);
        if r {
            assert(got =~= want);
        }
    }
    r
}

/// What the value at `at` is, and where it ends.
pub fn value_end(line: &[u8], at: usize) -> (end: Option<(Kind, usize)>)
    ensures
        match end {
            Some((kind, end)) => value_stop(line@, at as int) == Some((kind, end as int)) && at < end
                <= line.len() && (kind == Kind::Str ==> at + 2 <= end),
            None => value_stop(line@, at as int) is None,
        },
{
    if at >= line.len() {
        return None;
    }
    let b = line[at];
    if b == 34 {
        match string_end(line, at) {
            Some(end) => Some((Kind::Str, end)),
            None => None,
        }
    } else if b == 123 || b == 91 {
        match nested_end(line, at) {
            Some(end) => Some((Kind::Nested, end)),
            None => None,
        }
    } else if b == 116 {
        if word_stands(line, at, 116, 114, 117, 101) {
            Some((Kind::Bool, at + 4))
        } else {
            None
        }
    } else if b == 102 {
        let long = line.len() - at >= 5 && line[at + 4] == 101;
        let r = long && word_stands(line, at, 102, 97, 108, 115);
        proof {
            let got = line@.subrange(at as int, at + 5);
            let four = line@.subrange(at as int, at + 4);
            if r {
                assert(four == seq![102u8, 97, 108, 115]);
                assert(four[0] == got[0] && four[1] == got[1] && four[2] == got[2] && four[3] == got[3]);
                assert(got =~= false_word());
            } else if word_at(line@, at as int, false_word()) {
                assert(got == false_word());
                assert(got[4] == 101);
                assert(four =~= seq![102u8, 97, 108, 115]) by {
                    assert(four[0] == got[0] && four[1] == got[1] && four[2] == got[2] && four[3]
                        == got[3]);
                }
            }
        }
        if r {
            Some((Kind::Bool, at + 5))
        } else {
            None
        }
    } else if b == 110 {
        if word_stands(line, at, 110, 117, 108, 108) {
            Some((Kind::Null, at + 4))
        } else {
            None
        }
    } else if b == 45 || (48 <= b && b <= 57) {
        number_end(line, at)
    } else {
        None
    }
}

/// A field as it stands in a line.
pub struct Part<'a> {
    pub key: &'a [u8],
    pub kind: Kind,
    pub raw: &'a [u8],
}

impl<'a> Part<'a> {
    pub open spec fn member(self) -> Member {
        Member { key: self.key@, kind: self.kind, raw: self.raw@ }
    }
}

/// Fields as they stand in a line, each as its bytes.
pub open spec fn members_of(parts: Seq<Part>) -> Seq<Member> {
    parts.map_values(|p: Part| p.member())
}

/// The top-level fields of one record.
///
/// `None` when the line is not a JSON object. Only *top-level* keys become
/// fields; anything deeper stays inside its value. One rule, and it ties the
/// column count to the shape of a record rather than to its depth.
pub fn fields_of<'a>(line: &'a [u8]) -> (out: Option<Vec<Part<'a>>>)
    ensures
        match out {
            Some(parts) => members(line@) == Some(members_of(parts@)),
            None => members(line@) is None,
        },
        // A string keeps its quotes.
        out matches Some(parts) ==> forall|i: int|
            0 <= i < parts@.len() && (#[trigger] parts@[i]).kind == Kind::Str ==> parts@[i].raw@.len() >= 2,
{
    let open = skip_space(line, 0);
    if !is_at(line, open, 123) {
        return None;
    }
    let mut parts: Vec<Part<'a>> = Vec::new();
    assert(members_of(parts@) =~= Seq::empty());
    let first = skip_space(line, open + 1);
    if is_at(line, first, 125) {
        if skip_space(line, first + 1) == line.len() {
            return Some(parts);
        }
        return None;
    }
    let mut at: usize = first;
    let ghost whole = members_from(line@, first as int);
    assert(members(line@) == whole);
    proof {
        if let Some(rest) = whole {
            assert(members_of(parts@) + rest =~= rest);
        }
    }
    loop
        invariant
            at <= line.len(),
            members(line@) == whole,
            forall|i: int|
                0 <= i < parts@.len() && (#[trigger] parts@[i]).kind == Kind::Str ==> parts@[i].raw@.len()
                    >= 2,
            match members_from(line@, at as int) {
                Some(rest) => whole == Some(members_of(parts@) + rest),
                None => whole is None,
            },
        decreases line.len() - at,
    {
        let ghost was = at as int;
        let start = skip_space(line, at);
        let key_end = match string_end(line, start) {
            Some(end) => end,
            None => {
                return None;
            },
        };
        let colon = skip_space(line, key_end);
        if !is_at(line, colon, 58) {
            return None;
        }
        let value = skip_space(line, colon + 1);
        let (kind, end) = match value_end(line, value) {
            Some(found) => found,
            None => {
                return None;
            },
        };
        let next = skip_space(line, end);
        let ghost before = members_of(parts@);
        parts.push(
            Part {
                key: vstd::slice::slice_subrange(line, start + 1, key_end - 1),
                kind,
                raw: vstd::slice::slice_subrange(line, value, end),
            },
        );
        let ghost member = Member {
            key: line@.subrange(start + 1, key_end - 1),
            kind,
            raw: line@.subrange(value as int, end as int),
        };
        assert(members_of(parts@) =~= before.push(member));
        if is_at(line, next, 44) {
            at = next + 1;
            proof {
                if let Some(rest) = members_from(line@, at as int) {
                    assert(members_from(line@, was) == Some(seq![member] + rest));
                    assert(before + (seq![member] + rest) =~= before.push(member) + rest);
                }
            }
        } else if is_at(line, next, 125) && skip_space(line, next + 1) == line.len() {
            proof {
                assert(before + seq![member] =~= before.push(member));
            }
            return Some(parts);
        } else {
            return None;
        }
    }
}

} // verus!
