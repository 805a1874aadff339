//! Finding a value in a line of JSON by the keys that lead to it.
use vstd::prelude::*;
use vstd::utf8::encode_utf8;
use crate::data::json::{
    byte_at, closing, digits_end, fraction_stop, is_digit, members, members_from, number_stop,
    skip_space, space_end, string_end, string_stop, text_end, value_end, value_stop, Kind, Member,
};
use crate::text::same_bytes;

verus! {

/// Where a field of an object stands: its key, what its value is, and the
/// value's bounds in the line.
#[verifier::ext_equal]
pub struct Place {
    pub key: Seq<u8>,
    pub kind: Kind,
    pub from: int,
    pub to: int,
}

impl Place {
    pub open spec fn member(self, line: Seq<u8>) -> Member {
        Member { key: self.key, kind: self.kind, raw: line.subrange(self.from, self.to) }
    }

    pub open spec fn moved(self, by: int) -> Place {
        Place { from: self.from + by, to: self.to + by, ..self }
    }
}

/// The fields of an object from `at` on, past its opening brace or a comma.
pub open spec fn places_from(line: Seq<u8>, at: int) -> Option<Seq<Place>>
    decreases line.len() - at,
{
    let start = space_end(line, at);
    match string_stop(line, start) {
        None => None,
        Some(key_end) => {
            let colon = space_end(line, key_end);
            let value = space_end(line, colon + 1);
            if byte_at(line, colon) != Some(58u8) {
                None
            } else {
                match value_stop(line, value) {
                    None => None,
                    Some((kind, end)) => {
                        let next = space_end(line, end);
                        let place = Place {
                            key: line.subrange(start + 1, key_end - 1),
                            kind,
                            from: value,
                            to: end,
                        };
                        if byte_at(line, next) == Some(44u8) {
                            if next < at {
                                None
                            } else {
                                match places_from(line, next + 1) {
                                    None => None,
                                    Some(rest) => Some(seq![place] + rest),
                                }
                            }
                        } else if byte_at(line, next) == Some(125u8) && space_end(line, next + 1)
                            == line.len() {
                            Some(seq![place])
                        } else {
                            None
                        }
                    },
                }
            }
        },
    }
}

/// Where the top-level fields of a line stand, `None` where it is not an object.
pub open spec fn places(line: Seq<u8>) -> Option<Seq<Place>> {
    let open = space_end(line, 0);
    if byte_at(line, open) != Some(123u8) {
        None
    } else {
        let first = space_end(line, open + 1);
        if byte_at(line, first) == Some(125u8) {
            if space_end(line, first + 1) == line.len() {
                Some(Seq::empty())
            } else {
                None
            }
        } else {
            places_from(line, first)
        }
    }
}

pub open spec fn members_at(line: Seq<u8>, ps: Seq<Place>) -> Seq<Member> {
    ps.map_values(|p: Place| p.member(line))
}

proof fn lemma_members_from(line: Seq<u8>, at: int)
    ensures
        match places_from(line, at) {
            None => members_from(line, at) is None,
            Some(ps) => members_from(line, at) == Some(members_at(line, ps)) && ps.len() > 0,
        },
    decreases line.len() - at,
{
    let start = space_end(line, at);
    if let Some(key_end) = string_stop(line, start) {
        let colon = space_end(line, key_end);
        let value = space_end(line, colon + 1);
        if byte_at(line, colon) == Some(58u8) {
            if let Some((kind, end)) = value_stop(line, value) {
                let next = space_end(line, end);
                let place = Place {
                    key: line.subrange(start + 1, key_end - 1),
                    kind,
                    from: value,
                    to: end,
                };
                assert(members_at(line, seq![place]) =~= seq![place.member(line)]);
                if byte_at(line, next) == Some(44u8) && next >= at {
                    lemma_members_from(line, next + 1);
                    if let Some(rest) = places_from(line, next + 1) {
                        assert(members_at(line, seq![place] + rest) =~= seq![place.member(line)]
                            + members_at(line, rest));
                    }
                }
            }
        }
    }
}

/// The places of a line are where its fields stand.
pub proof fn places_hold_the_fields(line: Seq<u8>)
    ensures
        match places(line) {
            None => members(line) is None,
            Some(ps) => members(line) == Some(members_at(line, ps)),
        },
{
    let open = space_end(line, 0);
    if byte_at(line, open) == Some(123u8) {
        let first = space_end(line, open + 1);
        if byte_at(line, first) == Some(125u8) {
            assert(members_at(line, Seq::empty()) =~= Seq::empty());
        } else {
            lemma_members_from(line, first);
        }
    }
}

/// The last field under a key.
pub open spec fn named(ps: Seq<Place>, key: Seq<u8>) -> Option<int>
    decreases ps.len(),
{
    if ps.len() == 0 {
        None
    } else if ps.last().key == key {
        Some(ps.len() - 1)
    } else {
        named(ps.drop_last(), key)
    }
}

/// What a line has under a key, and where one would be added.
#[derive(Clone, Copy, Debug, PartialEq, Eq, Structural)]
pub enum Spot {
    /// The line is not an object.
    NoObject,
    /// The object has no such key. One more field would go in at `at`.
    Missing { at: usize, first: bool },
    /// The value, and its bounds in the line.
    There { kind: Kind, from: usize, to: usize },
}

/// Where a field more would go: behind the last one, or behind the brace.
pub open spec fn adding_at(line: Seq<u8>, ps: Seq<Place>) -> int {
    if ps.len() == 0 {
        space_end(line, 0) + 1
    } else {
        ps.last().to
    }
}

/// A line looked through for a key.
pub open spec fn is_spot(spot: Spot, line: Seq<u8>, key: Seq<u8>) -> bool {
    match places(line) {
        None => spot == Spot::NoObject,
        Some(ps) => match named(ps, key) {
            Some(i) => spot matches Spot::There { kind, from, to } && kind == ps[i].kind && from
                == ps[i].from && to == ps[i].to,
            None => spot matches Spot::Missing { at, first } && at == adding_at(line, ps) && first == (
            ps.len() == 0),
        },
    }
}

proof fn lemma_named_push(ps: Seq<Place>, p: Place, key: Seq<u8>)
    ensures
        named(ps.push(p), key) == if p.key == key {
            Some(ps.len() as int)
        } else {
            named(ps, key)
        },
{
    assert(ps.push(p).drop_last() =~= ps);
}

pub(crate) proof fn lemma_named(ps: Seq<Place>, key: Seq<u8>)
    ensures
        match named(ps, key) {
            Some(i) => 0 <= i < ps.len() && ps[i].key == key && forall|j: int|
                i < j < ps.len() ==> (#[trigger] ps[j]).key != key,
            None => forall|j: int| 0 <= j < ps.len() ==> (#[trigger] ps[j]).key != key,
        },
    decreases ps.len(),
{
    if ps.len() > 0 {
        let front = ps.drop_last();
        lemma_named(front, key);
        if ps.last().key != key {
            let low = match named(ps, key) {
                Some(i) => i + 1,
                None => 0,
            };
            assert forall|j: int| low <= j < ps.len() implies (#[trigger] ps[j]).key != key by {
                if j < front.len() {
                    assert(front[j] == ps[j]);
                }
            }
        }
    }
}

fn is_at(line: &[u8], at: usize, b: u8) -> (r: bool)
    ensures
        r == (byte_at(line@, at as int) == Some(b)),
{
    at < line.len() && line[at] == b
}

/// The places passed, the ones ahead, and what has been seen of them.
spec fn seen(ps: Seq<Place>, key: Seq<u8>, last: Option<(Kind, usize, usize)>, end: usize) -> bool {
    &&& ps.len() > 0 ==> end == ps.last().to
    &&& match named(ps, key) {
        Some(i) => last matches Some((kind, from, to)) && kind == ps[i].kind && from == ps[i].from
            && to == ps[i].to,
        None => last is None,
    }
}

/// Look for a key among the top-level fields of a line.
#[verifier::rlimit(40)]
#[verifier::spinoff_prover]
pub fn spot(line: &[u8], key: &[u8]) -> (r: Spot)
    ensures
        is_spot(r, line@, key@),
        r matches Spot::There { kind, from, to } ==> from < to <= line.len() && (kind == Kind::Str
            ==> from + 2 <= to),
        r matches Spot::Missing { at, first } ==> at <= line.len(),
{
    let open = skip_space(line, 0);
    if !is_at(line, open, 123) {
        return Spot::NoObject;
    }
    let first = skip_space(line, open + 1);
    if is_at(line, first, 125) {
        if skip_space(line, first + 1) == line.len() {
            return Spot::Missing { at: open + 1, first: true };
        }
        return Spot::NoObject;
    }
    let ghost whole = places_from(line@, first as int);
    assert(places(line@) == whole);
    let ghost mut ps: Seq<Place> = Seq::empty();
    let mut last: Option<(Kind, usize, usize)> = None;
    let mut end: usize = 0;
    let mut at: usize = first;
    proof {
        if let Some(rest) = whole {
            assert(ps + rest =~= rest);
        }
    }
    loop
        invariant
            at <= line.len(),
            places(line@) == whole,
            seen(ps, key@, last, end),
            end <= line.len(),
            last matches Some((kind, from, to)) ==> from < to <= line.len() && (kind == Kind::Str ==> from
                + 2 <= to),
            match places_from(line@, at as int) {
                Some(rest) => whole == Some(ps + rest),
                None => whole is None,
            },
        decreases line.len() - at,
    {
        let ghost was = at as int;
        let ghost before = ps;
        let start = skip_space(line, at);
        let key_end = match string_end(line, start) {
            Some(end) => end,
            None => {
                return Spot::NoObject;
            },
        };
        let colon = skip_space(line, key_end);
        if !is_at(line, colon, 58) {
            return Spot::NoObject;
        }
        let value = skip_space(line, colon + 1);
        let (kind, stop) = match value_end(line, value) {
            Some(found) => found,
            None => {
                return Spot::NoObject;
            },
        };
        let next = skip_space(line, stop);
        let name = vstd::slice::slice_subrange(line, start + 1, key_end - 1);
        let ghost place = Place {
            key: line@.subrange(start + 1, key_end - 1),
            kind,
            from: value as int,
            to: stop as int,
        };
        if same_bytes(name, key) {
            last = Some((kind, value, stop));
        }
        end = stop;
        proof {
            ps = ps.push(place);
            lemma_named_push(before, place, key@);
            assert(ps[ps.len() - 1] == place);
            if let Some(i) = named(before, key@) {
                lemma_named(before, key@);
                assert(ps[i] == before[i]);
            }
        }
        if is_at(line, next, 44) {
            at = next + 1;
            proof {
                if let Some(rest) = places_from(line@, at as int) {
                    assert(places_from(line@, was) == Some(seq![place] + rest));
                    assert(before + (seq![place] + rest) =~= ps + rest);
                }
            }
        } else if is_at(line, next, 125) && skip_space(line, next + 1) == line.len() {
            assert(before + seq![place] =~= ps);
            return match last {
                Some((kind, from, to)) => Spot::There { kind, from, to },
                None => Spot::Missing { at: end, first: false },
            };
        } else {
            return Spot::NoObject;
        }
    }
}

/// Keys as the bytes they are in a file.
pub open spec fn keys_of(path: Seq<String>) -> Seq<Seq<u8>> {
    path.map_values(|key: String| encode_utf8(key@))
}

/// The value that a path of keys leads to: what it is, and where in the line.
pub open spec fn found(line: Seq<u8>, path: Seq<Seq<u8>>) -> Option<(Kind, int, int)>
    decreases path.len(),
{
    if path.len() == 0 {
        None
    } else {
        match places(line) {
            None => None,
            Some(ps) => match named(ps, path[0]) {
                None => None,
                Some(i) => {
                    let (from, to) = (ps[i].from, ps[i].to);
                    if path.len() == 1 {
                        Some((ps[i].kind, from, to))
                    } else {
                        match found(line.subrange(from, to), path.skip(1)) {
                            None => None,
                            Some((kind, a, b)) => Some((kind, from + a, from + b)),
                        }
                    }
                },
            },
        }
    }
}

/// What a path of keys leads to, as bytes.
pub open spec fn value_under(line: Seq<u8>, path: Seq<Seq<u8>>) -> Option<(Kind, Seq<u8>)> {
    match found(line, path) {
        None => None,
        Some((kind, from, to)) => Some((kind, line.subrange(from, to))),
    }
}

/// Follow a path of keys, the first `depth` of which have been followed.
fn find_from<'a>(line: &'a [u8], path: &[String], depth: usize) -> (r: Option<(Kind, &'a [u8])>)
    requires
        depth < path.len(),
    ensures
        match r {
            Some((kind, raw)) => value_under(line@, keys_of(path@).skip(depth as int)) == Some(
                (kind, raw@),
            ) && (kind == Kind::Str ==> raw.len() >= 2),
            None => value_under(line@, keys_of(path@).skip(depth as int)) is None,
        },
    decreases path.len() - depth,
{
    let ghost keys = keys_of(path@).skip(depth as int);
    assert(keys[0] == encode_utf8(path@[depth as int]@));
    assert(keys.len() == path.len() - depth);
    let key = path[depth].as_str().as_bytes();
    proof {
        if let Some(ps) = places(line@) {
            lemma_named(ps, keys[0]);
        }
    }
    match spot(line, key) {
        Spot::There { kind, from, to } => {
            let raw = vstd::slice::slice_subrange(line, from, to);
            if depth + 1 == path.len() {
                Some((kind, raw))
            } else {
                assert(keys.skip(1) =~= keys_of(path@).skip(depth + 1));
                proof {
                    lemma_found_within(raw@, keys.skip(1));
                    if let Some((k, a, b)) = found(raw@, keys.skip(1)) {
                        assert(raw@.subrange(a, b) =~= line@.subrange(from + a, from + b));
                    }
                }
                find_from(raw, path, depth + 1)
            }
        },
        _ => None,
    }
}

/// The value that a path of keys leads to.
pub fn find<'a>(line: &'a [u8], path: &[String]) -> (r: Option<(Kind, &'a [u8])>)
    ensures
        match r {
            Some((kind, raw)) => value_under(line@, keys_of(path@)) == Some((kind, raw@)) && (kind
                == Kind::Str ==> raw.len() >= 2),
            None => value_under(line@, keys_of(path@)) is None,
        },
{
    if path.len() == 0 {
        return None;
    }
    assert(keys_of(path@).skip(0) =~= keys_of(path@));
    find_from(line, path, 0)
}

proof fn lemma_space_bounds(line: Seq<u8>, at: int)
    requires
        0 <= at <= line.len(),
    ensures
        at <= space_end(line, at) <= line.len(),
    decreases line.len() - at,
{
    if at < line.len() && crate::data::json::is_space(line[at]) {
        lemma_space_bounds(line, at + 1);
    }
}

proof fn lemma_digits_bounds(line: Seq<u8>, at: int)
    requires
        0 <= at <= line.len(),
    ensures
        at <= digits_end(line, at) <= line.len(),
        forall|j: int| at <= j < digits_end(line, at) ==> is_digit(#[trigger] line[j]),
    decreases line.len() - at,
{
    if at < line.len() && is_digit(line[at]) {
        lemma_digits_bounds(line, at + 1);
    }
}

proof fn lemma_text_bounds(line: Seq<u8>, at: int)
    requires
        0 <= at,
    ensures
        text_end(line, at) matches Some(end) ==> at < end <= line.len(),
    decreases line.len() - at,
{
    if at < line.len() {
        if line[at] == 92 {
            if at + 1 < line.len() {
                lemma_text_bounds(line, at + 2);
            }
        } else if line[at] != 34 && line[at] >= 32 {
            lemma_text_bounds(line, at + 1);
        }
    }
}

proof fn lemma_closing_bounds(line: Seq<u8>, at: int, depth: nat)
    requires
        0 <= at,
    ensures
        closing(line, at, depth) matches Some(end) ==> at < end <= line.len(),
    decreases line.len() - at,
{
    if at < line.len() {
        if line[at] == 34 {
            if let Some(end) = text_end(line, at + 1) {
                lemma_text_bounds(line, at + 1);
                lemma_closing_bounds(line, end, depth);
            }
        } else if line[at] == 123 || line[at] == 91 {
            lemma_closing_bounds(line, at + 1, depth + 1);
        } else if line[at] == 125 || line[at] == 93 {
            if depth > 1 {
                lemma_closing_bounds(line, at + 1, (depth - 1) as nat);
            }
        } else {
            lemma_closing_bounds(line, at + 1, depth);
        }
    }
}

proof fn lemma_number_bounds(line: Seq<u8>, at: int)
    requires
        0 <= at < line.len(),
    ensures
        number_stop(line, at) matches Some((kind, end)) ==> at < end <= line.len(),
{
    let whole = if byte_at(line, at) == Some(45u8) { at + 1 } else { at };
    lemma_digits_bounds(line, whole);
    let point = digits_end(line, whole);
    if byte_at(line, point) == Some(46u8) {
        lemma_digits_bounds(line, point + 1);
    }
    if let Some(exponent) = fraction_stop(line, point) {
        if byte_at(line, exponent) == Some(101u8) || byte_at(line, exponent) == Some(69u8) {
            let sign = byte_at(line, exponent + 1) == Some(43u8) || byte_at(line, exponent + 1) == Some(
                45u8,
            );
            let start = if sign { exponent + 2 } else { exponent + 1 };
            lemma_digits_bounds(line, start);
        }
    }
}

/// A value stands within its line, and a string keeps its quotes.
pub(crate) proof fn lemma_value_bounds(line: Seq<u8>, at: int)
    ensures
        value_stop(line, at) matches Some((kind, end)) ==> 0 <= at < end <= line.len() && (kind
            == Kind::Str ==> at + 2 <= end),
{
    if 0 <= at < line.len() {
        lemma_text_bounds(line, at + 1);
        lemma_closing_bounds(line, at, 0);
        lemma_number_bounds(line, at);
    }
}

/// The fields of an object stand one behind the other.
pub(crate) proof fn lemma_places_bounds(line: Seq<u8>, at: int)
    requires
        0 <= at <= line.len(),
    ensures
        places_from(line, at) matches Some(ps) ==> ps.len() > 0 && (forall|i: int|
            0 <= i < ps.len() ==> at < (#[trigger] ps[i]).from < ps[i].to < line.len()) && (forall|
            i: int,
            j: int,
        |
            0 <= i < j < ps.len() ==> (#[trigger] ps[i]).to < (#[trigger] ps[j]).from) && (forall|i: int|
            0 <= i < ps.len() ==> value_stop(line, (#[trigger] ps[i]).from) == Some(
                (ps[i].kind, ps[i].to),
            )),
    decreases line.len() - at,
{
    let start = space_end(line, at);
    lemma_space_bounds(line, at);
    if let Some(key_end) = string_stop(line, start) {
        lemma_text_bounds(line, start + 1);
        let colon = space_end(line, key_end);
        lemma_space_bounds(line, key_end);
        if byte_at(line, colon) == Some(58u8) {
            lemma_space_bounds(line, colon + 1);
            let value = space_end(line, colon + 1);
            lemma_value_bounds(line, value);
            if let Some((kind, end)) = value_stop(line, value) {
                let next = space_end(line, end);
                lemma_space_bounds(line, end);
                let place = Place {
                    key: line.subrange(start + 1, key_end - 1),
                    kind,
                    from: value,
                    to: end,
                };
                if byte_at(line, next) == Some(44u8) && next >= at {
                    lemma_places_bounds(line, next + 1);
                    if let Some(rest) = places_from(line, next + 1) {
                        let ps = seq![place] + rest;
                        assert(ps[0] == place);
                        assert forall|i: int| 0 < i < ps.len() implies ps[i] == #[trigger] rest[i - 1] by {}
                        assert forall|i: int| 0 <= i < ps.len() implies at < (#[trigger] ps[i]).from
                            < ps[i].to < line.len() && value_stop(line, ps[i].from) == Some(
                            (ps[i].kind, ps[i].to),
                        ) by {
                            if i > 0 {
                                assert(ps[i] == rest[i - 1]);
                            }
                        }
                        assert forall|i: int, j: int| 0 <= i < j < ps.len() implies (#[trigger] ps[i]).to
                            < (#[trigger] ps[j]).from by {
                            assert(ps[j] == rest[j - 1]);
                            if i > 0 {
                                assert(ps[i] == rest[i - 1]);
                            }
                        }
                    }
                }
            }
        }
    }
}

/// The top-level fields of a line stand within it.
pub(crate) proof fn lemma_places_within(line: Seq<u8>)
    ensures
        places(line) matches Some(ps) ==> forall|i: int|
            0 <= i < ps.len() ==> 0 < (#[trigger] ps[i]).from < ps[i].to < line.len() && value_stop(
                line,
                ps[i].from,
            ) == Some((ps[i].kind, ps[i].to)),
        places(line) is Some ==> 0 <= space_end(line, 0) < line.len() && line[space_end(line, 0)] == 123,
{
    lemma_space_bounds(line, 0);
    let open = space_end(line, 0);
    if byte_at(line, open) == Some(123u8) {
        lemma_space_bounds(line, open + 1);
        lemma_places_bounds(line, space_end(line, open + 1));
    }
}

pub(crate) proof fn lemma_found_within(line: Seq<u8>, path: Seq<Seq<u8>>)
    ensures
        found(line, path) matches Some((kind, from, to)) ==> 0 < from < to < line.len(),
    decreases path.len(),
{
    if path.len() > 0 {
        lemma_places_within(line);
        if let Some(ps) = places(line) {
            lemma_named(ps, path[0]);
            if let Some(i) = named(ps, path[0]) {
                if path.len() > 1 {
                    lemma_found_within(line.subrange(ps[i].from, ps[i].to), path.skip(1));
                }
            }
        }
    }
}

} // verus!
