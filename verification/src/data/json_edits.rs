//! What the edits of one record come to.
//!
//! Several cells of a record can be edited at once, at the top of it and within
//! the documents it holds. Each is put in behind the last, and none takes back
//! what another did.
use vstd::prelude::*;
use crate::data::edit::Pending;
use crate::data::json::{is_space, members, space_end, value_stop, Kind, Member};
use crate::data::json_path::{
    adding_at, found, keys_of, lemma_found_within, lemma_named, lemma_places_within, members_at, named,
    places, places_hold_the_fields, value_under, Place,
};
use crate::data::json_read_back::{
    a_missing_key_is_added_behind_the_others, a_typed_cell_reads_back, an_edit_replaces_one_value, is_key,
    is_value, kind_written, lemma_closing_from, lemma_object, lemma_object_is_a_value,
};
use crate::data::json_writer::{field_text, json_value, placed, spliced, Adding, JsonColumn};
use crate::data::jsonl::decoded;

verus! {

/// The last field under a key.
pub open spec fn last_named(ms: Seq<Member>, key: Seq<u8>) -> Option<int>
    decreases ms.len(),
{
    if ms.len() == 0 {
        None
    } else if ms.last().key == key {
        Some(ms.len() - 1)
    } else {
        last_named(ms.drop_last(), key)
    }
}

/// What a path of keys leads to in an object with these fields.
pub open spec fn member_under(ms: Seq<Member>, path: Seq<Seq<u8>>) -> Option<(Kind, Seq<u8>)> {
    match last_named(ms, path[0]) {
        None => None,
        Some(i) => if path.len() == 1 {
            Some((ms[i].kind, ms[i].raw))
        } else {
            value_under(ms[i].raw, path.skip(1))
        },
    }
}

proof fn lemma_last_named(ms: Seq<Member>, key: Seq<u8>)
    ensures
        match last_named(ms, key) {
            Some(i) => 0 <= i < ms.len() && ms[i].key == key,
            None => true,
        },
    decreases ms.len(),
{
    if ms.len() > 0 {
        lemma_last_named(ms.drop_last(), key);
    }
}

/// The places and the fields of a line are named alike.
proof fn lemma_named_as_members(line: Seq<u8>, ps: Seq<Place>, key: Seq<u8>)
    ensures
        last_named(members_at(line, ps), key) == named(ps, key),
    decreases ps.len(),
{
    let ms = members_at(line, ps);
    if ps.len() > 0 {
        lemma_named_as_members(line, ps.drop_last(), key);
        assert(ms.drop_last() =~= members_at(line, ps.drop_last()));
        assert(ms.last().key == ps.last().key);
    }
}

/// Where a path leads is told by the fields of a line.
proof fn lemma_value_under(line: Seq<u8>, path: Seq<Seq<u8>>)
    requires
        path.len() > 0,
    ensures
        value_under(line, path) == match members(line) {
            None => None,
            Some(ms) => member_under(ms, path),
        },
{
    places_hold_the_fields(line);
    if let Some(ps) = places(line) {
        let ms = members_at(line, ps);
        lemma_named_as_members(line, ps, path[0]);
        lemma_named(ps, path[0]);
        lemma_places_within(line);
        if let Some(i) = named(ps, path[0]) {
            let (from, to) = (ps[i].from, ps[i].to);
            assert(ms[i] == ps[i].member(line));
            assert(ms[i].raw == line.subrange(from, to));
            if path.len() > 1 {
                let inner = line.subrange(from, to);
                lemma_found_within(inner, path.skip(1));
                if let Some((kind, a, b)) = found(inner, path.skip(1)) {
                    assert(line.subrange(from + a, from + b) =~= inner.subrange(a, b));
                }
            }
        }
    }
}

/// Every key can stand between quotes.
pub open spec fn are_keys(path: Seq<Seq<u8>>) -> bool {
    forall|d: int| 0 <= d < path.len() ==> is_key(#[trigger] path[d])
}

/// Documents that hold nothing but one value.
spec fn nested(path: Seq<Seq<u8>>, value: Seq<u8>) -> Seq<u8> {
    seq![123u8] + field_text(path, value) + seq![125u8]
}

/// An object without a field.
spec fn empty_object() -> Seq<u8> {
    seq![123u8, 125u8]
}

proof fn lemma_empty_object()
    ensures
        places(empty_object()) == Some(Seq::<Place>::empty()),
        members(empty_object()) == Some(Seq::<Member>::empty()),
        adding_at(empty_object(), Seq::empty()) == 1,
{
    let doc = empty_object();
    reveal_with_fuel(space_end, 2);
    assert(space_end(doc, 0) == 0);
    assert(space_end(doc, 1) == 1);
    assert(space_end(doc, 2) == 2);
}

/// The field that a record has after something was put into it.
spec fn put_member(doc: Seq<u8>, path: Seq<Seq<u8>>, value: Seq<u8>, kind: Kind, adding: Adding) -> Member {
    let ps = places(doc)->Some_0;
    if path.len() == 1 {
        Member { key: path[0], kind, raw: value }
    } else {
        Member {
            key: path[0],
            kind: Kind::Nested,
            raw: match named(ps, path[0]) {
                Some(i) => placed(
                    doc.subrange(ps[i].from, ps[i].to),
                    path.skip(1),
                    value,
                    adding.within(),
                )->Some_0,
                None => nested(path.skip(1), value),
            },
        }
    }
}

/// The fields that a record has after something was put into it.
spec fn put_members(doc: Seq<u8>, path: Seq<Seq<u8>>, value: Seq<u8>, kind: Kind, adding: Adding) -> Seq<Member> {
    let ms = members(doc)->Some_0;
    let m = put_member(doc, path, value, kind, adding);
    match named(places(doc)->Some_0, path[0]) {
        Some(i) => ms.update(i, m),
        None => ms.push(m),
    }
}

/// A document with something put into it begins and ends as it did.
proof fn lemma_begins_and_ends(doc: Seq<u8>, path: Seq<Seq<u8>>, value: Seq<u8>, adding: Adding)
    requires
        doc.len() > 0,
        doc[0] == 123,
        !is_space(doc.last()),
        placed(doc, path, value, adding) is Some,
    ensures
        ({
            let now = placed(doc, path, value, adding)->Some_0;
            now.len() > 0 && now[0] == 123 && !is_space(now.last())
        }),
{
    lemma_object(doc);
    lemma_places_within(doc);
    let ps = places(doc)->Some_0;
    let now = placed(doc, path, value, adding)->Some_0;
    lemma_named(ps, path[0]);
    assert(space_end(doc, 0) == 0);
    match named(ps, path[0]) {
        Some(i) => {
            let (from, to) = (ps[i].from, ps[i].to);
            let bytes = if path.len() == 1 {
                value
            } else {
                placed(doc.subrange(from, to), path.skip(1), value, adding.within())->Some_0
            };
            assert(now == spliced(doc, from, to, bytes));
            assert(now[0] == doc[0]);
            assert(now.last() == doc.last());
        },
        None => {
            let at = adding_at(doc, ps);
            let comma = if ps.len() == 0 { Seq::empty() } else { seq![44u8] };
            assert(now == spliced(doc, at, at, comma + field_text(path, value)));
            if ps.len() > 0 {
                assert(0 < ps[ps.len() - 1].to < doc.len());
            }
            assert(0 < at < doc.len());
            assert(now[0] == doc[0]);
            assert(now.last() == doc.last());
        },
    }
}

/// A document that is a value of a record begins and ends as one.
proof fn lemma_inner_document(doc: Seq<u8>, from: int, to: int)
    requires
        0 <= from < to <= doc.len(),
        value_stop(doc, from) matches Some((kind, end)) && end == to,
        places(doc.subrange(from, to)) is Some,
    ensures
        doc.subrange(from, to)[0] == 123,
        !is_space(doc.subrange(from, to).last()),
{
    let inner = doc.subrange(from, to);
    lemma_object(inner);
    assert(inner[0] == doc[from]);
    assert(!is_space(doc[from]));
    assert(space_end(inner, 0) == 0);
    lemma_closing_from(doc, from, 0);
    assert(inner.last() == doc[to - 1]);
}

/// Putting something into a record changes one field of it or adds one.
#[verifier::spinoff_prover]
proof fn lemma_put_members(doc: Seq<u8>, path: Seq<Seq<u8>>, value: Seq<u8>, kind: Kind, adding: Adding)
    requires
        placed(doc, path, value, adding) is Some,
        is_value(value, kind),
        are_keys(path),
    ensures
        members(placed(doc, path, value, adding)->Some_0) == Some(put_members(doc, path, value, kind, adding)),
    decreases path.len(), 0int,
{
    let ps = places(doc)->Some_0;
    let now = placed(doc, path, value, adding)->Some_0;
    let key = path[0];
    let m = put_member(doc, path, value, kind, adding);
    assert(is_key(path[0]));
    lemma_named(ps, key);
    lemma_places_within(doc);
    if path.len() == 1 {
        assert(path =~= seq![key]);
        match named(ps, key) {
            Some(i) => {
                an_edit_replaces_one_value(doc, key, value, kind, adding);
            },
            None => {
                a_missing_key_is_added_behind_the_others(doc, key, value, kind);
                lemma_added_alike(doc, path, value, adding);
            },
        }
    } else {
        let rest = path.skip(1);
        assert forall|d: int| 0 <= d < rest.len() implies is_key(#[trigger] rest[d]) by {
            assert(rest[d] == path[d + 1]);
        }
        match named(ps, key) {
            Some(i) => {
                let (from, to) = (ps[i].from, ps[i].to);
                let inner = doc.subrange(from, to);
                lemma_put_members(inner, rest, value, kind, adding.within());
                places_hold_the_fields(m.raw);
                lemma_inner_document(doc, from, to);
                lemma_begins_and_ends(inner, rest, value, adding.within());
                lemma_object_is_a_value(m.raw);
                an_edit_replaces_one_value(doc, key, m.raw, Kind::Nested, adding);
                assert(placed(doc, seq![key], m.raw, adding) == Some(now));
            },
            None => {
                lemma_nested(rest, value, kind);
                a_missing_key_is_added_behind_the_others(doc, key, m.raw, Kind::Nested);
                assert(field_text(path, value) =~= field_text(seq![key], m.raw));
                lemma_added_alike(doc, path, value, adding);
                lemma_added_alike(doc, seq![key], m.raw, Adding::Here);
            },
        }
    }
}

/// What is written where a key is missing.
proof fn lemma_added_alike(doc: Seq<u8>, path: Seq<Seq<u8>>, value: Seq<u8>, adding: Adding)
    requires
        path.len() > 0,
        places(doc) matches Some(ps) && named(ps, path[0]) is None,
        adding.allows(path.len()),
    ensures
        ({
            let ps = places(doc)->Some_0;
            let at = adding_at(doc, ps);
            let comma = if ps.len() == 0 { Seq::empty() } else { seq![44u8] };
            placed(doc, path, value, adding) == Some(
                spliced(doc, at, at, comma + field_text(path, value)),
            )
        }),
{
}

/// Documents that hold nothing but one value are a value, and what an object
/// without a field becomes when the value is put into it.
proof fn lemma_nested(path: Seq<Seq<u8>>, value: Seq<u8>, kind: Kind)
    requires
        path.len() > 0,
        is_value(value, kind),
        are_keys(path),
    ensures
        placed(empty_object(), path, value, Adding::Anywhere) == Some(nested(path, value)),
        is_value(nested(path, value), Kind::Nested),
    decreases path.len(), 1int,
{
    let doc = empty_object();
    lemma_empty_object();
    lemma_added_alike(doc, path, value, Adding::Anywhere);
    assert(Seq::<u8>::empty() + field_text(path, value) =~= field_text(path, value));
    assert(spliced(doc, 1, 1, field_text(path, value)) =~= nested(path, value));
    lemma_put_members(doc, path, value, kind, Adding::Anywhere);
    places_hold_the_fields(nested(path, value));
    lemma_object_is_a_value(nested(path, value));
}

/// A field of an object replaced by one under the same key.
proof fn lemma_last_named_updated(ms: Seq<Member>, i: int, m: Member, key: Seq<u8>)
    requires
        0 <= i < ms.len(),
        ms[i].key == m.key,
    ensures
        last_named(ms.update(i, m), key) == last_named(ms, key),
    decreases ms.len(),
{
    let now = ms.update(i, m);
    if i == ms.len() - 1 {
        assert(now.drop_last() =~= ms.drop_last());
    } else {
        assert(now.drop_last() =~= ms.drop_last().update(i, m));
        lemma_last_named_updated(ms.drop_last(), i, m, key);
    }
}

/// Where a path leads once something was put into a record.
proof fn lemma_led(
    doc: Seq<u8>,
    path: Seq<Seq<u8>>,
    value: Seq<u8>,
    kind: Kind,
    adding: Adding,
    other: Seq<Seq<u8>>,
)
    requires
        placed(doc, path, value, adding) is Some,
        is_value(value, kind),
        are_keys(path),
        other.len() > 0,
    ensures
        ({
            let now = placed(doc, path, value, adding)->Some_0;
            let m = put_member(doc, path, value, kind, adding);
            value_under(now, other) == if other[0] != path[0] {
                value_under(doc, other)
            } else if other.len() == 1 {
                Some((m.kind, m.raw))
            } else {
                value_under(m.raw, other.skip(1))
            }
        }),
{
    let ps = places(doc)->Some_0;
    let now = placed(doc, path, value, adding)->Some_0;
    let m = put_member(doc, path, value, kind, adding);
    let ms = members_at(doc, ps);
    lemma_put_members(doc, path, value, kind, adding);
    places_hold_the_fields(doc);
    lemma_value_under(doc, other);
    lemma_value_under(now, other);
    lemma_named_as_members(doc, ps, path[0]);
    lemma_named_as_members(doc, ps, other[0]);
    lemma_last_named(ms, path[0]);
    lemma_last_named(ms, other[0]);
    match named(ps, path[0]) {
        Some(i) => {
            lemma_last_named_updated(ms, i, m, other[0]);
            if let Some(j) = last_named(ms, other[0]) {
                if other[0] != path[0] {
                    assert(j != i);
                    assert(ms.update(i, m)[j] == ms[j]);
                }
            }
        },
        None => {
            assert(ms.push(m).drop_last() =~= ms);
            if let Some(j) = last_named(ms, other[0]) {
                assert(ms.push(m)[j] == ms[j]);
            }
        },
    }
}

/// What is put into a record is found where it was put, whether a value stood
/// there, or the key had to be added, or the documents around it as well.
pub proof fn what_is_put_is_found(
    doc: Seq<u8>,
    path: Seq<Seq<u8>>,
    value: Seq<u8>,
    kind: Kind,
    adding: Adding,
)
    requires
        placed(doc, path, value, adding) is Some,
        is_value(value, kind),
        are_keys(path),
    ensures
        value_under(placed(doc, path, value, adding)->Some_0, path) == Some((kind, value)),
    decreases path.len(),
{
    lemma_led(doc, path, value, kind, adding, path);
    if path.len() > 1 {
        let ps = places(doc)->Some_0;
        let rest = path.skip(1);
        assert forall|d: int| 0 <= d < rest.len() implies is_key(#[trigger] rest[d]) by {
            assert(rest[d] == path[d + 1]);
        }
        match named(ps, path[0]) {
            Some(i) => {
                what_is_put_is_found(
                    doc.subrange(ps[i].from, ps[i].to),
                    rest,
                    value,
                    kind,
                    adding.within(),
                );
            },
            None => {
                lemma_nested(rest, value, kind);
                what_is_put_is_found(empty_object(), rest, value, kind, Adding::Anywhere);
            },
        }
    }
}

/// Neither of two paths goes on from the other.
pub open spec fn are_apart(a: Seq<Seq<u8>>, b: Seq<Seq<u8>>) -> bool
    decreases a.len(),
{
    a.len() > 0 && b.len() > 0 && (a[0] != b[0] || are_apart(a.skip(1), b.skip(1)))
}

/// A path leads nowhere in documents that hold nothing but a value elsewhere.
proof fn lemma_nowhere(path: Seq<Seq<u8>>)
    requires
        path.len() > 0,
    ensures
        value_under(empty_object(), path) is None,
{
    lemma_empty_object();
    lemma_value_under(empty_object(), path);
}

/// What is put into a record changes nothing that another path leads to, unless
/// one of the paths goes on from the other.
pub proof fn what_is_put_leaves_the_rest(
    doc: Seq<u8>,
    path: Seq<Seq<u8>>,
    value: Seq<u8>,
    kind: Kind,
    adding: Adding,
    other: Seq<Seq<u8>>,
)
    requires
        placed(doc, path, value, adding) is Some,
        is_value(value, kind),
        are_keys(path),
        are_apart(path, other),
    ensures
        value_under(placed(doc, path, value, adding)->Some_0, other) == value_under(doc, other),
    decreases path.len(),
{
    lemma_led(doc, path, value, kind, adding, other);
    if other[0] == path[0] {
        let ps = places(doc)->Some_0;
        let rest = path.skip(1);
        let on = other.skip(1);
        assert(are_apart(rest, on));
        assert(rest.len() > 0 && on.len() > 0);
        assert forall|d: int| 0 <= d < rest.len() implies is_key(#[trigger] rest[d]) by {
            assert(rest[d] == path[d + 1]);
        }
        lemma_value_under(doc, other);
        places_hold_the_fields(doc);
        lemma_named_as_members(doc, ps, path[0]);
        lemma_named(ps, path[0]);
        match named(ps, path[0]) {
            Some(i) => {
                let inner = doc.subrange(ps[i].from, ps[i].to);
                assert(members_at(doc, ps)[i] == ps[i].member(doc));
                what_is_put_leaves_the_rest(inner, rest, value, kind, adding.within(), on);
            },
            None => {
                lemma_nested(rest, value, kind);
                what_is_put_leaves_the_rest(empty_object(), rest, value, kind, Adding::Anywhere, on);
                lemma_nowhere(on);
            },
        }
    }
}

impl Pending {
    /// The edits of a row are in columns whose keys can stand in a record, and
    /// no two of them go on from one another.
    pub open spec fn edits_apart(self, row: usize, columns: Seq<JsonColumn>) -> bool {
        &&& forall|c: int|
            0 <= c < columns.len() && self.cells.contains_key((row, c as usize)) ==> are_keys(
                keys_of((#[trigger] columns[c]).path@),
            )
        &&& forall|a: int, b: int|
            0 <= a < b < columns.len() && self.cells.contains_key((row, a as usize))
                && self.cells.contains_key((row, b as usize)) ==> are_apart(
                keys_of((#[trigger] columns[b]).path@),
                keys_of((#[trigger] columns[a]).path@),
            )
    }
}

proof fn lemma_landed(p: Pending, row: usize, doc: Seq<u8>, columns: Seq<JsonColumn>, adding: Adding, n: nat)
    ensures
        p.json_row(row, doc, columns, adding, n).1 <= p.edits_under(row, n),
    decreases n,
{
    if n > 0 {
        lemma_landed(p, row, doc, columns, adding, (n - 1) as nat);
    }
}

/// Every edit of a record that is written is found in it: under the path of its
/// column stands what was typed, as the column's kind has it written, and reading
/// that gives what was typed.
pub proof fn every_edit_is_found(
    p: Pending,
    row: usize,
    doc: Seq<u8>,
    columns: Seq<JsonColumn>,
    adding: Adding,
    n: nat,
    c: int,
)
    requires
        0 <= c < n <= columns.len() <= usize::MAX,
        p.edits_apart(row, columns),
        p.json_row(row, doc, columns, adding, n).1 == p.edits_under(row, n),
        p.cells.contains_key((row, c as usize)),
    ensures
        ({
            let text = p.cells[(row, c as usize)];
            let kind = columns[c].kind;
            &&& value_under(p.json_row(row, doc, columns, adding, n).0, keys_of(columns[c].path@)) == Some(
                (kind_written(text, kind), json_value(text, kind)),
            )
            &&& decoded(kind_written(text, kind), json_value(text, kind)) == if text.len() == 0 {
                None
            } else {
                Some(text)
            }
        }),
    decreases n,
{
    let before = p.json_row(row, doc, columns, adding, (n - 1) as nat);
    let column = columns[n - 1];
    let cell = (row, (n - 1) as usize);
    let path = keys_of(column.path@);
    lemma_landed(p, row, doc, columns, adding, (n - 1) as nat);
    if p.cells.contains_key(cell) {
        let text = p.cells[cell];
        let value = json_value(text, column.kind);
        a_typed_cell_reads_back(text, column.kind);
        assert(placed(before.0, path, value, adding) is Some);
        assert(are_keys(keys_of(columns[n - 1].path@)));
        if c == n - 1 {
            what_is_put_is_found(before.0, path, value, kind_written(text, column.kind), adding);
        } else {
            every_edit_is_found(p, row, doc, columns, adding, (n - 1) as nat, c);
            let other = keys_of(columns[c].path@);
            assert(are_apart(keys_of(columns[n - 1].path@), other));
            what_is_put_leaves_the_rest(
                before.0,
                path,
                value,
                kind_written(text, column.kind),
                adding,
                other,
            );
        }
    } else {
        every_edit_is_found(p, row, doc, columns, adding, (n - 1) as nat, c);
    }
}

/// What is not edited in a record stays as it is: a path that goes on from no
/// edited column, nor one from it, leads to what it led to.
pub proof fn what_is_not_edited_stays(
    p: Pending,
    row: usize,
    doc: Seq<u8>,
    columns: Seq<JsonColumn>,
    adding: Adding,
    n: nat,
    path: Seq<Seq<u8>>,
)
    requires
        n <= columns.len() <= usize::MAX,
        p.edits_apart(row, columns),
        forall|c: int|
            0 <= c < n && p.cells.contains_key((row, c as usize)) ==> are_apart(
                keys_of((#[trigger] columns[c]).path@),
                path,
            ),
    ensures
        value_under(p.json_row(row, doc, columns, adding, n).0, path) == value_under(doc, path),
    decreases n,
{
    if n > 0 {
        what_is_not_edited_stays(p, row, doc, columns, adding, (n - 1) as nat, path);
        let before = p.json_row(row, doc, columns, adding, (n - 1) as nat);
        let column = columns[n - 1];
        let cell = (row, (n - 1) as usize);
        if p.cells.contains_key(cell) {
            let text = p.cells[cell];
            let value = json_value(text, column.kind);
            let keys = keys_of(column.path@);
            a_typed_cell_reads_back(text, column.kind);
            assert(are_keys(keys_of(columns[n - 1].path@)));
            assert(are_apart(keys_of(columns[n - 1].path@), path));
            if placed(before.0, keys, value, adding) is Some {
                what_is_put_leaves_the_rest(
                    before.0,
                    keys,
                    value,
                    kind_written(text, column.kind),
                    adding,
                    path,
                );
            }
        }
    }
}

/// A record without an edit of its own survives a write exactly.
pub proof fn a_record_without_edits_survives(
    p: Pending,
    row: usize,
    doc: Seq<u8>,
    columns: Seq<JsonColumn>,
    adding: Adding,
    n: nat,
)
    requires
        forall|c: usize| !p.cells.contains_key((row, c)),
    ensures
        p.json_row(row, doc, columns, adding, n) == (doc, 0nat),
    decreases n,
{
    if n > 0 {
        a_record_without_edits_survives(p, row, doc, columns, adding, (n - 1) as nat);
    }
}

} // verus!
