//! Reading a written file back.
//!
//! A write is worth its care only if the file means afterwards what the edits
//! said: the records that are read back are the old ones, edited where an edit
//! was pending, without the struck ones and with the added ones.
use vstd::prelude::*;
use vstd::utf8::encode_utf8;
use vstd::utf8::encode_scalar;
use crate::data::edit::Pending;
use crate::data::writer::{
    all_bytes, body, doubled, encoded, joined, lemma_parsed_wf, lemma_so_far, needs_quotes, output,
    parsed, record_bytes, records_of, row_count, shape_of, so_far, Parsed, Record, Shape,
};
use crate::text::{lemma_encode_concat, lemma_encode_one, lemma_scalar_bytes};

verus! {

/// A separator that is none of the bytes with a meaning of their own.
pub open spec fn separates(separator: u8) -> bool {
    separator != 34 && separator != 10 && separator != 13
}

/// The bytes stay within one field, whatever follows them.
pub open spec fn within_a_field(field: Seq<u8>, separator: u8) -> bool {
    parsed(field, separator).records.len() == 0 && parsed(field, separator).fields.len() == 0
}

/// The bytes are one field: a separator or a line ending behind them ends it.
pub open spec fn is_a_field(field: Seq<u8>, separator: u8) -> bool {
    within_a_field(field, separator) && (parsed(field, separator).in_quotes ==> parsed(
        field,
        separator,
    ).pending_quote)
}

/// The last byte is a carriage return that a newline behind it would take.
pub open spec fn ends_in_cr(field: Seq<u8>, separator: u8) -> bool {
    parsed(field, separator).pending_cr
}

/// A record that its line ending closes.
pub open spec fn is_closed(record: Record, separator: u8) -> bool {
    &&& record.fields.len() > 0
    &&& forall|f: int| 0 <= f < record.fields.len() ==> is_a_field(#[trigger] record.fields[f], separator)
    &&& record.eol == seq![13u8, 10u8] || (record.eol == seq![10u8] && !ends_in_cr(
        record.fields.last(),
        separator,
    ))
}

/// A record that the end of the file closes.
pub open spec fn is_last(record: Record, separator: u8) -> bool {
    &&& record.fields.len() > 0
    &&& record.eol.len() == 0
    &&& forall|f: int|
        0 <= f < record.fields.len() - 1 ==> is_a_field(#[trigger] record.fields[f], separator)
    &&& within_a_field(record.fields.last(), separator)
    &&& joined(record.fields, separator).len() > 0
}

spec fn run(at: Parsed, bytes: Seq<u8>, separator: u8) -> Parsed
    decreases bytes.len(),
{
    if bytes.len() == 0 {
        at
    } else {
        run(at, bytes.drop_last(), separator).byte(bytes.last(), separator)
    }
}

proof fn lemma_run_parsed(bytes: Seq<u8>, separator: u8)
    ensures
        run(Parsed::start(), bytes, separator) == parsed(bytes, separator),
    decreases bytes.len(),
{
    if bytes.len() > 0 {
        lemma_run_parsed(bytes.drop_last(), separator);
    }
}

proof fn lemma_run_concat(at: Parsed, a: Seq<u8>, b: Seq<u8>, separator: u8)
    ensures
        run(at, a + b, separator) == run(run(at, a, separator), b, separator),
    decreases b.len(),
{
    if b.len() == 0 {
        assert(a + b =~= a);
    } else {
        lemma_run_concat(at, a, b.drop_last(), separator);
        assert((a + b).drop_last() =~= a + b.drop_last());
        assert((a + b).last() == b.last());
    }
}

/// About to read a field.
spec fn before_field(records: Seq<Record>, fields: Seq<Seq<u8>>) -> Parsed {
    Parsed { records, fields, record_started: fields.len() > 0, ..Parsed::start() }
}

/// A field reads the same wherever it stands.
proof fn lemma_field_anywhere(
    records: Seq<Record>,
    fields: Seq<Seq<u8>>,
    field: Seq<u8>,
    separator: u8,
)
    requires
        within_a_field(field, separator),
    ensures
        parsed(field, separator).field_started == (field.len() > 0),
        run(before_field(records, fields), field, separator) == (Parsed {
            records,
            fields,
            record_started: fields.len() > 0 || field.len() > 0,
            ..parsed(field, separator)
        }),
    decreases field.len(),
{
    if field.len() > 0 {
        let front = field.drop_last();
        assert(within_a_field(front, separator));
        lemma_field_anywhere(records, fields, front, separator);
        lemma_parsed_wf(front, separator);
    }
}

/// What a field holds is its bytes.
proof fn lemma_field_bytes(field: Seq<u8>, separator: u8)
    requires
        within_a_field(field, separator),
    ensures
        field == parsed(field, separator).field + (if ends_in_cr(field, separator) {
            seq![13u8]
        } else {
            Seq::empty()
        }),
{
    let s = parsed(field, separator);
    lemma_so_far(field, separator);
    lemma_parsed_wf(field, separator);
    assert(s.fields.push(s.field).len() == 1);
    assert(joined(s.fields.push(s.field), separator) == s.field);
    assert(so_far(s, separator) =~= s.field + (if s.pending_cr {
        seq![13u8]
    } else {
        Seq::empty()
    }));
}

proof fn lemma_run_one(at: Parsed, b: u8, separator: u8)
    ensures
        run(at, seq![b], separator) == at.byte(b, separator),
{
    assert(seq![b].drop_last() =~= Seq::empty());
    reveal_with_fuel(run, 2);
}

proof fn lemma_field_then_separator(
    records: Seq<Record>,
    fields: Seq<Seq<u8>>,
    field: Seq<u8>,
    separator: u8,
)
    requires
        is_a_field(field, separator),
        separates(separator),
    ensures
        run(before_field(records, fields), field.push(separator), separator) == before_field(
            records,
            fields.push(field),
        ),
{
    lemma_field_anywhere(records, fields, field, separator);
    lemma_field_bytes(field, separator);
    lemma_parsed_wf(field, separator);
    assert(field.push(separator).drop_last() =~= field);
    let s = parsed(field, separator);
    if s.pending_cr {
        assert(s.field.push(13) =~= field);
    } else {
        assert(s.field =~= field);
    }
}

proof fn lemma_field_then_eol(
    records: Seq<Record>,
    fields: Seq<Seq<u8>>,
    field: Seq<u8>,
    eol: Seq<u8>,
    separator: u8,
)
    requires
        is_a_field(field, separator),
        separates(separator),
        eol == seq![13u8, 10u8] || (eol == seq![10u8] && !ends_in_cr(field, separator)),
    ensures
        run(before_field(records, fields), field + eol, separator) == before_field(
            records.push(Record { fields: fields.push(field), eol }),
            Seq::empty(),
        ),
{
    let start = before_field(records, fields);
    lemma_field_anywhere(records, fields, field, separator);
    lemma_field_bytes(field, separator);
    lemma_parsed_wf(field, separator);
    let s = parsed(field, separator);
    let after = run(start, field, separator);
    if eol == seq![10u8] {
        assert(s.field =~= field);
        lemma_run_concat(start, field, eol, separator);
        lemma_run_one(after, 10, separator);
    } else {
        assert(eol =~= seq![13u8] + seq![10u8]);
        lemma_run_concat(start, field, eol, separator);
        lemma_run_concat(after, seq![13u8], seq![10u8], separator);
        lemma_run_one(after, 13, separator);
        lemma_run_one(after.byte(13, separator), 10, separator);
        if s.pending_cr {
            assert(s.field.push(13) =~= field);
        } else {
            assert(s.field =~= field);
        }
    }
}

/// Fields, each with a separator behind it.
spec fn led(fields: Seq<Seq<u8>>, separator: u8) -> Seq<u8>
    decreases fields.len(),
{
    if fields.len() == 0 {
        Seq::empty()
    } else {
        led(fields.drop_last(), separator) + fields.last().push(separator)
    }
}

proof fn lemma_led(fields: Seq<Seq<u8>>, separator: u8)
    requires
        fields.len() > 0,
    ensures
        joined(fields, separator) == led(fields.drop_last(), separator) + fields.last(),
    decreases fields.len(),
{
    let front = fields.drop_last();
    if front.len() == 0 {
        assert(led(front, separator) + fields.last() =~= fields[0]);
    } else {
        lemma_led(front, separator);
        assert(led(front, separator) =~= joined(front, separator).push(separator));
    }
}

proof fn lemma_run_led(records: Seq<Record>, fields: Seq<Seq<u8>>, separator: u8)
    requires
        separates(separator),
        forall|f: int| 0 <= f < fields.len() ==> is_a_field(#[trigger] fields[f], separator),
    ensures
        run(before_field(records, Seq::empty()), led(fields, separator), separator) == before_field(
            records,
            fields,
        ),
    decreases fields.len(),
{
    let start = before_field(records, Seq::empty());
    if fields.len() == 0 {
        assert(fields =~= Seq::empty());
    } else {
        let front = fields.drop_last();
        assert forall|f: int| 0 <= f < front.len() implies is_a_field(#[trigger] front[f], separator) by {
            assert(front[f] == fields[f]);
        }
        lemma_run_led(records, front, separator);
        lemma_run_concat(start, led(front, separator), fields.last().push(separator), separator);
        assert(is_a_field(fields[fields.len() - 1], separator));
        lemma_field_then_separator(records, front, fields.last(), separator);
        assert(front.push(fields.last()) =~= fields);
    }
}

proof fn lemma_run_record(records: Seq<Record>, record: Record, separator: u8)
    requires
        separates(separator),
        is_closed(record, separator),
    ensures
        run(
            before_field(records, Seq::empty()),
            record_bytes(record, separator),
            separator,
        ) == before_field(records.push(record), Seq::empty()),
{
    let fields = record.fields;
    let front = fields.drop_last();
    let last = fields.last();
    let start = before_field(records, Seq::empty());
    lemma_led(fields, separator);
    assert forall|f: int| 0 <= f < front.len() implies is_a_field(#[trigger] front[f], separator) by {
        assert(front[f] == fields[f]);
    }
    assert(is_a_field(fields[fields.len() - 1], separator));
    lemma_run_led(records, front, separator);
    assert(record_bytes(record, separator) =~= led(front, separator) + (last + record.eol));
    lemma_run_concat(start, led(front, separator), last + record.eol, separator);
    lemma_field_then_eol(records, front, last, record.eol, separator);
    assert(front.push(last) =~= fields);
    assert(Record { fields: front.push(last), eol: record.eol } =~= record);
}

proof fn lemma_run_records(records: Seq<Record>, separator: u8)
    requires
        separates(separator),
        forall|r: int| 0 <= r < records.len() ==> is_closed(#[trigger] records[r], separator),
    ensures
        parsed(all_bytes(records, separator), separator) == before_field(records, Seq::empty()),
    decreases records.len(),
{
    if records.len() == 0 {
        assert(records =~= Seq::empty());
        assert(before_field(records, Seq::empty()) =~= Parsed::start());
    } else {
        let front = records.drop_last();
        assert forall|r: int| 0 <= r < front.len() implies is_closed(#[trigger] front[r], separator) by {
            assert(front[r] == records[r]);
        }
        assert(is_closed(records[records.len() - 1], separator));
        lemma_run_records(front, separator);
        lemma_run_parsed(all_bytes(front, separator), separator);
        lemma_run_parsed(all_bytes(records, separator), separator);
        lemma_run_concat(
            Parsed::start(),
            all_bytes(front, separator),
            record_bytes(records.last(), separator),
            separator,
        );
        lemma_run_record(front, records.last(), separator);
        assert(front.push(records.last()) =~= records);
    }
}

/// Records written one behind the other are read back as they were: every one
/// but the last closed by its line ending, the last by that or by the end of
/// the file.
pub proof fn records_read_back(records: Seq<Record>, separator: u8)
    requires
        separates(separator),
        forall|r: int| 0 <= r < records.len() - 1 ==> is_closed(#[trigger] records[r], separator),
        records.len() > 0 ==> is_closed(records.last(), separator) || is_last(records.last(), separator),
    ensures
        records_of(all_bytes(records, separator), separator) == records,
{
    if records.len() == 0 || is_closed(records.last(), separator) {
        assert forall|r: int| 0 <= r < records.len() implies is_closed(#[trigger] records[r], separator) by {
            if r == records.len() - 1 {
                assert(records[r] == records.last());
            }
        }
        lemma_run_records(records, separator);
    } else {
        let front = records.drop_last();
        let record = records.last();
        let fields = record.fields;
        let lead = fields.drop_last();
        let last = fields.last();
        assert forall|r: int| 0 <= r < front.len() implies is_closed(#[trigger] front[r], separator) by {
            assert(front[r] == records[r]);
        }
        assert forall|f: int| 0 <= f < lead.len() implies is_a_field(#[trigger] lead[f], separator) by {
            assert(lead[f] == fields[f]);
        }
        lemma_run_records(front, separator);
        lemma_run_parsed(all_bytes(front, separator), separator);
        lemma_run_parsed(all_bytes(records, separator), separator);
        lemma_run_concat(
            Parsed::start(),
            all_bytes(front, separator),
            record_bytes(record, separator),
            separator,
        );
        lemma_led(fields, separator);
        assert(record_bytes(record, separator) =~= led(lead, separator) + last);
        let start = before_field(front, Seq::empty());
        lemma_run_concat(start, led(lead, separator), last, separator);
        lemma_run_led(front, lead, separator);
        lemma_field_anywhere(front, lead, last, separator);
        lemma_field_bytes(last, separator);
        let s = parsed(last, separator);
        if s.pending_cr {
            assert(s.field.push(13) =~= last);
        } else {
            assert(s.field =~= last);
        }
        if lead.len() == 0 {
            assert(led(lead, separator) + last =~= last);
        }
        assert(lead.push(last) =~= fields);
        assert(record.eol =~= Seq::empty());
        assert(Record { fields: lead.push(last), eol: Seq::empty() } =~= record);
        assert(front.push(record) =~= records);
    }
}

/// The field at hand reads the same on its own.
spec fn alone(at: Parsed, separator: u8) -> bool {
    at.field_started ==> parsed(
        at.field + (if at.pending_cr {
            seq![13u8]
        } else {
            Seq::empty()
        }),
        separator,
    ) == (Parsed { records: Seq::empty(), fields: Seq::empty(), ..at })
}

/// Everything read so far can be read again.
spec fn rereads(at: Parsed, separator: u8) -> bool {
    &&& forall|r: int| 0 <= r < at.records.len() ==> is_closed(#[trigger] at.records[r], separator)
    &&& forall|f: int| 0 <= f < at.fields.len() ==> is_a_field(#[trigger] at.fields[f], separator)
    &&& alone(at, separator)
}

proof fn lemma_parsed_push(bytes: Seq<u8>, b: u8, separator: u8)
    ensures
        parsed(bytes.push(b), separator) == parsed(bytes, separator).byte(b, separator),
{
    assert(bytes.push(b).drop_last() =~= bytes);
}

proof fn lemma_nothing_is_a_field(separator: u8)
    ensures
        is_a_field(Seq::empty(), separator),
        !ends_in_cr(Seq::empty(), separator),
{
}

/// One more byte that stands outside quotes and behind no carriage return.
proof fn lemma_rereads_plain(at: Parsed, b: u8, separator: u8)
    requires
        rereads(at, separator),
        at.wf(),
        at.in_quotes ==> at.pending_quote,
        separates(separator),
        b != 34 || !at.in_quotes,
    ensures
        rereads(at.byte(b, separator), separator),
{
    let held = at.field + (if at.pending_cr {
        seq![13u8]
    } else {
        Seq::empty()
    });
    let next = at.byte(b, separator);
    lemma_nothing_is_a_field(separator);
    if !at.field_started {
        assert(held =~= Seq::empty());
        assert(at.field =~= Seq::empty());
    }
    lemma_parsed_push(held, b, separator);
    lemma_parsed_push(at.field, 13, separator);
    if at.pending_cr {
        assert(held =~= at.field.push(13));
    } else {
        assert(held =~= at.field);
    }
    if at.pending_cr && b == 10 {
        // The carriage return belongs to the line ending.
        lemma_parsed_wf(at.field, separator);
        assert(is_a_field(at.field, separator));
        lemma_closes(at.records, at.fields, at.field, seq![13u8, 10u8], separator);
    } else if b == 10 {
        assert(is_a_field(held, separator));
        lemma_closes(at.records, at.fields, held, seq![10u8], separator);
    } else if b == separator {
        assert(is_a_field(held, separator));
        assert forall|f: int| 0 <= f < next.fields.len() implies is_a_field(
            #[trigger] next.fields[f],
            separator,
        ) by {
            if f < at.fields.len() {
                assert(next.fields[f] == at.fields[f]);
            }
        }
    } else if b == 13 {
        assert(next.field + seq![13u8] =~= held.push(13));
    } else {
        assert(next.field + Seq::<u8>::empty() =~= held.push(b));
    }
}

proof fn lemma_closes(
    records: Seq<Record>,
    fields: Seq<Seq<u8>>,
    field: Seq<u8>,
    eol: Seq<u8>,
    separator: u8,
)
    requires
        forall|r: int| 0 <= r < records.len() ==> is_closed(#[trigger] records[r], separator),
        forall|f: int| 0 <= f < fields.len() ==> is_a_field(#[trigger] fields[f], separator),
        is_a_field(field, separator),
        eol == seq![13u8, 10u8] || (eol == seq![10u8] && !ends_in_cr(field, separator)),
    ensures
        ({
            let next = records.push(Record { fields: fields.push(field), eol });
            forall|r: int| 0 <= r < next.len() ==> is_closed(#[trigger] next[r], separator)
        }),
{
    let record = Record { fields: fields.push(field), eol };
    let next = records.push(record);
    assert(record.fields.last() == field);
    assert forall|f: int| 0 <= f < record.fields.len() implies is_a_field(
        #[trigger] record.fields[f],
        separator,
    ) by {
        if f < fields.len() {
            assert(record.fields[f] == fields[f]);
        }
    }
    assert(is_closed(record, separator));
    assert forall|r: int| 0 <= r < next.len() implies is_closed(#[trigger] next[r], separator) by {
        if r < records.len() {
            assert(next[r] == records[r]);
        }
    }
}

proof fn lemma_rereads(bytes: Seq<u8>, separator: u8)
    requires
        separates(separator),
    ensures
        rereads(parsed(bytes, separator), separator),
    decreases bytes.len(),
{
    if bytes.len() > 0 {
        let front = bytes.drop_last();
        let b = bytes.last();
        let at = parsed(front, separator);
        lemma_rereads(front, separator);
        lemma_parsed_wf(front, separator);
        if at.in_quotes && !(at.pending_quote && b != 34) {
            let next = at.byte(b, separator);
            lemma_parsed_push(at.field, b, separator);
            assert(at.field + Seq::<u8>::empty() =~= at.field);
            assert(next.field + Seq::<u8>::empty() =~= at.field.push(b));
        } else {
            lemma_rereads_plain(at, b, separator);
        }
    }
}

/// The records of a file are such as can be read back.
proof fn lemma_records_of(bytes: Seq<u8>, separator: u8)
    requires
        separates(separator),
    ensures
        ({
            let records = records_of(bytes, separator);
            &&& forall|r: int|
                0 <= r < records.len() - 1 ==> is_closed(#[trigger] records[r], separator)
            &&& records.len() > 0 ==> is_closed(records.last(), separator) || is_last(
                records.last(),
                separator,
            )
        }),
{
    let at = parsed(bytes, separator);
    let records = records_of(bytes, separator);
    lemma_rereads(bytes, separator);
    lemma_parsed_wf(bytes, separator);
    if at.record_started {
        let held = at.field + (if at.pending_cr {
            seq![13u8]
        } else {
            Seq::empty()
        });
        assert(at.field.push(13) =~= at.field + seq![13u8]);
        assert(at.field + Seq::<u8>::empty() =~= at.field);
        lemma_nothing_is_a_field(separator);
        if !at.field_started {
            assert(held =~= Seq::empty());
        }
        assert(within_a_field(held, separator));
        let record = Record { fields: at.fields.push(held), eol: Seq::empty() };
        assert(records =~= at.records.push(record));
        assert forall|f: int| 0 <= f < record.fields.len() - 1 implies is_a_field(
            #[trigger] record.fields[f],
            separator,
        ) by {
            assert(record.fields[f] == at.fields[f]);
        }
        lemma_led(record.fields, separator);
        assert(record.fields.drop_last() =~= at.fields);
        if at.fields.len() == 0 {
            lemma_held_bytes(at, separator);
        }
        assert(is_last(record, separator));
    } else {
        assert(records == at.records);
        if records.len() > 0 {
            assert(is_closed(records[records.len() - 1], separator));
        }
    }
}

proof fn lemma_held_bytes(at: Parsed, separator: u8)
    requires
        at.wf(),
        at.record_started,
        at.fields.len() == 0,
        alone(at, separator),
    ensures
        at.field.len() > 0 || at.pending_cr,
{
    let held = at.field + (if at.pending_cr {
        seq![13u8]
    } else {
        Seq::empty()
    });
    if at.field.len() == 0 && !at.pending_cr {
        assert(held =~= Seq::empty());
        assert(!parsed(held, separator).field_started);
    }
}

/// A byte that ends nothing and begins no quotes.
spec fn is_plain(b: u8, separator: u8) -> bool {
    b != separator && b != 34 && b != 10 && b != 13
}

proof fn lemma_plain_field(field: Seq<u8>, separator: u8)
    requires
        forall|i: int| 0 <= i < field.len() ==> is_plain(#[trigger] field[i], separator),
    ensures
        within_a_field(field, separator),
        !parsed(field, separator).in_quotes,
        !ends_in_cr(field, separator),
    decreases field.len(),
{
    if field.len() > 0 {
        let front = field.drop_last();
        assert forall|i: int| 0 <= i < front.len() implies is_plain(#[trigger] front[i], separator) by {
            assert(front[i] == field[i]);
        }
        assert(is_plain(field[field.len() - 1], separator));
        lemma_plain_field(front, separator);
        lemma_parsed_wf(front, separator);
    }
}

/// Inside quotes and on no quote.
spec fn is_quoting(at: Parsed) -> bool {
    at.in_quotes && !at.pending_quote && at.records.len() == 0 && at.fields.len() == 0
}

proof fn lemma_quoting(at: Parsed, bytes: Seq<u8>, separator: u8)
    requires
        is_quoting(at),
        !bytes.contains(34),
    ensures
        is_quoting(run(at, bytes, separator)),
    decreases bytes.len(),
{
    if bytes.len() > 0 {
        let front = bytes.drop_last();
        assert(!front.contains(34)) by {
            if front.contains(34) {
                let i = choose|i: int| 0 <= i < front.len() && front[i] == 34;
                assert(bytes[i] == 34);
            }
        }
        lemma_quoting(at, front, separator);
        assert(bytes[bytes.len() - 1] != 34);
    }
}

proof fn lemma_quote_byte()
    ensures
        encode_utf8(seq!['"']) == seq![34u8],
{
    assert(vstd::utf8::is_ascii_chars(seq!['"']));
    vstd::utf8::is_ascii_chars_encode_utf8(seq!['"']);
    assert(seq!['"'][0] as u8 == encode_utf8(seq!['"'])[0]);
    assert(encode_utf8(seq!['"']) =~= seq![34u8]);
}

proof fn lemma_quoted(value: Seq<char>, separator: u8)
    requires
        separates(separator),
    ensures
        is_quoting(parsed(seq![34u8] + encode_utf8(doubled(value)), separator)),
    decreases value.len(),
{
    lemma_quote_byte();
    if value.len() == 0 {
        assert(seq![34u8] + encode_utf8(doubled(value)) =~= seq![34u8]);
        lemma_run_parsed(seq![34u8], separator);
        lemma_run_one(Parsed::start(), 34, separator);
    } else {
        let front = value.drop_last();
        let c = value.last();
        let before = seq![34u8] + encode_utf8(doubled(front));
        lemma_quoted(front, separator);
        lemma_run_parsed(before, separator);
        let at = parsed(before, separator);
        if c == '"' {
            let two = seq!['"', '"'];
            assert(two =~= seq!['"'] + seq!['"']);
            lemma_encode_concat(seq!['"'], seq!['"']);
            lemma_encode_concat(doubled(front), two);
            let all = seq![34u8] + encode_utf8(doubled(value));
            assert(all =~= before.push(34).push(34));
            lemma_parsed_push(before, 34, separator);
            lemma_parsed_push(before.push(34), 34, separator);
        } else {
            assert(doubled(value) =~= doubled(front) + seq![c]);
            lemma_encode_concat(doubled(front), seq![c]);
            lemma_encode_one(c);
            lemma_scalar_bytes(c, 34);
            let more = encode_scalar(c as u32);
            assert(34u8 as char == '"');
            assert(!more.contains(34));
            lemma_quoting(at, more, separator);
            lemma_run_concat(Parsed::start(), before, more, separator);
            lemma_run_parsed(before + more, separator);
            assert(seq![34u8] + encode_utf8(doubled(value)) =~= before + more);
        }
    }
}

/// A value is written as one field, and not one that a newline could change.
pub proof fn a_value_is_written_as_one_field(value: Seq<char>, separator: u8)
    requires
        separates(separator),
    ensures
        is_a_field(encode_utf8(encoded(value, separator)), separator),
        !ends_in_cr(encode_utf8(encoded(value, separator)), separator),
{
    let bytes = encode_utf8(encoded(value, separator));
    if needs_quotes(value, separator) {
        lemma_quote_byte();
        lemma_quoted(value, separator);
        let quoting = seq![34u8] + encode_utf8(doubled(value));
        lemma_encode_concat(seq!['"'] + doubled(value), seq!['"']);
        lemma_encode_concat(seq!['"'], doubled(value));
        assert(bytes =~= quoting.push(34));
        lemma_parsed_push(quoting, 34, separator);
        lemma_parsed_wf(quoting, separator);
    } else {
        assert forall|i: int| 0 <= i < bytes.len() implies is_plain(#[trigger] bytes[i], separator) by {
            let b = encode_utf8(value)[i];
        }
        lemma_plain_field(bytes, separator);
    }
}

proof fn lemma_doubled_differ(a: Seq<char>, b: Seq<char>)
    requires
        doubled(a) == doubled(b),
    ensures
        a == b,
    decreases a.len(),
{
    if a.len() == 0 {
        if b.len() > 0 {
            assert(doubled(b).len() > 0);
        }
        assert(a =~= b);
    } else {
        assert(doubled(a).len() > 0);
        assert(b.len() > 0);
        let (af, bf) = (a.drop_last(), b.drop_last());
        assert(doubled(a).last() == a.last());
        assert(doubled(b).last() == b.last());
        if a.last() == '"' {
            assert(doubled(af) =~= doubled(a).take(doubled(a).len() - 2));
            assert(doubled(bf) =~= doubled(b).take(doubled(b).len() - 2));
        } else {
            assert(doubled(af) =~= doubled(a).drop_last());
            assert(doubled(bf) =~= doubled(b).drop_last());
        }
        lemma_doubled_differ(af, bf);
        assert(a =~= af.push(a.last()));
        assert(b =~= bf.push(b.last()));
    }
}

/// No two values are written the same way.
pub proof fn values_are_written_apart(a: Seq<char>, b: Seq<char>, separator: u8)
    requires
        encoded(a, separator) == encoded(b, separator),
    ensures
        a == b,
{
    let (quoted_a, quoted_b) = (needs_quotes(a, separator), needs_quotes(b, separator));
    if quoted_a && quoted_b {
        let (wa, wb) = (encoded(a, separator), encoded(b, separator));
        assert(doubled(a) =~= wa.subrange(1, wa.len() - 1));
        assert(doubled(b) =~= wb.subrange(1, wb.len() - 1));
        lemma_doubled_differ(a, b);
    } else if quoted_a {
        lemma_quotes_need_quotes(b, separator);
        assert(encoded(a, separator)[0] == '"');
    } else if quoted_b {
        lemma_quotes_need_quotes(a, separator);
        assert(encoded(b, separator)[0] == '"');
    }
}

proof fn lemma_quotes_need_quotes(value: Seq<char>, separator: u8)
    ensures
        value.len() > 0 && value[0] == '"' ==> needs_quotes(value, separator),
{
    if value.len() > 0 && value[0] == '"' {
        crate::text::ascii_byte_in_text(value, 34);
        assert(34u8 as char == '"');
        assert(value.contains('"'));
        let bytes = encode_utf8(value);
        let i = choose|i: int| 0 <= i < bytes.len() && bytes[i] == 34;
        let b = encode_utf8(value)[i];
    }
}

impl Pending {
    /// The fields of a row that the file does not hold. With no columns known
    /// the row is a blank line.
    pub open spec fn new_fields(self, id: usize, shape: Shape, separator: u8) -> Seq<Seq<u8>> {
        if shape.columns == 0 {
            seq![Seq::empty()]
        } else {
            Seq::new(shape.columns, |f: int| self.field(id, f as usize, Seq::empty(), separator))
        }
    }

    pub open spec fn new_records(self, ids: Seq<usize>, shape: Shape, separator: u8) -> Seq<Record> {
        Seq::new(
            ids.len(),
            |i: int| Record { fields: self.new_fields(ids[i], shape, separator), eol: shape.newline },
        )
    }

    /// A record as it is written: with its edits, if it is a row.
    pub open spec fn edited_record(
        self,
        header_rows: nat,
        before: nat,
        record: Record,
        separator: u8,
    ) -> Record {
        if before < header_rows {
            record
        } else {
            Record {
                fields: self.fields((before - header_rows) as usize, record.fields, separator),
                ..record
            }
        }
    }
}

/// The records of a file once everything pending is applied, the rows added at
/// its end aside.
pub open spec fn edited_body(p: Pending, header_rows: nat, records: Seq<Record>, separator: u8) -> Seq<
    Record,
>
    decreases records.len(),
{
    if records.len() == 0 {
        Seq::empty()
    } else {
        let front = records.drop_last();
        let before = edited_body(p, header_rows, front, separator) + (if front.len() < header_rows {
            Seq::empty()
        } else {
            p.new_records(
                p.added_at((front.len() - header_rows) as usize),
                shape_of(front),
                separator,
            )
        });
        if p.is_left_out(header_rows, front.len()) {
            before
        } else {
            before.push(p.edited_record(header_rows, front.len(), records.last(), separator))
        }
    }
}

/// The rows added behind the last one.
pub open spec fn added_last(p: Pending, header_rows: nat, records: Seq<Record>) -> Seq<usize> {
    p.added_at(row_count(header_rows, records) as usize)
}

/// The last record has no line ending of its own.
pub open spec fn lacks_eol(records: Seq<Record>) -> bool {
    records.len() > 0 && records.last().eol.len() == 0
}

/// The last record as it is written, with the line ending that rows behind it
/// give it.
pub open spec fn last_closed(p: Pending, header_rows: nat, records: Seq<Record>, separator: u8) -> Record {
    Record {
        eol: shape_of(records).newline,
        ..p.edited_record(header_rows, (records.len() - 1) as nat, records.last(), separator)
    }
}

/// The records of a file once everything pending is applied.
pub open spec fn edited(p: Pending, header_rows: nat, records: Seq<Record>, separator: u8) -> Seq<Record> {
    let main = edited_body(p, header_rows, records, separator);
    let ids = added_last(p, header_rows, records);
    if ids.len() == 0 {
        main
    } else {
        let closed = if lacks_eol(records) && !p.is_left_out(header_rows, (records.len() - 1) as nat) {
            main.drop_last().push(last_closed(p, header_rows, records, separator))
        } else {
            main
        };
        closed + p.new_records(ids, shape_of(records), separator)
    }
}

/// What is pending leaves a file without a final newline readable. A line ending
/// must close its last record where there are rows behind it; with none behind
/// it, it must not be emptied.
pub open spec fn ends_readably(p: Pending, header_rows: nat, records: Seq<Record>, separator: u8) -> bool {
    lacks_eol(records) ==> {
        let before = (records.len() - 1) as nat;
        let left_out = p.is_left_out(header_rows, before);
        left_out || if added_last(p, header_rows, records).len() > 0 {
            is_closed(last_closed(p, header_rows, records, separator), separator)
        } else {
            joined(
                p.edited_record(header_rows, before, records.last(), separator).fields,
                separator,
            ).len() > 0
        }
    }
}

proof fn lemma_all_bytes_concat(a: Seq<Record>, b: Seq<Record>, separator: u8)
    ensures
        all_bytes(a + b, separator) == all_bytes(a, separator) + all_bytes(b, separator),
    decreases b.len(),
{
    if b.len() == 0 {
        assert(a + b =~= a);
        assert(all_bytes(a, separator) + all_bytes(b, separator) =~= all_bytes(a, separator));
    } else {
        lemma_all_bytes_concat(a, b.drop_last(), separator);
        assert((a + b).drop_last() =~= a + b.drop_last());
        assert(all_bytes(a + b, separator) =~= all_bytes(a, separator) + all_bytes(b, separator));
    }
}

proof fn lemma_all_bytes_push(a: Seq<Record>, record: Record, separator: u8)
    ensures
        all_bytes(a.push(record), separator) == all_bytes(a, separator) + record_bytes(record, separator),
{
    assert(a.push(record).drop_last() =~= a);
}

proof fn lemma_new_records(p: Pending, ids: Seq<usize>, shape: Shape, separator: u8)
    requires
        separates(separator),
        shape.newline == seq![10u8] || shape.newline == seq![13u8, 10u8],
    ensures
        all_bytes(p.new_records(ids, shape, separator), separator) == p.new_rows(ids, shape, separator),
        forall|r: int|
            0 <= r < ids.len() ==> is_closed(
                #[trigger] p.new_records(ids, shape, separator)[r],
                separator,
            ),
    decreases ids.len(),
{
    let all = p.new_records(ids, shape, separator);
    if ids.len() > 0 {
        let front = ids.drop_last();
        let id = ids.last();
        lemma_new_records(p, front, shape, separator);
        let before = p.new_records(front, shape, separator);
        let record = Record { fields: p.new_fields(id, shape, separator), eol: shape.newline };
        assert(all =~= before.push(record));
        lemma_all_bytes_push(before, record, separator);
        if shape.columns == 0 {
            assert(joined(
                Seq::new(
                    shape.columns,
                    |f: int| p.field(id, f as usize, Seq::empty(), separator),
                ),
                separator,
            ) =~= Seq::empty());
        }
        assert(record_bytes(record, separator) =~= p.new_row(id, shape, separator));
        lemma_nothing_is_a_field(separator);
        assert forall|f: int| 0 <= f < record.fields.len() implies is_a_field(
            #[trigger] record.fields[f],
            separator,
        ) && !ends_in_cr(record.fields[f], separator) by {
            if shape.columns > 0 {
                lemma_field_written(p, id, f as usize, Seq::empty(), separator);
            }
        }
        assert(is_closed(record, separator));
        assert forall|r: int| 0 <= r < ids.len() implies is_closed(#[trigger] all[r], separator) by {
            if r < front.len() {
                assert(all[r] == before[r]);
            }
        }
    }
}

proof fn lemma_field_written(p: Pending, row: usize, field: usize, raw: Seq<u8>, separator: u8)
    requires
        separates(separator),
    ensures
        is_a_field(raw, separator) ==> is_a_field(p.field(row, field, raw, separator), separator),
        within_a_field(raw, separator) ==> within_a_field(
            p.field(row, field, raw, separator),
            separator,
        ),
        !ends_in_cr(raw, separator) ==> !ends_in_cr(p.field(row, field, raw, separator), separator),
{
    if p.cells.contains_key((row, field)) {
        a_value_is_written_as_one_field(p.cells[(row, field)], separator);
    }
}

proof fn lemma_edited_record(
    p: Pending,
    header_rows: nat,
    before: nat,
    record: Record,
    separator: u8,
)
    requires
        separates(separator),
    ensures
        ({
            let now = p.edited_record(header_rows, before, record, separator);
            &&& is_closed(record, separator) ==> is_closed(now, separator)
            &&& is_last(record, separator) && joined(now.fields, separator).len() > 0 ==> is_last(
                now,
                separator,
            )
        }),
{
    let now = p.edited_record(header_rows, before, record, separator);
    if before >= header_rows && record.fields.len() > 0 {
        let row = (before - header_rows) as usize;
        assert forall|f: int| 0 <= f < record.fields.len() implies now.fields[f] == #[trigger] p.field(
            row,
            f as usize,
            record.fields[f],
            separator,
        ) by {}
        assert forall|f: int|
            0 <= f < record.fields.len() && is_a_field(record.fields[f], separator) implies is_a_field(
            #[trigger] now.fields[f],
            separator,
        ) by {
            lemma_field_written(p, row, f as usize, record.fields[f], separator);
        }
        let f = record.fields.len() - 1;
        lemma_field_written(p, row, f as usize, record.fields[f], separator);
        assert(now.fields.last() == p.field(row, f as usize, record.fields[f], separator));
    }
}

proof fn lemma_newline(records: Seq<Record>, separator: u8)
    requires
        records.len() > 0 && records[0].eol.len() > 0 ==> is_closed(records[0], separator),
    ensures
        shape_of(records).newline == seq![10u8] || shape_of(records).newline == seq![13u8, 10u8],
{
}

/// Everything in front of the last record as it is written, or of where it
/// would be.
spec fn before_last(p: Pending, header_rows: nat, records: Seq<Record>, separator: u8) -> Seq<Record> {
    let front = records.drop_last();
    edited_body(p, header_rows, front, separator) + (if front.len() < header_rows {
        Seq::empty()
    } else {
        p.new_records(p.added_at((front.len() - header_rows) as usize), shape_of(front), separator)
    })
}

proof fn lemma_before_last(p: Pending, header_rows: nat, records: Seq<Record>, separator: u8)
    requires
        separates(separator),
        records.len() > 0,
        forall|r: int| 0 <= r < records.len() - 1 ==> is_closed(#[trigger] records[r], separator),
    ensures
        ({
            let before = before_last(p, header_rows, records, separator);
            let row = p.edited_record(
                header_rows,
                (records.len() - 1) as nat,
                records.last(),
                separator,
            );
            &&& forall|r: int| 0 <= r < before.len() ==> is_closed(#[trigger] before[r], separator)
            &&& body(p, header_rows, records, separator).bytes == all_bytes(before, separator) + (
            if p.is_left_out(header_rows, (records.len() - 1) as nat) {
                Seq::empty()
            } else {
                record_bytes(row, separator)
            })
        }),
    decreases records.len(), 0int,
{
    let front = records.drop_last();
    let main = edited_body(p, header_rows, front, separator);
    lemma_edited_body(p, header_rows, front, separator);
    let before = before_last(p, header_rows, records, separator);
    let row = p.edited_record(header_rows, front.len(), records.last(), separator);
    if front.len() < header_rows {
        assert(before =~= main);
        assert(body(p, header_rows, records, separator).bytes =~= all_bytes(before, separator)
            + record_bytes(row, separator));
    } else {
        let ids = p.added_at((front.len() - header_rows) as usize);
        let shape = shape_of(front);
        if front.len() > 0 {
            assert(front[0] == records[0]);
        }
        lemma_newline(front, separator);
        lemma_new_records(p, ids, shape, separator);
        let new = p.new_records(ids, shape, separator);
        lemma_all_bytes_concat(main, new, separator);
        assert forall|r: int| 0 <= r < before.len() implies is_closed(#[trigger] before[r], separator) by {
            if r < main.len() {
                assert(before[r] == main[r]);
            } else {
                assert(before[r] == new[r - main.len()]);
            }
        }
        if p.is_left_out(header_rows, front.len()) {
            assert(all_bytes(before, separator) + Seq::<u8>::empty() =~= all_bytes(before, separator));
        } else {
            assert(body(p, header_rows, records, separator).bytes =~= all_bytes(before, separator)
                + record_bytes(row, separator));
        }
    }
}

proof fn lemma_edited_body(p: Pending, header_rows: nat, records: Seq<Record>, separator: u8)
    requires
        separates(separator),
        forall|r: int| 0 <= r < records.len() ==> is_closed(#[trigger] records[r], separator),
    ensures
        ({
            let main = edited_body(p, header_rows, records, separator);
            &&& forall|r: int| 0 <= r < main.len() ==> is_closed(#[trigger] main[r], separator)
            &&& body(p, header_rows, records, separator).bytes == all_bytes(main, separator)
        }),
    decreases records.len(), 1int,
{
    if records.len() > 0 {
        let main = edited_body(p, header_rows, records, separator);
        let before = before_last(p, header_rows, records, separator);
        lemma_before_last(p, header_rows, records, separator);
        let at = (records.len() - 1) as nat;
        let row = p.edited_record(header_rows, at, records.last(), separator);
        assert(is_closed(records[records.len() - 1], separator));
        lemma_edited_record(p, header_rows, at, records.last(), separator);
        lemma_all_bytes_push(before, row, separator);
        if p.is_left_out(header_rows, at) {
            assert(main =~= before);
            assert(all_bytes(before, separator) + Seq::<u8>::empty() =~= all_bytes(before, separator));
        } else {
            assert(main =~= before.push(row));
        }
    }
}

/// The records that a file holds, last one closed or not.
spec fn is_readable(records: Seq<Record>, separator: u8) -> bool {
    &&& forall|r: int| 0 <= r < records.len() - 1 ==> is_closed(#[trigger] records[r], separator)
    &&& records.len() > 0 ==> is_closed(records.last(), separator) || is_last(records.last(), separator)
}

proof fn lemma_written_closed(p: Pending, h: nat, records: Seq<Record>, separator: u8)
    requires
        separates(separator),
        is_readable(records, separator),
        !lacks_eol(records),
    ensures
        ({
            let all = edited(p, h, records, separator);
            &&& output(p, h, records, separator).bytes == all_bytes(all, separator)
            &&& is_readable(all, separator)
        }),
{
    let main = edited_body(p, h, records, separator);
    let ids = added_last(p, h, records);
    let shape = shape_of(records);
    let all = edited(p, h, records, separator);
    assert forall|r: int| 0 <= r < records.len() implies is_closed(#[trigger] records[r], separator) by {
        if r == records.len() - 1 {
            assert(records[r] == records.last());
        }
    }
    lemma_newline(records, separator);
    lemma_new_records(p, ids, shape, separator);
    let new = p.new_records(ids, shape, separator);
    lemma_edited_body(p, h, records, separator);
    lemma_all_bytes_concat(main, new, separator);
    if ids.len() == 0 {
        assert(main + new =~= main);
    }
    assert(all =~= main + new);
    assert(all_bytes(main, separator) + Seq::<u8>::empty() =~= all_bytes(main, separator));
    assert(output(p, h, records, separator).bytes == all_bytes(all, separator));
    assert forall|r: int| 0 <= r < all.len() implies is_closed(#[trigger] all[r], separator) by {
        if r < main.len() {
            assert(all[r] == main[r]);
        } else {
            assert(all[r] == new[r - main.len()]);
        }
    }
    if all.len() > 0 {
        assert(is_closed(all[all.len() - 1], separator));
    }
}

proof fn lemma_written_open(p: Pending, h: nat, records: Seq<Record>, separator: u8)
    requires
        separates(separator),
        is_readable(records, separator),
        lacks_eol(records),
        ends_readably(p, h, records, separator),
        added_last(p, h, records).len() == 0,
    ensures
        ({
            let all = edited(p, h, records, separator);
            &&& output(p, h, records, separator).bytes == all_bytes(all, separator)
            &&& is_readable(all, separator)
        }),
{
    let all = edited(p, h, records, separator);
    let at = (records.len() - 1) as nat;
    let row = p.edited_record(h, at, records.last(), separator);
    let before = before_last(p, h, records, separator);
    lemma_before_last(p, h, records, separator);
    lemma_edited_record(p, h, at, records.last(), separator);
    if p.is_left_out(h, at) {
        assert(all =~= before);
        assert(all_bytes(before, separator) + Seq::<u8>::empty() =~= all_bytes(before, separator));
        if all.len() > 0 {
            assert(is_closed(all[all.len() - 1], separator));
        }
    } else {
        lemma_all_bytes_push(before, row, separator);
        assert(all =~= before.push(row));
        assert forall|r: int| 0 <= r < all.len() - 1 implies is_closed(#[trigger] all[r], separator) by {
            assert(all[r] == before[r]);
        }
    }
}

proof fn lemma_written_behind(p: Pending, h: nat, records: Seq<Record>, separator: u8)
    requires
        separates(separator),
        is_readable(records, separator),
        lacks_eol(records),
        ends_readably(p, h, records, separator),
        added_last(p, h, records).len() > 0,
        !p.is_left_out(h, (records.len() - 1) as nat),
    ensures
        ({
            let all = edited(p, h, records, separator);
            &&& output(p, h, records, separator).bytes == all_bytes(all, separator)
            &&& is_readable(all, separator)
        }),
{
    let main = edited_body(p, h, records, separator);
    let ids = added_last(p, h, records);
    let shape = shape_of(records);
    let all = edited(p, h, records, separator);
    let at = (records.len() - 1) as nat;
    let row = p.edited_record(h, at, records.last(), separator);
    let before = before_last(p, h, records, separator);
    let closed = last_closed(p, h, records, separator);
    if records.len() == 1 {
        assert(records[0] == records.last());
    }
    lemma_newline(records, separator);
    lemma_new_records(p, ids, shape, separator);
    let new = p.new_records(ids, shape, separator);
    lemma_before_last(p, h, records, separator);
    assert(main =~= before.push(row));
    assert(main.drop_last() =~= before);
    lemma_all_bytes_push(before, closed, separator);
    lemma_all_bytes_concat(before.push(closed), new, separator);
    assert(all =~= before.push(closed) + new);
    assert(record_bytes(closed, separator) =~= record_bytes(row, separator) + shape.newline) by {
        assert(row.eol =~= Seq::empty());
        assert(joined(row.fields, separator) + Seq::<u8>::empty() =~= joined(row.fields, separator));
    }
    let (a, b, c, d) = (
        all_bytes(before, separator),
        record_bytes(row, separator),
        shape.newline,
        p.new_rows(ids, shape, separator),
    );
    assert((a + b) + c + d =~= (a + (b + c)) + d);
    assert forall|r: int| 0 <= r < all.len() implies is_closed(#[trigger] all[r], separator) by {
        if r < before.len() {
            assert(all[r] == before[r]);
        } else if r > before.len() {
            assert(all[r] == new[r - before.len() - 1]);
        }
    }
    assert(is_closed(all[all.len() - 1], separator));
}

/// Rows behind a last record that is left out.
proof fn lemma_written_instead(p: Pending, h: nat, records: Seq<Record>, separator: u8)
    requires
        separates(separator),
        is_readable(records, separator),
        lacks_eol(records),
        added_last(p, h, records).len() > 0,
        p.is_left_out(h, (records.len() - 1) as nat),
    ensures
        ({
            let all = edited(p, h, records, separator);
            &&& output(p, h, records, separator).bytes == all_bytes(all, separator)
            &&& is_readable(all, separator)
        }),
{
    let ids = added_last(p, h, records);
    let shape = shape_of(records);
    let all = edited(p, h, records, separator);
    let before = before_last(p, h, records, separator);
    if records.len() == 1 {
        assert(records[0] == records.last());
    }
    lemma_newline(records, separator);
    lemma_new_records(p, ids, shape, separator);
    let new = p.new_records(ids, shape, separator);
    lemma_before_last(p, h, records, separator);
    lemma_all_bytes_concat(before, new, separator);
    assert(all =~= before + new);
    assert(all_bytes(before, separator) + Seq::<u8>::empty() =~= all_bytes(before, separator));
    assert forall|r: int| 0 <= r < all.len() implies is_closed(#[trigger] all[r], separator) by {
        if r < before.len() {
            assert(all[r] == before[r]);
        } else {
            assert(all[r] == new[r - before.len()]);
        }
    }
    assert(is_closed(all[all.len() - 1], separator));
}

/// What a read gives back of a write: the records of the written file are those
/// of the old one with everything pending applied. Edited fields hold their new
/// text, every other field, every line ending and the header are as they were,
/// struck rows are gone and added ones stand where they were put.
pub proof fn what_is_written_is_read_back(
    bytes: Seq<u8>,
    p: Pending,
    has_header: bool,
    separator: u8,
)
    requires
        separates(separator),
        ends_readably(
            p,
            if has_header {
                1nat
            } else {
                0nat
            },
            records_of(bytes, separator),
            separator,
        ),
    ensures
        ({
            let h = if has_header { 1nat } else { 0nat };
            let records = records_of(bytes, separator);
            records_of(output(p, h, records, separator).bytes, separator) == edited(
                p,
                h,
                records,
                separator,
            )
        }),
{
    let h = if has_header { 1nat } else { 0nat };
    let records = records_of(bytes, separator);
    lemma_records_of(bytes, separator);
    if !lacks_eol(records) {
        lemma_written_closed(p, h, records, separator);
    } else if added_last(p, h, records).len() == 0 {
        lemma_written_open(p, h, records, separator);
    } else if p.is_left_out(h, (records.len() - 1) as nat) {
        lemma_written_instead(p, h, records, separator);
    } else {
        lemma_written_behind(p, h, records, separator);
    }
    records_read_back(edited(p, h, records, separator), separator);
}

/// A record without an edit of its own survives a write exactly, and so does
/// every field without one in a record that has some.
pub proof fn what_is_not_edited_survives(p: Pending, header_rows: nat, before: nat, record: Record, separator: u8)
    ensures
        ({
            let now = p.edited_record(header_rows, before, record, separator);
            let row = (before - header_rows) as usize;
            &&& now.eol == record.eol
            &&& now.fields.len() == record.fields.len()
            &&& forall|f: int|
                0 <= f < record.fields.len() && (before < header_rows || !p.cells.contains_key(
                    (row, f as usize),
                )) ==> #[trigger] now.fields[f] == record.fields[f]
            &&& before < header_rows || (forall|f: usize| !p.cells.contains_key((row, f))) ==> now == record
        }),
{
    let now = p.edited_record(header_rows, before, record, separator);
    let row = (before - header_rows) as usize;
    if before >= header_rows && (forall|f: usize| !p.cells.contains_key((row, f))) {
        assert(now.fields =~= record.fields);
    }
}

} // verus!
