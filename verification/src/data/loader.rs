//! Telling what kind of file one is, and what separates its fields.
use vstd::prelude::*;
use crate::text;

verus! {

#[derive(Clone, Copy, Debug, PartialEq, Eq, Structural)]
pub enum FileFormat {
    Csv,
    /// Extension names tabs: `.tsv`, `.tab`.
    Tsv,
    /// Extension names nothing: `.txt`. The delimiter is sniffed from the file.
    Text,
    /// One JSON object to a line: `.jsonl`, `.ndjson`.
    JsonLines,
    Parquet,
    Unknown,
}

/// The format that a file's extension names.
pub open spec fn format_of(extension: Option<Seq<char>>) -> FileFormat {
    match extension {
        None => FileFormat::Unknown,
        Some(e) => if e == "csv"@ {
            FileFormat::Csv
        } else if e == "tsv"@ || e == "tab"@ {
            FileFormat::Tsv
        } else if e == "txt"@ {
            FileFormat::Text
        } else if e == "jsonl"@ || e == "ndjson"@ {
            FileFormat::JsonLines
        } else if e == "parquet"@ {
            FileFormat::Parquet
        } else {
            FileFormat::Unknown
        },
    }
}

pub fn detect_format(extension: Option<&str>) -> (format: FileFormat)
    ensures
        format == format_of(
            match extension {
                Some(e) => Some(e@),
                None => None,
            },
        ),
{
    match extension {
        None => FileFormat::Unknown,
        Some(e) => if text::same(e, "csv") {
            FileFormat::Csv
        } else if text::same(e, "tsv") || text::same(e, "tab") {
            FileFormat::Tsv
        } else if text::same(e, "txt") {
            FileFormat::Text
        } else if text::same(e, "jsonl") || text::same(e, "ndjson") {
            FileFormat::JsonLines
        } else if text::same(e, "parquet") {
            FileFormat::Parquet
        } else {
            FileFormat::Unknown
        },
    }
}

/// How much of a file to look at when sniffing its delimiter.
pub const SAMPLE_BYTES: u64 = 65536;

/// Lines to compare before deciding. The header alone can be misleading.
pub const SAMPLE_LINES: usize = 5;

/// The pieces of `bytes` between newlines: one more than there are newlines.
pub open spec fn lines_of(bytes: Seq<u8>) -> Seq<Seq<u8>>
    decreases bytes.len(),
{
    if bytes.len() == 0 {
        seq![Seq::empty()]
    } else {
        let before = lines_of(bytes.drop_last());
        if bytes.last() == 10 {
            before.push(Seq::empty())
        } else {
            before.drop_last().push(before.last().push(bytes.last()))
        }
    }
}

/// A line without the carriage return that it ends in, if it does.
pub open spec fn without_cr(line: Seq<u8>) -> Seq<u8> {
    if line.len() > 0 && line.last() == 13 {
        line.drop_last()
    } else {
        line
    }
}

/// The first lines of a sample that hold anything.
pub open spec fn sample_lines(sample: Seq<u8>) -> Seq<Seq<u8>> {
    let full = lines_of(sample).map_values(|line: Seq<u8>| without_cr(line)).filter(
        |line: Seq<u8>| line.len() > 0,
    );
    if full.len() > SAMPLE_LINES {
        full.take(SAMPLE_LINES as int)
    } else {
        full
    }
}

/// Whether what follows `line` stands inside quotes: an odd number of them came
/// before.
pub open spec fn in_quotes(line: Seq<u8>) -> bool
    decreases line.len(),
{
    line.len() > 0 && (in_quotes(line.drop_last()) != (line.last() == 34))
}

/// Occurrences of `delim` in `line` that fall outside a quoted field. A doubled
/// quote inside a quoted field toggles twice, which lands back where it started.
pub open spec fn unquoted(line: Seq<u8>, delim: u8) -> nat
    decreases line.len(),
{
    if line.len() == 0 {
        0
    } else {
        unquoted(line.drop_last(), delim) + if line.last() == delim && !in_quotes(line) {
            1nat
        } else {
            0nat
        }
    }
}

/// The candidate occurs, and as often on every line.
pub open spec fn separates(lines: Seq<Seq<u8>>, delim: u8) -> bool {
    &&& lines.len() > 0
    &&& unquoted(lines[0], delim) > 0
    &&& forall|i: int|
        0 <= i < lines.len() ==> unquoted(#[trigger] lines[i], delim) == unquoted(lines[0], delim)
}

/// The field separator of a file whose extension doesn't name one: the first
/// candidate that occurs the same number of times on every line, or else a tab.
pub open spec fn sniffed(sample: Seq<u8>) -> u8 {
    let lines = sample_lines(sample);
    if separates(lines, 9) {
        9
    } else if separates(lines, 44) {
        44
    } else if separates(lines, 59) {
        59
    } else if separates(lines, 124) {
        124
    } else {
        9
    }
}

fn count_unquoted(line: &Vec<u8>, delim: u8) -> (n: usize)
    ensures
        n == unquoted(line@, delim),
{
    let mut quoted = false;
    let mut n: usize = 0;
    let mut i: usize = 0;
    assert(line@.take(0) =~= Seq::empty());
    while i < line.len()
        invariant
            i <= line.len(),
            n <= i,
            quoted == in_quotes(line@.take(i as int)),
            n == unquoted(line@.take(i as int), delim),
        decreases line.len() - i,
    {
        assert(line@.take(i + 1).drop_last() =~= line@.take(i as int));
        if line[i] == 34 {
            quoted = !quoted;
        }
        if !quoted && line[i] == delim {
            n += 1;
        }
        i += 1;
    }
    assert(line@.take(i as int) =~= line@);
    n
}

fn is_separator(lines: &Vec<Vec<u8>>, delim: u8) -> (b: bool)
    ensures
        b == separates(lines@.map_values(|line: Vec<u8>| line@), delim),
{
    let ghost all = lines@.map_values(|line: Vec<u8>| line@);
    if lines.is_empty() {
        return false;
    }
    let first = count_unquoted(&lines[0], delim);
    assert(all[0] == lines@[0]@);
    if first == 0 {
        return false;
    }
    let mut i: usize = 1;
    while i < lines.len()
        invariant
            1 <= i <= lines.len(),
            all == lines@.map_values(|line: Vec<u8>| line@),
            first == unquoted(all[0], delim),
            forall|k: int| 0 <= k < i ==> unquoted(#[trigger] all[k], delim) == first,
        decreases lines.len() - i,
    {
        let here = count_unquoted(&lines[i], delim);
        assert(all[i as int] == lines@[i as int]@);
        if here != first {
            return false;
        }
        i += 1;
    }
    true
}

/// The lines of a sample that hold anything, closed ones only.
spec fn full_lines(lines: Seq<Seq<u8>>) -> Seq<Seq<u8>> {
    lines.map_values(|line: Seq<u8>| without_cr(line)).filter(|line: Seq<u8>| line.len() > 0)
}

proof fn lemma_full_push(lines: Seq<Seq<u8>>, line: Seq<u8>)
    ensures
        full_lines(lines.push(line)) == if without_cr(line).len() > 0 {
            full_lines(lines).push(without_cr(line))
        } else {
            full_lines(lines)
        },
{
    let f = |line: Seq<u8>| without_cr(line);
    let p = |line: Seq<u8>| line.len() > 0;
    let mapped = lines.push(line).map_values(f);
    assert(mapped.drop_last() =~= lines.map_values(f));
    assert(mapped.last() == without_cr(line));
    reveal(Seq::filter);
}

/// Keep a line that has ended, if it holds anything.
fn keep(kept: &mut Vec<Vec<u8>>, line: Vec<u8>, Ghost(lines): Ghost<Seq<Seq<u8>>>)
    requires
        old(kept)@.map_values(|l: Vec<u8>| l@) == full_lines(lines),
    ensures
        final(kept)@.map_values(|l: Vec<u8>| l@) == full_lines(lines.push(line@)),
{
    proof {
        lemma_full_push(lines, line@);
    }
    let mut line = line;
    let n = line.len();
    if n > 0 && line[n - 1] == 13 {
        line.pop();
    }
    if line.len() > 0 {
        kept.push(line);
        assert(kept@.map_values(|l: Vec<u8>| l@) =~= old(kept)@.map_values(|l: Vec<u8>| l@).push(line@));
    }
}

/// Pick the field separator for a file whose extension doesn't name one.
///
/// Counts each candidate outside double-quoted spans on the first few lines and
/// keeps the one that occurs at least once and the *same* number of times on
/// every line: that consistency is what separates a real delimiter from a
/// character the text merely happens to contain. A sample that settles nothing
/// falls back to a tab, which is what `.txt` usually means.
pub fn sniff_delimiter(sample: &[u8]) -> (delim: u8)
    ensures
        delim == sniffed(sample@),
{
    let mut kept: Vec<Vec<u8>> = Vec::new();
    let mut line: Vec<u8> = Vec::new();
    let ghost done: Seq<Seq<u8>> = Seq::empty();
    let mut i: usize = 0;
    proof {
        reveal(Seq::filter);
        assert(kept@.map_values(|l: Vec<u8>| l@) =~= full_lines(done));
        assert(sample@.take(0) =~= Seq::empty());
        assert(line@ =~= Seq::empty());
        assert(lines_of(sample@.take(0)) =~= done.push(line@));
    }
    while i < sample.len()
        invariant
            i <= sample.len(),
            lines_of(sample@.take(i as int)) == done.push(line@),
            kept@.map_values(|l: Vec<u8>| l@) == full_lines(done),
        decreases sample.len() - i,
    {
        assert(sample@.take(i + 1).drop_last() =~= sample@.take(i as int));
        let b = sample[i];
        assert(done.push(line@).drop_last() =~= done);
        if b == 10 {
            keep(&mut kept, line, Ghost(done));
            proof {
                done = done.push(line@);
            }
            line = Vec::new();
            assert(line@ =~= Seq::empty());
        } else {
            line.push(b);
        }
        assert(lines_of(sample@.take(i + 1)) =~= done.push(line@));
        i += 1;
    }
    assert(sample@.take(i as int) =~= sample@);
    keep(&mut kept, line, Ghost(done));
    let ghost full = full_lines(lines_of(sample@));
    if kept.len() > SAMPLE_LINES {
        kept.truncate(SAMPLE_LINES);
        assert(kept@.map_values(|l: Vec<u8>| l@) =~= full.take(SAMPLE_LINES as int));
    }
    assert(kept@.map_values(|l: Vec<u8>| l@) == sample_lines(sample@));
    if is_separator(&kept, 9) {
        9
    } else if is_separator(&kept, 44) {
        44
    } else if is_separator(&kept, 59) {
        59
    } else if is_separator(&kept, 124) {
        124
    } else {
        9
    }
}

/// What separates the fields of a file of this format, which begins with this
/// sample; nothing for a file that has no such thing.
pub open spec fn separator_of(format: FileFormat, sample: Seq<u8>) -> Option<u8> {
    match format {
        FileFormat::Csv => Some(44u8),
        FileFormat::Tsv => Some(9u8),
        FileFormat::Text => Some(sniffed(sample)),
        _ => None,
    }
}

/// The byte that separates the fields of a file. Only delimited text has one,
/// and only delimited text is edited by the field.
pub fn separator(format: FileFormat, sample: &[u8]) -> (delim: Option<u8>)
    ensures
        delim == separator_of(format, sample@),
{
    match format {
        FileFormat::Csv => Some(44),
        FileFormat::Tsv => Some(9),
        FileFormat::Text => Some(sniff_delimiter(sample)),
        _ => None,
    }
}

/// Why a file cannot be opened for its format, if it cannot.
pub fn unsupported(format: FileFormat) -> (why: Option<&'static str>)
    ensures
        match why {
            Some(text) => format == FileFormat::Unknown && text@
                == "unsupported file format (use .csv, .tsv, .tab, .txt, .jsonl, .ndjson or .parquet)"@,
            None => format != FileFormat::Unknown,
        },
{
    match format {
        FileFormat::Unknown => Some(
            "unsupported file format (use .csv, .tsv, .tab, .txt, .jsonl, .ndjson or .parquet)",
        ),
        _ => None,
    }
}

} // verus!
