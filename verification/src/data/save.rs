//! What a write comes to: the bytes that replace those of the file.
use vstd::prelude::*;
use crate::data::edit::at_most_max;
use crate::data::json_writer::{json_output, splice_json, JsonColumn};
use crate::data::jsonl::record_lines;
use crate::data::store::{Source, Store, Written};
use crate::data::writer::{output, records_of, splice, tally_of, verdict, SpliceError, Tally};

verus! {

/// The columns are those of the store: each where pages read it, so an edit
/// lands in the bytes the cell was read from.
pub open spec fn are_columns(columns: Seq<JsonColumn>, store: Store) -> bool {
    &&& columns.len() == store.paths@.len()
    &&& forall|c: int|
        0 <= c < columns.len() ==> (#[trigger] columns[c]).path@ == store.paths@[c]@ && columns[c].kind
            == store.types@[c]
}

impl Store {
    /// Where each column lives in a record and what it may be written as.
    pub fn json_columns<'a>(&'a self) -> (out: Vec<JsonColumn<'a>>)
        requires
            self.wf(),
            self.source == Source::Json,
        ensures
            are_columns(out@, *self),
    {
        let mut out: Vec<JsonColumn<'a>> = Vec::new();
        let mut c: usize = 0;
        while c < self.paths.len()
            invariant
                c <= self.paths.len(),
                self.paths@.len() == self.types@.len(),
                out@.len() == c,
                forall|d: int|
                    0 <= d < c ==> (#[trigger] out@[d]).path@ == self.paths@[d]@ && out@[d].kind
                        == self.types@[d],
            decreases self.paths.len() - c,
        {
            out.push(JsonColumn { path: self.paths[c].as_slice(), kind: self.types[c] });
            c += 1;
        }
        out
    }

    /// What a write of these bytes comes to, if they are a delimited file.
    pub open spec fn delimited(self, src: Seq<u8>, separator: u8) -> Result<Seq<u8>, SpliceError> {
        let p = self.overlay@.pending;
        let records = records_of(src, separator);
        let w = output(p, 1, records, separator);
        match verdict(p, tally_of(1, records, w), self.total_rows) {
            Ok(_) => Ok(w.bytes),
            Err(e) => Err(e),
        }
    }

    /// What a write of these bytes comes to, if they are JSON records.
    pub open spec fn json(self, src: Seq<u8>, columns: Seq<JsonColumn>) -> Result<Seq<u8>, SpliceError> {
        let p = self.overlay@.pending;
        let w = json_output(p, columns, src);
        let tally = Tally {
            rows: record_lines(src).len() as usize,
            applied: at_most_max(w.applied),
            dropped: at_most_max(w.dropped),
            added: at_most_max(w.added),
        };
        match verdict(p, tally, self.total_rows) {
            Ok(_) => Ok(w.bytes),
            Err(e) => Err(e),
        }
    }

    /// The bytes that a write replaces those of the file with, or why it is
    /// refused. A delimited file always has a header.
    pub fn rewrite(&self, src: &[u8]) -> (r: Result<Vec<u8>, String>)
        requires
            self.wf(),
        ensures
            match self.edit {
                None => r is Err && r->Err_0@ == "this view is read-only"@,
                Some(target) => match target.written {
                    Written::Delimited(separator) => match self.delimited(src@, separator) {
                        Ok(bytes) => r is Ok && r->Ok_0@ == bytes,
                        Err(e) => r is Err && r->Err_0@ == e.text(),
                    },
                    Written::Json => if self.source == Source::Json {
                        exists|columns: Seq<JsonColumn>| #[trigger]
                            are_columns(columns, *self) && match self.json(src@, columns) {
                                Ok(bytes) => r is Ok && r->Ok_0@ == bytes,
                                Err(e) => r is Err && r->Err_0@ == e.json_text(),
                            }
                    } else {
                        r is Err && r->Err_0@ == "this view is read-only"@
                    },
                },
            },
    {
        let target = match self.edit {
            Some(target) => target,
            None => {
                return Err("this view is read-only".to_owned());
            },
        };
        match target.written {
            Written::Delimited(separator) => match splice(
                src,
                separator,
                true,
                &self.overlay,
                self.total_rows,
            ) {
                Ok(bytes) => Ok(bytes),
                Err(e) => Err(e.message()),
            },
            Written::Json => match self.source {
                Source::Json => {
                    let columns = self.json_columns();
                    assert(are_columns(columns@, *self));
                    match splice_json(src, columns.as_slice(), &self.overlay, self.total_rows) {
                        Ok(bytes) => Ok(bytes),
                        Err(e) => Err(e.json_message()),
                    }
                },
                _ => Err("this view is read-only".to_owned()),
            },
        }
    }
}

} // verus!
