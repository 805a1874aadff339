# plv

A terminal viewer and editor for tables: delimited text, JSON Lines, Parquet and
DuckLake catalogs.

The library under `src/` holds what the program decides: which rows, columns and
cells are on show, what each key does, what is found, kept and written. Its
contracts are proved by Verus. The program under `app/` holds what is left: the
terminal, the files, the database and the threads.

## The library

| module | what it is about |
| --- | --- |
| `text`, `ui`, `layout` | characters and bytes, lists that scroll, which columns fit |
| `view`, `description` | the shape of a view, and how it is put in words |
| `grammar`, `complete` | the command line and its completion |
| `search`, `picker`, `lake`, `clipboard` | searching, choosing columns, browsing a lake, copying |
| `data::edit`, `data::shown` | pending edits, undo and redo, and which rows they leave on show |
| `data::writer`, `data::read_back` | splicing edits into delimited text, and reading back what was written |
| `data::json`, `data::json_path`, `data::json_writer` | finding and replacing values in JSON Lines |
| `data::json_read_back`, `data::json_edits`, `data::json_file` | what is read back of a value, of the edits of a record, and of a file |
| `data::jsonl`, `data::key_set`, `data::documents` | the columns that JSON records have, the keys that found no room, and the documents inside them |
| `data::index`, `data::rows`, `data::page`, `data::span` | finding and reading rows of a file too large to hold |
| `data::typed` | values as the type of their column has them |
| `data::scan`, `data::job` | which rows a condition keeps and a pattern is found in, and the order of a sort |
| `data::store`, `data::save` | an open table: its view, its edits and what may be done with it |
| `data::lake_db`, `data::lake_values`, `data::catalog` | queries, values and files of a lake |
| `data::natural`, `data::budget`, `data::loader` | sort keys, memory limits, file formats |
| `app::*` | the program's state: what each key does and what each frame shows |

`App::handle_key_event` takes a key and returns a `Task`: a search, a sort, a
write, a file to open. The program performs it and hands the outcome back to the
method that takes it in.

## What the proofs rest on

The calls into `regex`, `sysinfo` and `polars`, and a few of the standard
library, stand behind functions marked `#[verifier::external_body]`. Each says in
its comment what it claims of the function it calls.
