//! Going through the lists of a lake, and what its catalog keeps.
use vstd::prelude::*;
use crate::app::keys::Key;
use crate::app::session::Session;
use crate::data::catalog::{
    below, columns_under, files_under, inlined_of, is_among, is_partition, missing_of, path_text,
    stats_of, supplied_of, values_under, visible_text, without_slashes, ColumnInfo, FileRow,
};
use crate::lake::Lake;

verus! {

/// The keys that go through a list of a lake.
pub proof fn keys_that_go_through_a_list(s: Session, lake: Lake, key: Key, ctrl: bool)
    requires
        s.lake == Some(lake),
        0 < lake.entries() <= usize::MAX,
        lake.state.selected < lake.entries(),
    ensures
        ({
            let after = s.browser_key(key, ctrl);
            let at = lake.state.selected as int;
            let last = lake.entries() - 1;
            let half = s.last_vp as int / 2;
            let line = after.lake->Some_0.state.selected as int;
            let down = key == Key::Down || key == Key::Char('j');
            let up = key == Key::Up || key == Key::Char('k');
            let moves = down || up || key == Key::Home || key == Key::End || key == Key::Char('g') || key
                == Key::Char('G') || (ctrl && (key == Key::Char('d') || key == Key::Char('u')));
            &&& down && at < last ==> line == at + 1
            &&& down && at == last ==> line == at
            &&& up && at > 0 ==> line == at - 1
            &&& up && at == 0 ==> line == 0
            &&& key == Key::Home || key == Key::Char('g') ==> line == 0
            &&& key == Key::End || key == Key::Char('G') ==> line == last
            &&& ctrl && key == Key::Char('d') && at + half <= last ==> line == at + half
            &&& ctrl && key == Key::Char('d') && at + half > last ==> line == last
            &&& ctrl && key == Key::Char('u') && at >= half ==> line == at - half
            &&& ctrl && key == Key::Char('u') && at < half ==> line == 0
            &&& moves ==> after == (Session { lake: after.lake, ..s }) && after.lake == Some(
                Lake { state: after.lake->Some_0.state, ..lake },
            )
            &&& key == Key::Char('q') || key == Key::Char('Q') ==> after == (Session { exit: true, ..s })
        }),
{
}

/// A path is taken below another unless it starts at the root.
pub proof fn a_path_goes_below_another(base: Seq<char>, path: Seq<char>)
    ensures
        path.len() > 0 && path[0] == '/' ==> below(base, path) == path,
        path.len() > 0 && path[0] != '/' && base.len() > 0 && base.last() != '/' ==> below(base, path) == base
            + seq!['/'] + path,
        path.len() > 0 && path[0] != '/' && base.len() > 0 && base.last() == '/' ==> below(base, path) == base
            + path,
        path_text(base, path, false) == without_slashes(path),
        path_text(base, path, true) == below(base, without_slashes(path)),
{
    reveal_strlit("/");
    assert("/"@ =~= seq!['/']);
}

/// What the catalog keeps under a number is collected in order, and what it keeps
/// under other numbers is not.
pub proof fn what_is_kept_under_a_number_is_collected(
    id: i64,
    values: Seq<(i64, String)>,
    value: (i64, String),
    columns: Seq<(i64, ColumnInfo)>,
    column: (i64, ColumnInfo),
    files: Seq<FileRow>,
    file: FileRow,
    counts: Seq<(i64, i64)>,
    count: (i64, i64),
    stats: Seq<(i64, i64, i64)>,
    stat: (i64, i64, i64),
)
    requires
        count.1 >= 0,
        stat.1 >= 0,
        stat.2 >= 0,
    ensures
        values_under(values.push(value), id) == (if value.0 == id {
            values_under(values, id).push(value.1@)
        } else {
            values_under(values, id)
        }),
        columns_under(columns.push(column), id) == (if column.0 == id {
            columns_under(columns, id).push(column.1)
        } else {
            columns_under(columns, id)
        }),
        files_under(files.push(file), id) == (if file.table_id == id {
            files_under(files, id).push(file)
        } else {
            files_under(files, id)
        }),
        inlined_of(counts.push(count), id) == inlined_of(counts, id) + (if count.0 == id {
            count.1 as nat
        } else {
            0
        }),
        stats_of(stats.push(stat), id) == (if stat.0 == id {
            (stat.1 as u64, stat.2 as u64)
        } else {
            stats_of(stats, id)
        }),
        values_under(Seq::empty(), id).len() == 0,
        columns_under(Seq::empty(), id).len() == 0,
        inlined_of(Seq::empty(), id) == 0,
        stats_of(Seq::empty(), id) == (0u64, 0u64),
{
    reveal(Seq::filter);
    assert(values.push(value).drop_last() =~= values);
    assert(columns.push(column).drop_last() =~= columns);
    assert(files.push(file).drop_last() =~= files);
    assert(counts.push(count).drop_last() =~= counts);
    assert(stats.push(stat).drop_last() =~= stats);
}

/// A row of the catalog is seen from the snapshot that it begins with up to the
/// one that it ends with, that one not counted.
pub proof fn a_row_is_seen_from_its_beginning_to_its_end(alias: Seq<char>)
    requires
        alias.len() > 0,
    ensures
        visible_text(alias) == alias + ".begin_snapshot <= ?1 AND ("@ + alias + ".end_snapshot IS NULL OR "@ + alias
            + ".end_snapshot > ?1)"@,
        visible_text(Seq::empty()) == "begin_snapshot <= ?1 AND (end_snapshot IS NULL OR end_snapshot > ?1)"@,
{
    reveal_strlit(".begin_snapshot <= ?1 AND (");
    reveal_strlit(".end_snapshot IS NULL OR ");
    reveal_strlit(".end_snapshot > ?1)");
    reveal_strlit("begin_snapshot <= ?1 AND (end_snapshot IS NULL OR end_snapshot > ?1)");
    reveal_strlit("begin_snapshot");
    reveal_strlit("end_snapshot");
    reveal_strlit(" <= ?1 AND (");
    reveal_strlit(" IS NULL OR ");
    reveal_strlit(" > ?1)");
    reveal_strlit(".");
    assert(visible_text(alias) =~= alias + ".begin_snapshot <= ?1 AND ("@ + alias
        + ".end_snapshot IS NULL OR "@ + alias + ".end_snapshot > ?1)"@);
    assert(visible_text(Seq::empty())
        =~= "begin_snapshot <= ?1 AND (end_snapshot IS NULL OR end_snapshot > ?1)"@);
}

/// A partition's columns that a file does not hold itself are to be filled in, and
/// a column is there if the file or its partition has it.
pub proof fn a_column_is_in_the_file_or_its_partition(
    partition: Seq<(String, String)>,
    pair: (String, String),
    columns: Seq<ColumnInfo>,
    column: ColumnInfo,
    physical: Seq<String>,
)
    ensures
        missing_of(partition.push(pair), physical) == (if exists|k: int|
            0 <= k < physical.len() && (#[trigger] physical[k])@ == pair.0@ {
            missing_of(partition, physical)
        } else {
            missing_of(partition, physical).push((pair.0@, pair.1@))
        }),
        supplied_of(columns.push(column), partition, physical) == (if is_among(column.name@, physical)
            || is_partition(column.name@, partition) {
            supplied_of(columns, partition, physical).push(column.name@)
        } else {
            supplied_of(columns, partition, physical)
        }),
        is_partition(column.name@, partition) <==> exists|k: int|
            0 <= k < partition.len() && (#[trigger] partition[k]).0@ == column.name@,
{
    assert(partition.push(pair).drop_last() =~= partition);
    assert(columns.push(column).drop_last() =~= columns);
}

} // verus!
