//! What holds of the launcher's tables, whatever is done to them.

use vstd::prelude::*;

use crate::clock::{padded, stamp};
use crate::desktop::desktop_app;
use crate::paths::{has_ending, inside};
use crate::ranking::{
    lemma_outranks_irreflexive, lemma_outranks_total, lemma_outranks_transitive, outranks, ranked,
    ranking_is_a_stable_sort, ranking_keeps_what_is_in_order, Rank,
};
use crate::storage::{
    count_since, in_scans, in_stamp_order, last_stamp, launch_ranks, launched_names, minutes_before,
    name_ranks, not_from, not_named, or_zero, paths_inside, pruned, row_entry, File, Launched,
    Refreshing, Row, Scan, Tables,
};
use crate::text::{
    ascii_lower, begins, lemma_lex_irreflexive, lemma_lex_transitive, lemma_push_contains,
    lemma_without, lex_less, without,
};

verus! {

/// Whether no two rows have the same name or come from the same file.
pub open spec fn distinct_rows(rows: Seq<Row>) -> bool {
    forall|i: int, j: int|
        0 <= i < j < rows.len() ==> (#[trigger] rows[i]).app.name != (
        #[trigger] rows[j]).app.name && rows[i].source_path != rows[j].source_path
}

/// Dropping the rows from a file leaves some of the rows.
pub proof fn lemma_not_from(rows: Seq<Row>, path: Seq<char>)
    ensures
        forall|r: Row| #[trigger]
            not_from(rows, path).contains(r) <==> rows.contains(r) && r.source_path != path,
        distinct_rows(rows) ==> distinct_rows(not_from(rows, path)),
    decreases rows.len(),
{
    if rows.len() > 0 {
        let rest = rows.drop_last();
        lemma_not_from(rest, path);
        let kept = not_from(rest, path);
        assert(rows =~= rest.push(rows.last()));
        assert forall|r: Row| #[trigger]
            not_from(rows, path).contains(r) <==> rows.contains(r) && r.source_path != path by {
            lemma_push_contains(rest, rows.last(), r);
            lemma_push_contains(kept, rows.last(), r);
        }
        lemma_distinct_push(rest, kept, rows.last());
    }
}

/// Dropping the rows with a name leaves some of the rows.
pub proof fn lemma_not_named(rows: Seq<Row>, name: Seq<char>)
    ensures
        forall|r: Row| #[trigger]
            not_named(rows, name).contains(r) <==> rows.contains(r) && r.app.name != name,
        distinct_rows(rows) ==> distinct_rows(not_named(rows, name)),
    decreases rows.len(),
{
    if rows.len() > 0 {
        let rest = rows.drop_last();
        lemma_not_named(rest, name);
        let kept = not_named(rest, name);
        assert(rows =~= rest.push(rows.last()));
        assert forall|r: Row| #[trigger]
            not_named(rows, name).contains(r) <==> rows.contains(r) && r.app.name != name by {
            lemma_push_contains(rest, rows.last(), r);
            lemma_push_contains(kept, rows.last(), r);
        }
        lemma_distinct_push(rest, kept, rows.last());
    }
}

/// Some of a list of distinct rows, and the row behind the list, are distinct.
proof fn lemma_distinct_push(rest: Seq<Row>, kept: Seq<Row>, last: Row)
    requires
        forall|r: Row| #[trigger] kept.contains(r) ==> rest.contains(r),
        distinct_rows(rest) ==> distinct_rows(kept),
    ensures
        distinct_rows(rest.push(last)) ==> distinct_rows(kept.push(last)) && distinct_rows(kept),
{
    let rows = rest.push(last);
    if distinct_rows(rows) {
        assert forall|i: int, j: int| 0 <= i < j < rest.len() implies (#[trigger] rest[i]).app.name
            != (#[trigger] rest[j]).app.name && rest[i].source_path != rest[j].source_path by {
            assert(rest[i] == rows[i] && rest[j] == rows[j]);
        }
        let longer = kept.push(last);
        assert forall|i: int, j: int| 0 <= i < j < longer.len() implies (
        #[trigger] longer[i]).app.name != (#[trigger] longer[j]).app.name && longer[i].source_path
            != longer[j].source_path by {
            if j == kept.len() {
                assert(kept.contains(kept[i]));
                let k = choose|k: int| 0 <= k < rest.len() && rest[k] == kept[i];
                assert(rows[k] == kept[i] && rows[rest.len() as int] == last);
            } else {
                assert(longer[i] == kept[i] && longer[j] == kept[j]);
            }
        }
    }
}

/// Reading a file again leaves distinct rows distinct.
proof fn lemma_file_keeps_distinct(state: Refreshing, file: File, running: Seq<Seq<char>>)
    requires
        distinct_rows(state.apps),
    ensures
        distinct_rows(state.after_file(file, running).apps),
{
    let kept = not_from(state.apps, file.path);
    lemma_not_from(state.apps, file.path);
    let parsed = match file.content {
        Some(content) => desktop_app(content, running),
        None => None,
    };
    if let Some(app) = parsed {
        lemma_not_named(kept, app.name);
        let rows = not_named(kept, app.name);
        let row = Row { app, source_path: file.path, file_mtime: or_zero(file.mtime) };
        let longer = rows.push(row);
        assert forall|i: int, j: int| 0 <= i < j < longer.len() implies (
        #[trigger] longer[i]).app.name != (#[trigger] longer[j]).app.name && longer[i].source_path
            != longer[j].source_path by {
            if j == rows.len() {
                assert(rows.contains(rows[i]));
                assert(kept.contains(rows[i]));
            } else {
                assert(longer[i] == rows[i] && longer[j] == rows[j]);
            }
        }
    }
}

/// Walking files leaves distinct rows distinct.
proof fn lemma_files_keep_distinct(state: Refreshing, files: Seq<File>, running: Seq<Seq<char>>)
    requires
        distinct_rows(state.apps),
    ensures
        distinct_rows(state.after_files(files, running).apps),
    decreases files.len(),
{
    if files.len() > 0 {
        lemma_files_keep_distinct(state, files.drop_last(), running);
        lemma_file_keeps_distinct(
            state.after_files(files.drop_last(), running),
            files.last(),
            running,
        );
    }
}

/// Walking directories leaves distinct rows distinct.
proof fn lemma_scans_keep_distinct(state: Refreshing, scans: Seq<Scan>, running: Seq<Seq<char>>)
    requires
        distinct_rows(state.apps),
    ensures
        distinct_rows(state.after_scans(scans, running).apps),
    decreases scans.len(),
{
    if scans.len() > 0 {
        lemma_scans_keep_distinct(state, scans.drop_last(), running);
        let before = state.after_scans(scans.drop_last(), running);
        if let Some(files) = scans.last().files {
            lemma_files_keep_distinct(before, files, running);
        }
    }
}

/// Pruning forgets exactly the rows inside the given directories whose files
/// were not seen. In particular it keeps every row from another directory.
pub proof fn pruning_forgets_unseen_files_alone(
    rows: Seq<Row>,
    seen: Seq<Seq<char>>,
    scans: Seq<Scan>,
)
    ensures
        forall|r: Row| #[trigger]
            pruned(rows, seen, scans).contains(r) <==> rows.contains(r) && (in_scans(
                r.source_path,
                scans,
            ) ==> seen.contains(r.source_path)),
        distinct_rows(rows) ==> distinct_rows(pruned(rows, seen, scans)),
    decreases rows.len(),
{
    if rows.len() > 0 {
        let rest = rows.drop_last();
        pruning_forgets_unseen_files_alone(rest, seen, scans);
        let kept = pruned(rest, seen, scans);
        assert(rows =~= rest.push(rows.last()));
        assert forall|r: Row| #[trigger]
            pruned(rows, seen, scans).contains(r) <==> rows.contains(r) && (in_scans(
                r.source_path,
                scans,
            ) ==> seen.contains(r.source_path)) by {
            lemma_push_contains(rest, rows.last(), r);
            lemma_push_contains(kept, rows.last(), r);
        }
        lemma_distinct_push(rest, kept, rows.last());
    }
}

/// A refresh keeps the rows distinct: of two files that name the same app, the
/// one that was read last has the row, and no file has two rows.
pub proof fn refreshing_keeps_rows_distinct(
    tables: Tables,
    scans: Seq<Scan>,
    running: Seq<Seq<char>>,
)
    requires
        distinct_rows(tables.apps),
    ensures
        distinct_rows(tables.refreshed(scans, running).apps),
{
    let start = Refreshing { apps: tables.apps, scans: tables.scans, seen: Seq::empty() };
    let end = start.after_scans(scans, running);
    lemma_scans_keep_distinct(start, scans, running);
    pruning_forgets_unseen_files_alone(end.apps, end.seen, scans);
}

/// Whether a directory has not changed since it was last scanned.
pub open spec fn unchanged(scan: Scan, scans: Map<Seq<char>, i64>) -> bool {
    scans.contains_key(scan.directory) && scan.mtime == Some(scans[scan.directory])
}

/// The files inside a directory that rows come from hold each such file.
pub proof fn lemma_paths_inside(rows: Seq<Row>, directory: Seq<char>, i: int)
    requires
        0 <= i < rows.len(),
        begins(rows[i].source_path, inside(directory)),
    ensures
        paths_inside(rows, directory).contains(rows[i].source_path),
    decreases rows.len(),
{
    let rest = rows.drop_last();
    let before = paths_inside(rest, directory);
    lemma_push_contains(before, rows.last().source_path, rows[i].source_path);
    if i < rows.len() - 1 {
        assert(rest[i] == rows[i]);
        lemma_paths_inside(rest, directory, i);
    }
}

/// Whether a path lies inside one of some directories that is not missing.
pub open spec fn in_present(path: Seq<char>, scans: Seq<Scan>) -> bool {
    exists|i: int|
        0 <= i < scans.len() && (#[trigger] scans[i]).mtime is Some && begins(
            path,
            inside(scans[i].directory),
        )
}

/// Whether a directory is not walked: it is missing, has not changed, or cannot
/// be listed.
pub open spec fn settled(scan: Scan, known: Map<Seq<char>, i64>) -> bool {
    scan.mtime is None || unchanged(scan, known) || scan.files is None
}

/// Scanning directories that are not walked changes no table, and sees the
/// files of all rows inside those that are not missing.
proof fn lemma_settled_scans(state: Refreshing, scans: Seq<Scan>, running: Seq<Seq<char>>)
    requires
        forall|i: int| 0 <= i < scans.len() ==> settled(#[trigger] scans[i], state.scans),
    ensures
        state.after_scans(scans, running).apps == state.apps,
        state.after_scans(scans, running).scans == state.scans,
        forall|i: int|
            0 <= i < state.apps.len() && in_present(
                (#[trigger] state.apps[i]).source_path,
                scans,
            ) ==> state.after_scans(scans, running).seen.contains(state.apps[i].source_path),
    decreases scans.len(),
{
    if scans.len() > 0 {
        let rest = scans.drop_last();
        let last = scans.last();
        assert forall|i: int| 0 <= i < rest.len() implies settled(
            #[trigger] rest[i],
            state.scans,
        ) by {
            assert(rest[i] == scans[i]);
        }
        lemma_settled_scans(state, rest, running);
        let before = state.after_scans(rest, running);
        let after = state.after_scans(scans, running);
        assert(settled(scans[scans.len() - 1], state.scans));
        let more = if last.mtime is Some {
            paths_inside(before.apps, last.directory)
        } else {
            Seq::empty()
        };
        assert(after.seen =~= before.seen + more);
        assert forall|i: int|
            0 <= i < state.apps.len() && in_present(
                (#[trigger] state.apps[i]).source_path,
                scans,
            ) implies after.seen.contains(state.apps[i].source_path) by {
            let path = state.apps[i].source_path;
            let k = choose|k: int|
                0 <= k < scans.len() && (#[trigger] scans[k]).mtime is Some && begins(
                    path,
                    inside(scans[k].directory),
                );
            if k == scans.len() - 1 {
                lemma_paths_inside(state.apps, last.directory, i);
                let m = choose|m: int| 0 <= m < more.len() && more[m] == path;
                assert(after.seen[before.seen.len() + m] == path);
            } else {
                assert(rest[k] == scans[k]);
                assert(in_present(path, rest));
                let m = choose|m: int| 0 <= m < before.seen.len() && before.seen[m] == path;
                assert(after.seen[m] == path);
            }
        }
    }
}

/// Nothing is pruned where the files of all rows were seen.
proof fn lemma_nothing_pruned(rows: Seq<Row>, seen: Seq<Seq<char>>, scans: Seq<Scan>)
    requires
        forall|i: int|
            0 <= i < rows.len() && in_scans((#[trigger] rows[i]).source_path, scans)
                ==> seen.contains(rows[i].source_path),
    ensures
        pruned(rows, seen, scans) == rows,
    decreases rows.len(),
{
    if rows.len() > 0 {
        let rest = rows.drop_last();
        assert forall|i: int|
            0 <= i < rest.len() && in_scans(
                (#[trigger] rest[i]).source_path,
                scans,
            ) implies seen.contains(rest[i].source_path) by {
            assert(rest[i] == rows[i]);
        }
        lemma_nothing_pruned(rest, seen, scans);
        assert(rows[rows.len() - 1] == rows.last());
        assert(rest.push(rows.last()) =~= rows);
    }
}

/// Where all directories are there, but each has not changed since it was last
/// scanned or cannot be listed, a refresh changes nothing.
pub proof fn directories_that_are_not_walked_keep_the_cache(
    tables: Tables,
    scans: Seq<Scan>,
    running: Seq<Seq<char>>,
)
    requires
        forall|i: int| 0 <= i < scans.len() ==> (#[trigger] scans[i]).mtime is Some,
        forall|i: int| 0 <= i < scans.len() ==> settled(#[trigger] scans[i], tables.scans),
    ensures
        tables.refreshed(scans, running) == tables,
{
    let start = Refreshing { apps: tables.apps, scans: tables.scans, seen: Seq::empty() };
    lemma_settled_scans(start, scans, running);
    let end = start.after_scans(scans, running);
    assert forall|i: int|
        0 <= i < end.apps.len() && in_scans(
            (#[trigger] end.apps[i]).source_path,
            scans,
        ) implies end.seen.contains(end.apps[i].source_path) by {
        let path = end.apps[i].source_path;
        let k = choose|k: int|
            0 <= k < scans.len() && begins(path, inside((#[trigger] scans[k]).directory));
        assert(in_present(path, scans));
        assert(start.apps[i] == end.apps[i]);
    }
    lemma_nothing_pruned(end.apps, end.seen, scans);
}

/// Where no directory has changed since it was last scanned, a refresh changes
/// nothing, whatever files the directories are said to hold.
pub proof fn unchanged_directories_keep_the_cache(
    tables: Tables,
    scans: Seq<Scan>,
    running: Seq<Seq<char>>,
)
    requires
        forall|i: int| 0 <= i < scans.len() ==> unchanged(#[trigger] scans[i], tables.scans),
    ensures
        tables.refreshed(scans, running) == tables,
{
    assert forall|i: int| 0 <= i < scans.len() implies (#[trigger] scans[i]).mtime is Some by {
        assert(unchanged(scans[i], tables.scans));
    }
    directories_that_are_not_walked_keep_the_cache(tables, scans, running);
}

/// Walking files leaves the list of scanned directories alone.
pub proof fn lemma_files_keep_scans(state: Refreshing, files: Seq<File>, running: Seq<Seq<char>>)
    ensures
        state.after_files(files, running).scans == state.scans,
    decreases files.len(),
{
    if files.len() > 0 {
        lemma_files_keep_scans(state, files.drop_last(), running);
    }
}

/// Whether a directory that is given twice is found alike, and the files of
/// each directory lie inside it.
pub open spec fn found_alike(scans: Seq<Scan>) -> bool {
    &&& forall|i: int, j: int|
        0 <= i < scans.len() && 0 <= j < scans.len() && (#[trigger] scans[i]).directory == (
        #[trigger] scans[j]).directory ==> scans[i].mtime == scans[j].mtime
    &&& forall|i: int|
        0 <= i < scans.len() && (#[trigger] scans[i]).files is Some ==> all_inside(
            scans[i].files->0,
            scans[i].directory,
        )
}

/// Whether some files lie inside a directory.
pub open spec fn all_inside(files: Seq<File>, directory: Seq<char>) -> bool {
    forall|i: int|
        0 <= i < files.len() ==> begins((#[trigger] files[i]).path, inside(directory))
}

/// Whether some directories are found again as they were: each was changed when
/// it was before, and one that could not be listed when it had changed cannot
/// be listed now. Files may have changed in place.
pub open spec fn found_again(
    scans: Seq<Scan>,
    again: Seq<Scan>,
    known: Map<Seq<char>, i64>,
) -> bool {
    &&& scans.len() == again.len()
    &&& forall|i: int|
        0 <= i < scans.len() ==> {
            &&& (#[trigger] again[i]).directory == scans[i].directory
            &&& again[i].mtime == scans[i].mtime
            &&& scans[i].files is None && !unchanged(scans[i], known) ==> again[i].files is None
        }
}

/// The first directories of some that are found alike.
proof fn lemma_first_alike(scans: Seq<Scan>)
    requires
        scans.len() > 0,
        found_alike(scans),
    ensures
        found_alike(scans.drop_last()),
{
    let rest = scans.drop_last();
    assert forall|i: int, j: int|
        0 <= i < rest.len() && 0 <= j < rest.len() && (#[trigger] rest[i]).directory == (
        #[trigger] rest[j]).directory implies rest[i].mtime == rest[j].mtime by {
        assert(rest[i] == scans[i] && rest[j] == scans[j]);
    }
    assert forall|i: int|
        0 <= i < rest.len() && (#[trigger] rest[i]).files is Some implies all_inside(
        rest[i].files->0,
        rest[i].directory,
    ) by {
        assert(rest[i] == scans[i]);
    }
}

/// A directory that has not changed stays so while one that is found alike is
/// scanned.
proof fn lemma_scan_keeps_unchanged(
    state: Refreshing,
    scan: Scan,
    other: Scan,
    running: Seq<Seq<char>>,
)
    requires
        unchanged(other, state.scans),
        scan.directory == other.directory ==> scan.mtime == other.mtime,
    ensures
        unchanged(other, state.after_scan(scan, running).scans),
{
    if let Some(files) = scan.files {
        lemma_files_keep_scans(state, files, running);
    }
}

/// Each directory that was listed, or had not changed, is known as it was
/// found.
proof fn lemma_scans_are_noted(state: Refreshing, scans: Seq<Scan>, running: Seq<Seq<char>>, i: int)
    requires
        0 <= i < scans.len(),
        found_alike(scans),
        scans[i].mtime is Some,
        scans[i].files is Some || unchanged(scans[i], state.scans),
    ensures
        unchanged(scans[i], state.after_scans(scans, running).scans),
    decreases scans.len(),
{
    let rest = scans.drop_last();
    let before = state.after_scans(rest, running);
    let last = scans.last();
    assert(last == scans[scans.len() - 1]);
    lemma_first_alike(scans);
    if i < scans.len() - 1 {
        assert(rest[i] == scans[i]);
        lemma_scans_are_noted(state, rest, running, i);
        lemma_scan_keeps_unchanged(before, last, scans[i], running);
    } else {
        if unchanged(last, state.scans) {
            lemma_scans_keep_unchanged(state, scans, running, i, rest.len());
        }
        if let Some(files) = last.files {
            lemma_files_keep_scans(before, files, running);
        }
    }
}

/// A directory that has not changed stays so while the first of some that are
/// found alike are scanned.
proof fn lemma_scans_keep_unchanged(
    state: Refreshing,
    scans: Seq<Scan>,
    running: Seq<Seq<char>>,
    i: int,
    n: nat,
)
    requires
        0 <= i < scans.len(),
        n <= scans.len(),
        found_alike(scans),
        unchanged(scans[i], state.scans),
    ensures
        unchanged(scans[i], state.after_scans(scans.take(n as int), running).scans),
    decreases n,
{
    if n > 0 {
        let first = scans.take(n as int);
        lemma_scans_keep_unchanged(state, scans, running, i, (n - 1) as nat);
        assert(first.drop_last() =~= scans.take(n - 1));
        assert(first.last() == scans[n - 1]);
        lemma_scan_keeps_unchanged(
            state.after_scans(first.drop_last(), running),
            first.last(),
            scans[i],
            running,
        );
    }
}

/// The files that a walk sees lie inside the directory.
proof fn lemma_walk_sees_inside(
    state: Refreshing,
    files: Seq<File>,
    running: Seq<Seq<char>>,
    directory: Seq<char>,
)
    requires
        all_inside(files, directory),
    ensures
        forall|x: Seq<char>| #[trigger]
            state.after_files(files, running).seen.contains(x) ==> state.seen.contains(x) || begins(
                x,
                inside(directory),
            ),
    decreases files.len(),
{
    if files.len() > 0 {
        let rest = files.drop_last();
        assert forall|i: int| 0 <= i < rest.len() implies begins(
            (#[trigger] rest[i]).path,
            inside(directory),
        ) by {
            assert(rest[i] == files[i]);
        }
        lemma_walk_sees_inside(state, rest, running, directory);
        let before = state.after_files(rest, running);
        assert(begins(files[files.len() - 1].path, inside(directory)));
        assert forall|x: Seq<char>| #[trigger]
            state.after_files(files, running).seen.contains(x) implies state.seen.contains(x)
            || begins(x, inside(directory)) by {
            lemma_push_contains(before.seen, files.last().path, x);
        }
    }
}

/// The files that are seen in the cache lie inside the directory.
pub proof fn lemma_paths_are_inside(rows: Seq<Row>, directory: Seq<char>)
    ensures
        forall|x: Seq<char>| #[trigger]
            paths_inside(rows, directory).contains(x) ==> begins(x, inside(directory)),
    decreases rows.len(),
{
    if rows.len() > 0 {
        lemma_paths_are_inside(rows.drop_last(), directory);
        let before = paths_inside(rows.drop_last(), directory);
        assert forall|x: Seq<char>| #[trigger]
            paths_inside(rows, directory).contains(x) implies begins(x, inside(directory)) by {
            lemma_push_contains(before, rows.last().source_path, x);
        }
    }
}

/// What is seen while a directory is scanned lies inside it, and the directory
/// is not missing.
proof fn lemma_scan_sees_inside(state: Refreshing, scan: Scan, running: Seq<Seq<char>>)
    requires
        scan.files is Some ==> all_inside(scan.files->0, scan.directory),
    ensures
        forall|x: Seq<char>| #[trigger]
            state.after_scan(scan, running).seen.contains(x) ==> state.seen.contains(x) || (begins(
                x,
                inside(scan.directory),
            ) && scan.mtime is Some),
{
    let after = state.after_scan(scan, running);
    let more = paths_inside(state.apps, scan.directory);
    lemma_paths_are_inside(state.apps, scan.directory);
    if let Some(files) = scan.files {
        lemma_walk_sees_inside(state, files, running, scan.directory);
    }
    assert forall|x: Seq<char>| #[trigger] after.seen.contains(x) implies state.seen.contains(x)
        || (begins(x, inside(scan.directory)) && scan.mtime is Some) by {
        if scan.mtime is Some && settled(scan, state.scans) {
            let k = choose|k: int| 0 <= k < after.seen.len() && after.seen[k] == x;
            if k < state.seen.len() {
                assert(state.seen[k] == x);
            } else {
                assert(more[k - state.seen.len()] == x);
                assert(more.contains(x));
            }
        }
    }
}

/// What is seen while directories are scanned lies inside one that is not
/// missing.
proof fn lemma_seen_inside(state: Refreshing, scans: Seq<Scan>, running: Seq<Seq<char>>)
    requires
        found_alike(scans),
        state.seen.len() == 0,
    ensures
        forall|x: Seq<char>| #[trigger]
            state.after_scans(scans, running).seen.contains(x) ==> in_present(x, scans),
    decreases scans.len(),
{
    if scans.len() > 0 {
        let rest = scans.drop_last();
        let last = scans.last();
        assert(last == scans[scans.len() - 1]);
        lemma_first_alike(scans);
        lemma_seen_inside(state, rest, running);
        let before = state.after_scans(rest, running);
        let after = state.after_scans(scans, running);
        lemma_scan_sees_inside(before, last, running);
        assert forall|x: Seq<char>| #[trigger] after.seen.contains(x) implies in_present(
            x,
            scans,
        ) by {
            if before.seen.contains(x) {
                let k = choose|k: int|
                    0 <= k < rest.len() && (#[trigger] rest[k]).mtime is Some && begins(
                        x,
                        inside(rest[k].directory),
                    );
                assert(rest[k] == scans[k]);
            } else {
                assert(scans[scans.len() - 1].mtime is Some);
            }
        }
    }
}

/// A second refresh from directories that are found as they were changes
/// nothing. Directories may be missing or closed, and files may have been
/// edited in place.
pub proof fn refreshing_again_changes_nothing(
    tables: Tables,
    scans: Seq<Scan>,
    again: Seq<Scan>,
    running: Seq<Seq<char>>,
)
    requires
        found_alike(scans),
        found_again(scans, again, tables.scans),
    ensures
        tables.refreshed(scans, running).refreshed(again, running) == tables.refreshed(
            scans,
            running,
        ),
{
    let start = Refreshing { apps: tables.apps, scans: tables.scans, seen: Seq::empty() };
    let end = start.after_scans(scans, running);
    let once = tables.refreshed(scans, running);
    let second = Refreshing { apps: once.apps, scans: once.scans, seen: Seq::empty() };
    assert forall|i: int| 0 <= i < again.len() implies settled(
        #[trigger] again[i],
        once.scans,
    ) by {
        if scans[i].mtime is Some && (scans[i].files is Some || unchanged(
            scans[i],
            tables.scans,
        )) {
            lemma_scans_are_noted(start, scans, running, i);
        }
    }
    lemma_settled_scans(second, again, running);
    lemma_seen_inside(start, scans, running);
    pruning_forgets_unseen_files_alone(end.apps, end.seen, scans);
    let seen = second.after_scans(again, running).seen;
    assert forall|i: int|
        0 <= i < once.apps.len() && in_scans(
            (#[trigger] once.apps[i]).source_path,
            again,
        ) implies seen.contains(once.apps[i].source_path) by {
        let path = once.apps[i].source_path;
        let k = choose|k: int|
            0 <= k < again.len() && begins(path, inside((#[trigger] again[k]).directory));
        assert(begins(path, inside(scans[k].directory)));
        assert(in_scans(path, scans));
        assert(once.apps.contains(once.apps[i]));
        assert(end.seen.contains(path));
        let m = choose|m: int|
            0 <= m < scans.len() && (#[trigger] scans[m]).mtime is Some && begins(
                path,
                inside(scans[m].directory),
            );
        assert(again[m].mtime is Some);
        assert(in_present(path, again));
        assert(second.apps[i] == once.apps[i]);
    }
    lemma_nothing_pruned(once.apps, seen, again);
}

/// Rows from files that are gone from a directory that was walked are
/// forgotten, also where no file was seen at all.
pub proof fn gone_files_are_forgotten(tables: Tables, scans: Seq<Scan>, running: Seq<Seq<char>>)
    ensures
        forall|i: int|
            0 <= i < tables.refreshed(scans, running).apps.len() && in_scans(
                (#[trigger] tables.refreshed(scans, running).apps[i]).source_path,
                scans,
            ) ==> (Refreshing {
                apps: tables.apps,
                scans: tables.scans,
                seen: Seq::empty(),
            }).after_scans(scans, running).seen.contains(
                tables.refreshed(scans, running).apps[i].source_path,
            ),
{
    let start = Refreshing { apps: tables.apps, scans: tables.scans, seen: Seq::empty() };
    let end = start.after_scans(scans, running);
    let rows = tables.refreshed(scans, running).apps;
    pruning_forgets_unseen_files_alone(end.apps, end.seen, scans);
    assert forall|i: int|
        0 <= i < rows.len() && in_scans((#[trigger] rows[i]).source_path, scans) implies
        end.seen.contains(rows[i].source_path) by {
        assert(rows.contains(rows[i]));
    }
}

/// A walk over files of which none is a desktop file sees nothing.
proof fn lemma_walk_sees_nothing(state: Refreshing, files: Seq<File>, running: Seq<Seq<char>>)
    requires
        forall|i: int|
            0 <= i < files.len() ==> !has_ending((#[trigger] files[i]).path, ".desktop"@),
    ensures
        state.after_files(files, running) == state,
    decreases files.len(),
{
    if files.len() > 0 {
        let rest = files.drop_last();
        assert forall|i: int| 0 <= i < rest.len() implies !has_ending(
            (#[trigger] rest[i]).path,
            ".desktop"@,
        ) by {
            assert(rest[i] == files[i]);
        }
        lemma_walk_sees_nothing(state, rest, running);
        assert(!has_ending(files[files.len() - 1].path, ".desktop"@));
    }
}

/// A directory that has changed and holds no desktop file any more has no rows
/// any more.
pub proof fn an_emptied_directory_has_no_rows(
    tables: Tables,
    scan: Scan,
    running: Seq<Seq<char>>,
)
    requires
        scan.mtime is Some,
        !unchanged(scan, tables.scans),
        scan.files is Some,
        forall|i: int|
            0 <= i < scan.files->0.len() ==> !has_ending(
                (#[trigger] scan.files->0[i]).path,
                ".desktop"@,
            ),
    ensures
        forall|i: int|
            0 <= i < tables.refreshed(seq![scan], running).apps.len() ==> !begins(
                (#[trigger] tables.refreshed(seq![scan], running).apps[i]).source_path,
                inside(scan.directory),
            ),
{
    let start = Refreshing { apps: tables.apps, scans: tables.scans, seen: Seq::empty() };
    let scans = seq![scan];
    let end = start.after_scans(scans, running);
    let rows = tables.refreshed(scans, running).apps;
    assert(scans.drop_last() =~= Seq::<Scan>::empty());
    assert(start.after_scans(scans.drop_last(), running) == start);
    lemma_walk_sees_nothing(start, scan.files->0, running);
    assert(end.seen.len() == 0);
    gone_files_are_forgotten(tables, scans, running);
    assert forall|i: int| 0 <= i < rows.len() implies !begins(
        (#[trigger] rows[i]).source_path,
        inside(scan.directory),
    ) by {
        if begins(rows[i].source_path, inside(scan.directory)) {
            assert(scans[0] == scan);
            assert(in_scans(rows[i].source_path, scans));
        }
    }
}

/// The entries are the cached apps, each once, in the order of their names;
/// the case of ASCII letters does not count.
pub proof fn entries_are_the_rows_by_name(tables: Tables, overrides: Map<Seq<char>, Seq<char>>)
    ensures
        tables.entries(overrides).len() == tables.apps.len(),
        forall|i: int|
            0 <= i < tables.apps.len() ==> tables.entries(overrides).contains(
                row_entry(#[trigger] tables.apps[i], overrides),
            ),
        forall|i: int, j: int|
            0 <= i < j < tables.apps.len() ==> !lex_less(
                ascii_lower((#[trigger] tables.entries(overrides)[j]).name),
                ascii_lower((#[trigger] tables.entries(overrides)[i]).name),
            ),
{
    let ranks = name_ranks(tables.apps);
    let order = ranked(ranks);
    let entries = tables.entries(overrides);
    ranking_is_a_stable_sort(ranks);
    assert forall|i: int| 0 <= i < tables.apps.len() implies entries.contains(
        row_entry(#[trigger] tables.apps[i], overrides),
    ) by {
        assert(order.contains(i));
        let k = choose|k: int| 0 <= k < order.len() && order[k] == i;
        assert(entries[k] == row_entry(tables.apps[i], overrides));
    }
    assert forall|i: int, j: int| 0 <= i < j < tables.apps.len() implies !lex_less(
        ascii_lower((#[trigger] entries[j]).name),
        ascii_lower((#[trigger] entries[i]).name),
    ) by {
        assert(!outranks(ranks[order[j]], ranks[order[i]]));
    }
}

/// Each launched app has its name in the list of launched names, once.
proof fn lemma_launched_names(launches: Seq<Launched>)
    ensures
        launched_names(launches).no_duplicates(),
        forall|i: int|
            0 <= i < launches.len() ==> launched_names(launches).contains(
                (#[trigger] launches[i]).name,
            ),
    decreases launches.len(),
{
    if launches.len() > 0 {
        let rest = launches.drop_last();
        lemma_launched_names(rest);
        let before = launched_names(rest);
        assert forall|i: int| 0 <= i < launches.len() implies launched_names(launches).contains(
            (#[trigger] launches[i]).name,
        ) by {
            lemma_push_contains(before, launches.last().name, launches[i].name);
            if i < launches.len() - 1 {
                assert(rest[i] == launches[i]);
            }
        }
    }
}

/// The list of recent apps holds each launched app once, by its latest launch.
pub proof fn recent_lists_each_app_once(tables: Tables)
    ensures
        tables.recent().no_duplicates(),
        forall|i: int|
            0 <= i < tables.launches.len() ==> tables.recent().contains(
                (#[trigger] tables.launches[i]).name,
            ),
        forall|i: int, j: int|
            0 <= i < j < tables.recent().len() ==> !lex_less(
                last_stamp(tables.launches, #[trigger] tables.recent()[i]),
                last_stamp(tables.launches, #[trigger] tables.recent()[j]),
            ),
{
    let ranks = launch_ranks(tables.launches);
    let names = launched_names(tables.launches);
    let order = ranked(ranks);
    let recent = tables.recent();
    ranking_is_a_stable_sort(ranks);
    lemma_launched_names(tables.launches);
    assert forall|i: int, j: int| 0 <= i < recent.len() && 0 <= j < recent.len() && i
        != j implies recent[i] != recent[j] by {
        assert(order[i] != order[j]);
        assert(names[order[i]] != names[order[j]]);
    }
    assert forall|i: int| 0 <= i < tables.launches.len() implies recent.contains(
        (#[trigger] tables.launches[i]).name,
    ) by {
        let at = choose|at: int| 0 <= at < names.len() && names[at] == tables.launches[i].name;
        assert(order.contains(at));
        let k = choose|k: int| 0 <= k < order.len() && order[k] == at;
        assert(recent[k] == names[at]);
    }
    assert forall|i: int, j: int| 0 <= i < j < recent.len() implies !lex_less(
        last_stamp(tables.launches, #[trigger] recent[i]),
        last_stamp(tables.launches, #[trigger] recent[j]),
    ) by {
        assert(!outranks(ranks[order[j]], ranks[order[i]]));
    }
}

/// The latest stamp of an app is none that is later than all stamps.
proof fn lemma_last_stamp_below(launches: Seq<Launched>, name: Seq<char>, ts: Seq<char>)
    requires
        ts.len() > 0,
        forall|i: int| 0 <= i < launches.len() ==> lex_less((#[trigger] launches[i]).ts, ts),
    ensures
        lex_less(last_stamp(launches, name), ts),
    decreases launches.len(),
{
    if launches.len() > 0 {
        let rest = launches.drop_last();
        assert forall|i: int| 0 <= i < rest.len() implies lex_less(
            (#[trigger] rest[i]).ts,
            ts,
        ) by {
            assert(rest[i] == launches[i]);
        }
        lemma_last_stamp_below(rest, name, ts);
        assert(lex_less(launches[launches.len() - 1].ts, ts));
    }
}

/// An app whose launch has a later stamp than all launches before it is the
/// most recent one.
pub proof fn the_latest_launch_is_the_most_recent(tables: Tables, ts: Seq<char>, name: Seq<char>)
    requires
        ts.len() > 0,
        forall|i: int|
            0 <= i < tables.launches.len() ==> lex_less((#[trigger] tables.launches[i]).ts, ts),
    ensures
        tables.launched(ts, name).recent().len() > 0,
        tables.launched(ts, name).recent()[0] == name,
{
    let next = tables.launched(ts, name);
    let launches = next.launches;
    assert(launches.drop_last() =~= tables.launches);
    recent_lists_each_app_once(next);
    assert(launches[launches.len() - 1].name == name);
    let recent = next.recent();
    let k = choose|k: int| 0 <= k < recent.len() && recent[k] == name;
    lemma_last_stamp_below(tables.launches, name, ts);
    assert(last_stamp(launches, name) == ts);
    if k > 0 {
        lemma_last_stamp_below(tables.launches, recent[0], ts);
        assert(recent[0] != recent[k]);
        assert(last_stamp(launches, recent[0]) == last_stamp(tables.launches, recent[0]));
        assert(lex_less(last_stamp(launches, recent[0]), last_stamp(launches, recent[k])));
    }
}

/// A launch since the cutoff raises the count of its app by one and leaves the
/// counts of all others.
pub proof fn a_launch_raises_its_count(
    tables: Tables,
    ts: Seq<char>,
    name: Seq<char>,
    cutoff: Seq<char>,
)
    requires
        !lex_less(ts, cutoff),
    ensures
        count_since(tables.launched(ts, name).launches, name, cutoff) == count_since(
            tables.launches,
            name,
            cutoff,
        ) + 1,
        forall|other: Seq<char>|
            other != name ==> #[trigger] count_since(
                tables.launched(ts, name).launches,
                other,
                cutoff,
            ) == count_since(tables.launches, other, cutoff),
{
    assert(tables.launched(ts, name).launches.drop_last() =~= tables.launches);
}

/// The launches that a list of recent apps is taken over as.
proof fn lemma_legacy_launches(tables: Tables, names: Seq<Seq<char>>, now: int)
    requires
        tables.launches.len() == 0,
        names.no_duplicates(),
    ensures
        tables.with_legacy(names, now).launches.len() == names.len(),
        forall|i: int|
            0 <= i < names.len() ==> (#[trigger] tables.with_legacy(names, now).launches[i])
                == (Launched { ts: stamp(minutes_before(now, i)), name: names[i] }),
        launched_names(tables.with_legacy(names, now).launches) == names,
    decreases names.len(),
{
    let launches = tables.with_legacy(names, now).launches;
    if names.len() > 0 {
        let rest = names.drop_last();
        lemma_legacy_launches(tables, rest, now);
        let before = tables.with_legacy(rest, now).launches;
        assert(launches.drop_last() =~= before);
        assert(!rest.contains(names.last()));
        assert(rest.push(names.last()) =~= names);
        assert forall|i: int| 0 <= i < names.len() implies (#[trigger] launches[i]) == (Launched {
            ts: stamp(minutes_before(now, i)),
            name: names[i],
        }) by {
            if i < rest.len() {
                assert(launches[i] == before[i]);
            }
        }
    } else {
        assert(launched_names(launches) =~= names);
    }
}

/// The latest stamp of an app that was launched once.
proof fn lemma_only_stamp(launches: Seq<Launched>, at: int)
    requires
        0 <= at < launches.len(),
        forall|i: int|
            0 <= i < launches.len() && i != at ==> (#[trigger] launches[i]).name
                != launches[at].name,
    ensures
        last_stamp(launches, launches[at].name) == launches[at].ts,
    decreases launches.len(),
{
    let rest = launches.drop_last();
    let name = launches[at].name;
    if at < launches.len() - 1 {
        assert(rest[at] == launches[at]);
        assert forall|i: int| 0 <= i < rest.len() && i != at implies (#[trigger] rest[i]).name
            != name by {
            assert(rest[i] == launches[i]);
        }
        lemma_only_stamp(rest, at);
        assert(launches[launches.len() - 1].name != name);
    } else {
        assert forall|i: int| 0 <= i < rest.len() implies (#[trigger] rest[i]).name != name by {
            assert(rest[i] == launches[i]);
        }
        lemma_no_stamp(rest, name);
        assert(launches[at].ts.len() == 0 ==> launches[at].ts =~= Seq::<char>::empty());
    }
}

/// The latest stamp of an app that was never launched.
proof fn lemma_no_stamp(launches: Seq<Launched>, name: Seq<char>)
    requires
        forall|i: int| 0 <= i < launches.len() ==> (#[trigger] launches[i]).name != name,
    ensures
        last_stamp(launches, name) == Seq::<char>::empty(),
    decreases launches.len(),
{
    if launches.len() > 0 {
        let rest = launches.drop_last();
        assert forall|i: int| 0 <= i < rest.len() implies (#[trigger] rest[i]).name != name by {
            assert(rest[i] == launches[i]);
        }
        lemma_no_stamp(rest, name);
        assert(launches[launches.len() - 1].name != name);
    }
}

/// A list of recent apps that is taken over into empty tables keeps its order.
pub proof fn legacy_apps_keep_their_order(tables: Tables, names: Seq<Seq<char>>, now: int)
    requires
        tables.launches.len() == 0,
        names.no_duplicates(),
        forall|i: int|
            0 <= i < names.len() ==> in_stamp_order(#[trigger] minutes_before(now, i)) && padded(
                minutes_before(now, i),
            ),
    ensures
        tables.with_legacy(names, now).recent() == names,
{
    let launches = tables.with_legacy(names, now).launches;
    let ranks = launch_ranks(launches);
    lemma_legacy_launches(tables, names, now);
    assert forall|i: int, j: int| 0 <= i < j < ranks.len() implies !outranks(
        ranks[j],
        ranks[i],
    ) by {
        let early = minutes_before(now, j);
        let late = minutes_before(now, i);
        assert(lex_less(stamp(early), stamp(late)));
        assert(launches[i].name == names[i] && launches[j].name == names[j]);
        assert forall|k: int| 0 <= k < launches.len() && k != i implies (
        #[trigger] launches[k]).name != launches[i].name by {
            assert(names[k] != names[i]);
        }
        lemma_only_stamp(launches, i);
        assert forall|k: int| 0 <= k < launches.len() && k != j implies (
        #[trigger] launches[k]).name != launches[j].name by {
            assert(names[k] != names[j]);
        }
        lemma_only_stamp(launches, j);
        assert(lex_less(ranks[j].stamp, ranks[i].stamp));
        if outranks(ranks[j], ranks[i]) {
            lemma_lex_irreflexive(stamp(late));
            if lex_less(ranks[i].stamp, ranks[j].stamp) {
                lemma_lex_transitive(stamp(late), stamp(early), stamp(late));
            }
        }
    }
    ranking_keeps_what_is_in_order(ranks);
    assert(tables.with_legacy(names, now).recent() =~= names);
}

/// The rank of a name by its latest launch.
pub open spec fn launch_rank_of(launches: Seq<Launched>, name: Seq<char>) -> Rank {
    Rank { weight: 0, stamp: last_stamp(launches, name), text: name }
}

/// Whether each name of a list outranks all names behind it.
pub open spec fn by_latest_launch(names: Seq<Seq<char>>, launches: Seq<Launched>) -> bool {
    forall|i: int, j: int|
        0 <= i < j < names.len() ==> outranks(
            launch_rank_of(launches, #[trigger] names[i]),
            launch_rank_of(launches, #[trigger] names[j]),
        )
}

/// There is one order of some names by their latest launches.
pub proof fn lemma_one_order(s: Seq<Seq<char>>, t: Seq<Seq<char>>, launches: Seq<Launched>)
    requires
        by_latest_launch(s, launches),
        by_latest_launch(t, launches),
        forall|x: Seq<char>| s.contains(x) <==> t.contains(x),
    ensures
        s == t,
    decreases s.len(),
{
    if s.len() == 0 {
        if t.len() > 0 {
            assert(t.contains(t[0]));
        }
        assert(s =~= t);
    } else {
        assert(s.contains(s[0]));
        let k = choose|k: int| 0 <= k < t.len() && t[k] == s[0];
        assert(t.contains(t[0]));
        let m = choose|m: int| 0 <= m < s.len() && s[m] == t[0];
        if k > 0 && m > 0 {
            lemma_outranks_transitive(
                launch_rank_of(launches, s[0]),
                launch_rank_of(launches, s[m]),
                launch_rank_of(launches, s[0]),
            );
            lemma_outranks_irreflexive(launch_rank_of(launches, s[0]));
        }
        assert(s[0] == t[0]);
        let first = s[0];
        let a = s.drop_first();
        let b = t.drop_first();
        assert forall|x: Seq<char>| a.contains(x) implies b.contains(x) by {
            lemma_rest_holds(s, t, launches, x);
        }
        assert forall|x: Seq<char>| b.contains(x) implies a.contains(x) by {
            lemma_rest_holds(t, s, launches, x);
        }
        assert forall|i: int, j: int| 0 <= i < j < a.len() implies outranks(
            launch_rank_of(launches, #[trigger] a[i]),
            launch_rank_of(launches, #[trigger] a[j]),
        ) by {
            assert(a[i] == s[i + 1] && a[j] == s[j + 1]);
        }
        assert forall|i: int, j: int| 0 <= i < j < b.len() implies outranks(
            launch_rank_of(launches, #[trigger] b[i]),
            launch_rank_of(launches, #[trigger] b[j]),
        ) by {
            assert(b[i] == t[i + 1] && b[j] == t[j + 1]);
        }
        lemma_one_order(a, b, launches);
        assert(s =~= seq![first] + a);
        assert(t =~= seq![first] + b);
    }
}

/// What stands behind the first name of one list stands behind the same first
/// name of the other.
proof fn lemma_rest_holds(
    s: Seq<Seq<char>>,
    t: Seq<Seq<char>>,
    launches: Seq<Launched>,
    x: Seq<char>,
)
    requires
        by_latest_launch(s, launches),
        s.len() > 0,
        t.len() > 0,
        s[0] == t[0],
        s.drop_first().contains(x),
        forall|y: Seq<char>| s.contains(y) <==> t.contains(y),
    ensures
        t.drop_first().contains(x),
{
    let rest = s.drop_first();
    let i = choose|i: int| 0 <= i < rest.len() && rest[i] == x;
    assert(s[i + 1] == x);
    assert(s.contains(x));
    if x == s[0] {
        assert(outranks(launch_rank_of(launches, s[0]), launch_rank_of(launches, s[i + 1])));
        lemma_outranks_irreflexive(launch_rank_of(launches, x));
    }
    let k = choose|k: int| 0 <= k < t.len() && t[k] == x;
    assert(t.drop_first()[k - 1] == x);
}

/// The list of launched names holds nothing else.
proof fn lemma_launched_names_only(launches: Seq<Launched>, x: Seq<char>)
    requires
        launched_names(launches).contains(x),
    ensures
        exists|i: int| 0 <= i < launches.len() && (#[trigger] launches[i]).name == x,
    decreases launches.len(),
{
    if launches.len() > 0 {
        let rest = launches.drop_last();
        lemma_push_contains(launched_names(rest), launches.last().name, x);
        if launched_names(rest).contains(x) {
            lemma_launched_names_only(rest, x);
            let i = choose|i: int| 0 <= i < rest.len() && (#[trigger] rest[i]).name == x;
            assert(launches[i].name == x);
        } else {
            assert(launches[launches.len() - 1].name == x);
        }
    }
}

/// The recent apps are the launched ones, by their latest launches.
pub proof fn recent_goes_by_latest_launch(tables: Tables)
    ensures
        by_latest_launch(tables.recent(), tables.launches),
        tables.recent().no_duplicates(),
        forall|x: Seq<char>| #[trigger]
            tables.recent().contains(x) <==> exists|i: int|
                0 <= i < tables.launches.len() && (#[trigger] tables.launches[i]).name == x,
{
    let launches = tables.launches;
    let ranks = launch_ranks(launches);
    let names = launched_names(launches);
    let order = ranked(ranks);
    let recent = tables.recent();
    recent_lists_each_app_once(tables);
    ranking_is_a_stable_sort(ranks);
    assert forall|i: int, j: int| 0 <= i < j < recent.len() implies outranks(
        launch_rank_of(launches, #[trigger] recent[i]),
        launch_rank_of(launches, #[trigger] recent[j]),
    ) by {
        assert(recent[i] == names[order[i]] && recent[j] == names[order[j]]);
        assert(ranks[order[i]] == launch_rank_of(launches, recent[i]));
        assert(ranks[order[j]] == launch_rank_of(launches, recent[j]));
        assert(!outranks(ranks[order[j]], ranks[order[i]]));
        lemma_outranks_total(ranks[order[i]], ranks[order[j]]);
        assert(recent[i] != recent[j]);
    }
    assert forall|x: Seq<char>| #[trigger] recent.contains(x) implies exists|i: int|
        0 <= i < launches.len() && (#[trigger] launches[i]).name == x by {
        let k = choose|k: int| 0 <= k < recent.len() && recent[k] == x;
        assert(names[order[k]] == x);
        assert(names.contains(x));
        lemma_launched_names_only(launches, x);
    }
}

/// A launch with a later stamp than all before it goes to the front of the
/// recent apps and leaves the order of all others.
pub proof fn the_latest_launch_moves_to_the_front(tables: Tables, ts: Seq<char>, name: Seq<char>)
    requires
        ts.len() > 0,
        forall|i: int|
            0 <= i < tables.launches.len() ==> lex_less((#[trigger] tables.launches[i]).ts, ts),
    ensures
        tables.launched(ts, name).recent() == seq![name] + without(tables.recent(), name),
{
    let next = tables.launched(ts, name);
    let before = tables.launches;
    let after = next.launches;
    assert(after.drop_last() =~= before);
    recent_goes_by_latest_launch(tables);
    recent_goes_by_latest_launch(next);
    let old = tables.recent();
    let others = without(old, name);
    let moved = seq![name] + others;
    lemma_without(old, name);
    lemma_without_order(old, name, before);
    lemma_last_stamp_below(before, name, ts);
    assert(last_stamp(after, name) == ts);
    assert forall|i: int, j: int| 0 <= i < j < moved.len() implies outranks(
        launch_rank_of(after, #[trigger] moved[i]),
        launch_rank_of(after, #[trigger] moved[j]),
    ) by {
        assert(moved[j] == others[j - 1]);
        assert(others.contains(others[j - 1]));
        assert(last_stamp(after, moved[j]) == last_stamp(before, moved[j]));
        if i == 0 {
            lemma_last_stamp_below(before, moved[j], ts);
        } else {
            assert(moved[i] == others[i - 1]);
            assert(others.contains(others[i - 1]));
            assert(last_stamp(after, moved[i]) == last_stamp(before, moved[i]));
        }
    }
    assert forall|x: Seq<char>| next.recent().contains(x) <==> moved.contains(x) by {
        lemma_moved_holds(others, name, x);
        if next.recent().contains(x) && x != name {
            let i = choose|i: int| 0 <= i < after.len() && (#[trigger] after[i]).name == x;
            assert(before[i].name == x);
        }
        if old.contains(x) {
            let i = choose|i: int| 0 <= i < before.len() && (#[trigger] before[i]).name == x;
            assert(after[i].name == x);
        }
        assert(after[before.len() as int].name == name);
    }
    lemma_one_order(next.recent(), moved, after);
}

/// What a list with one more name at its front holds.
proof fn lemma_moved_holds(others: Seq<Seq<char>>, name: Seq<char>, x: Seq<char>)
    ensures
        (seq![name] + others).contains(x) <==> x == name || others.contains(x),
{
    let moved = seq![name] + others;
    assert(moved[0] == name);
    if others.contains(x) {
        let i = choose|i: int| 0 <= i < others.len() && others[i] == x;
        assert(moved[i + 1] == x);
    }
    if moved.contains(x) {
        let i = choose|i: int| 0 <= i < moved.len() && moved[i] == x;
        if i > 0 {
            assert(others[i - 1] == x);
        }
    }
}

/// A list by latest launches without one of its names is one, too.
proof fn lemma_without_order(names: Seq<Seq<char>>, name: Seq<char>, launches: Seq<Launched>)
    requires
        by_latest_launch(names, launches),
    ensures
        by_latest_launch(without(names, name), launches),
    decreases names.len(),
{
    if names.len() > 0 {
        let rest = names.drop_last();
        assert forall|i: int, j: int| 0 <= i < j < rest.len() implies outranks(
            launch_rank_of(launches, #[trigger] rest[i]),
            launch_rank_of(launches, #[trigger] rest[j]),
        ) by {
            assert(rest[i] == names[i] && rest[j] == names[j]);
        }
        lemma_without_order(rest, name, launches);
        lemma_without(rest, name);
        let kept = without(rest, name);
        let all = without(names, name);
        assert forall|i: int, j: int| 0 <= i < j < all.len() implies outranks(
            launch_rank_of(launches, #[trigger] all[i]),
            launch_rank_of(launches, #[trigger] all[j]),
        ) by {
            if j == kept.len() {
                assert(kept.contains(kept[i]));
                let k = choose|k: int| 0 <= k < rest.len() && rest[k] == kept[i];
                assert(names[k] == kept[i] && names[rest.len() as int] == names.last());
            } else {
                assert(all[i] == kept[i] && all[j] == kept[j]);
            }
        }
    }
}

} // verus!
