//! What holds of the cached apps after a refresh, file by file.

use vstd::prelude::*;

use crate::desktop::{desktop_app, Cached};
use crate::paths::{has_ending, inside};
use crate::storage::{
    cached_mtime, in_scans, not_from, not_named, paths_inside, File, Refreshing, Row, Scan, Tables,
};
use crate::storage_laws::{
    lemma_files_keep_scans, lemma_not_from, lemma_not_named, lemma_paths_are_inside,
    pruning_forgets_unseen_files_alone,
};
use crate::text::{begins, lemma_push_contains};

verus! {

/// The app that a file gives, where it can be read.
pub open spec fn read_app(file: File, running: Seq<Seq<char>>) -> Option<Cached> {
    match file.content {
        Some(content) => desktop_app(content, running),
        None => None,
    }
}

/// When a file was changed; 0 where that is not known.
pub open spec fn changed_at(file: File) -> i64 {
    match file.mtime {
        Some(t) => t,
        None => 0,
    }
}

/// Whether a file gives an app of some name.
pub open spec fn names(file: File, running: Seq<Seq<char>>, name: Seq<char>) -> bool {
    read_app(file, running) matches Some(app) && app.name == name
}

/// The row of a file that gives an app.
pub open spec fn row_of(file: File, app: Cached) -> Row {
    Row { app, source_path: file.path, file_mtime: changed_at(file) }
}

/// Whether a row is the only one from its file.
pub open spec fn is_only_row(rows: Seq<Row>, row: Row) -> bool {
    &&& rows.contains(row)
    &&& forall|r: Row| #[trigger]
        rows.contains(r) && r.source_path == row.source_path ==> r == row
}

/// Whether a directory is walked: it is there, can be listed, and is not known
/// to be unchanged.
pub open spec fn is_walked(scan: Scan, known: Map<Seq<char>, i64>) -> bool {
    &&& scan.mtime is Some
    &&& scan.files is Some
    &&& !(known.contains_key(scan.directory) && known[scan.directory] == scan.mtime->0)
}

/// Whether a directory is given once.
pub open spec fn is_given_once(scans: Seq<Scan>, a: int) -> bool {
    forall|x: int|
        0 <= x < scans.len() && x != a ==> (#[trigger] scans[x]).directory != scans[a].directory
}

/// Whether some directories list a file.
pub open spec fn lists(scans: Seq<Scan>, x: int, y: int) -> bool {
    0 <= x < scans.len() && scans[x].files is Some && 0 <= y < scans[x].files->0.len()
}

/// The time of the row from a file is that of one of the rows from it.
proof fn lemma_cached_mtime(rows: Seq<Row>, path: Seq<char>)
    ensures
        match cached_mtime(rows, path) {
            Some(t) => exists|r: Row| #[trigger]
                rows.contains(r) && r.source_path == path && r.file_mtime == t,
            None => forall|r: Row| #[trigger] rows.contains(r) ==> r.source_path != path,
        },
    decreases rows.len(),
{
    if rows.len() > 0 {
        let rest = rows.drop_first();
        lemma_cached_mtime(rest, path);
        if rows[0].source_path == path {
            assert(rows.contains(rows[0]));
        } else {
            if let Some(t) = cached_mtime(rest, path) {
                let r = choose|r: Row| #[trigger]
                    rest.contains(r) && r.source_path == path && r.file_mtime == t;
                let i = choose|i: int| 0 <= i < rest.len() && rest[i] == r;
                assert(rows[i + 1] == r);
                assert(rows.contains(r));
            } else {
                assert forall|r: Row| #[trigger] rows.contains(r) implies r.source_path != path by {
                    let i = choose|i: int| 0 <= i < rows.len() && rows[i] == r;
                    if i > 0 {
                        assert(rest[i - 1] == r);
                        assert(rest.contains(r));
                    }
                }
            }
        }
    }
}

/// What rows a file that is read leaves.
proof fn lemma_reread(state: Refreshing, file: File, running: Seq<Seq<char>>)
    ensures
        forall|r: Row| #[trigger]
            state.reread(file, running).contains(r) <==> match read_app(file, running) {
                Some(app) => r == row_of(file, app) || (state.apps.contains(r) && r.source_path
                    != file.path && r.app.name != app.name),
                None => state.apps.contains(r) && r.source_path != file.path,
            },
{
    lemma_not_from(state.apps, file.path);
    let kept = not_from(state.apps, file.path);
    if let Some(app) = read_app(file, running) {
        lemma_not_named(kept, app.name);
        let others = not_named(kept, app.name);
        assert forall|r: Row| #[trigger] state.reread(file, running).contains(r) <==> r == row_of(
            file,
            app,
        ) || (state.apps.contains(r) && r.source_path != file.path && r.app.name
            != app.name) by {
            lemma_push_contains(others, row_of(file, app), r);
        }
    }
}

/// A file gives no row to another file.
proof fn lemma_others_get_no_row(
    state: Refreshing,
    files: Seq<File>,
    running: Seq<Seq<char>>,
    path: Seq<char>,
)
    requires
        forall|j: int| 0 <= j < files.len() ==> (#[trigger] files[j]).path != path,
    ensures
        forall|r: Row| #[trigger]
            state.after_files(files, running).apps.contains(r) && r.source_path == path
                ==> state.apps.contains(r),
        state.after_files(files, running).seen.contains(path) ==> state.seen.contains(path),
        forall|x: Seq<char>|
            state.seen.contains(x) ==> #[trigger] state.after_files(files, running).seen.contains(
                x,
            ),
    decreases files.len(),
{
    if files.len() > 0 {
        let rest = files.drop_last();
        let last = files.last();
        assert(files[files.len() - 1].path != path);
        assert forall|j: int| 0 <= j < rest.len() implies (#[trigger] rest[j]).path != path by {
            assert(rest[j] == files[j]);
        }
        lemma_others_get_no_row(state, rest, running, path);
        let before = state.after_files(rest, running);
        lemma_reread(before, last, running);
        lemma_push_contains(before.seen, last.path, path);
        assert forall|x: Seq<char>|
            state.seen.contains(x) implies #[trigger] state.after_files(
            files,
            running,
        ).seen.contains(x) by {
            lemma_push_contains(before.seen, last.path, x);
        }
    }
}

/// A row stays while files are walked that are not newer than it where they are
/// its own, and that name no other app as it does where they are not.
proof fn lemma_row_stays(
    state: Refreshing,
    files: Seq<File>,
    running: Seq<Seq<char>>,
    row: Row,
)
    requires
        is_only_row(state.apps, row),
        forall|j: int|
            0 <= j < files.len() ==> if (#[trigger] files[j]).path == row.source_path {
                changed_at(files[j]) <= row.file_mtime
            } else {
                !names(files[j], running, row.app.name)
            },
    ensures
        is_only_row(state.after_files(files, running).apps, row),
    decreases files.len(),
{
    if files.len() > 0 {
        let rest = files.drop_last();
        let last = files.last();
        assert forall|j: int| 0 <= j < rest.len() implies if (#[trigger] rest[j]).path
            == row.source_path {
            changed_at(rest[j]) <= row.file_mtime
        } else {
            !names(rest[j], running, row.app.name)
        } by {
            assert(rest[j] == files[j]);
        }
        lemma_row_stays(state, rest, running, row);
        let before = state.after_files(rest, running);
        assert(last == files[files.len() - 1]);
        lemma_reread(before, last, running);
        lemma_cached_mtime(before.apps, last.path);
        if last.path == row.source_path {
            assert(before.apps.contains(row));
            let t = cached_mtime(before.apps, last.path)->0;
            let r = choose|r: Row| #[trigger]
                before.apps.contains(r) && r.source_path == last.path && r.file_mtime == t;
            assert(r == row);
        }
    }
}

/// What a desktop file that is newer than its rows leaves: no row where it gives
/// no app, and else its own row, until another file names an app like it.
proof fn lemma_file_is_read(
    state: Refreshing,
    files: Seq<File>,
    running: Seq<Seq<char>>,
    b: int,
)
    requires
        0 <= b < files.len(),
        has_ending(files[b].path, ".desktop"@),
        forall|j: int|
            0 <= j < files.len() && j != b ==> (#[trigger] files[j]).path != files[b].path,
        forall|r: Row| #[trigger]
            state.apps.contains(r) && r.source_path == files[b].path ==> r.file_mtime < changed_at(
                files[b],
            ),
    ensures
        ({
            let after = state.after_files(files, running);
            &&& forall|r: Row| #[trigger]
                after.apps.contains(r) && r.source_path == files[b].path ==> read_app(
                    files[b],
                    running,
                ) is Some && r == row_of(files[b], read_app(files[b], running)->0)
            &&& read_app(files[b], running) is Some && (forall|j: int|
                b < j < files.len() ==> !names(
                    #[trigger] files[j],
                    running,
                    read_app(files[b], running)->0.name,
                )) ==> is_only_row(after.apps, row_of(files[b], read_app(files[b], running)->0))
            &&& after.seen.contains(files[b].path)
        }),
    decreases files.len(),
{
    let path = files[b].path;
    let rest = files.drop_last();
    let last = files.last();
    let before = state.after_files(rest, running);
    let after = state.after_files(files, running);
    lemma_reread(before, last, running);
    if b == files.len() - 1 {
        assert forall|j: int| 0 <= j < rest.len() implies (#[trigger] rest[j]).path != path by {
            assert(rest[j] == files[j]);
        }
        lemma_others_get_no_row(state, rest, running, path);
        lemma_cached_mtime(before.apps, path);
        if let Some(t) = cached_mtime(before.apps, path) {
            let r = choose|r: Row| #[trigger]
                before.apps.contains(r) && r.source_path == path && r.file_mtime == t;
            assert(state.apps.contains(r));
        }
        assert(after.apps == before.reread(last, running));
        lemma_push_contains(before.seen, path, path);
        if let Some(app) = read_app(last, running) {
            assert(after.apps.contains(row_of(last, app)));
        }
    } else {
        assert(rest[b] == files[b]);
        assert forall|j: int| 0 <= j < rest.len() && j != b implies (#[trigger] rest[j]).path
            != rest[b].path by {
            assert(rest[j] == files[j]);
        }
        lemma_file_is_read(state, rest, running, b);
        assert(files[files.len() - 1].path != path);
        let tail = seq![last];
        assert(before.after_files(tail.drop_last(), running) == before) by {
            assert(tail.drop_last() =~= Seq::<File>::empty());
        }
        assert(before.after_files(tail, running) == after);
        lemma_others_get_no_row(before, tail, running, path);
        if read_app(files[b], running) is Some && (forall|j: int|
            b < j < files.len() ==> !names(
                #[trigger] files[j],
                running,
                read_app(files[b], running)->0.name,
            )) {
            assert forall|j: int| b < j < rest.len() implies !names(
                #[trigger] rest[j],
                running,
                read_app(rest[b], running)->0.name,
            ) by {
                assert(rest[j] == files[j]);
            }
            assert(!names(
                files[files.len() - 1],
                running,
                read_app(files[b], running)->0.name,
            ));
            let row = row_of(files[b], read_app(files[b], running)->0);
            lemma_row_stays(before, tail, running, row);
        }
    }
}

/// What a directory leaves of a file that it does not list.
proof fn lemma_other_scan(
    state: Refreshing,
    scan: Scan,
    running: Seq<Seq<char>>,
    path: Seq<char>,
)
    requires
        scan.files is Some ==> forall|j: int|
            0 <= j < scan.files->0.len() ==> (#[trigger] scan.files->0[j]).path != path,
    ensures
        forall|r: Row| #[trigger]
            state.after_scan(scan, running).apps.contains(r) && r.source_path == path
                ==> state.apps.contains(r),
        forall|x: Seq<char>|
            state.seen.contains(x) ==> #[trigger] state.after_scan(scan, running).seen.contains(x),
{
    if let Some(files) = scan.files {
        lemma_others_get_no_row(state, files, running, path);
    }
    let more = paths_inside(state.apps, scan.directory);
    assert forall|x: Seq<char>|
        state.seen.contains(x) implies #[trigger] state.after_scan(scan, running).seen.contains(
        x,
    ) by {
        let k = choose|k: int| 0 <= k < state.seen.len() && state.seen[k] == x;
        assert((state.seen + more)[k] == x);
    }
}

/// A directory changes what is known of itself alone.
proof fn lemma_scan_notes_itself(state: Refreshing, scan: Scan, running: Seq<Seq<char>>)
    ensures
        forall|d: Seq<char>|
            d != scan.directory ==> (#[trigger] state.after_scan(scan, running).scans.contains_key(
                d,
            ) <==> state.scans.contains_key(d)) && (state.scans.contains_key(d)
                ==> state.after_scan(scan, running).scans[d] == state.scans[d]),
        is_walked(scan, state.scans) ==> state.after_scan(scan, running).scans.contains_key(
            scan.directory,
        ) && state.after_scan(scan, running).scans[scan.directory] == scan.mtime->0,
        !is_walked(scan, state.scans) ==> state.after_scan(scan, running).scans == state.scans,
{
    if let Some(files) = scan.files {
        lemma_files_keep_scans(state, files, running);
    }
}

/// What is known of a directory that is given once, until it is scanned.
proof fn lemma_known_until(
    state: Refreshing,
    scans: Seq<Scan>,
    running: Seq<Seq<char>>,
    directory: Seq<char>,
)
    requires
        forall|x: int| 0 <= x < scans.len() ==> (#[trigger] scans[x]).directory != directory,
    ensures
        state.after_scans(scans, running).scans.contains_key(directory)
            <==> state.scans.contains_key(directory),
        state.scans.contains_key(directory) ==> state.after_scans(scans, running).scans[directory]
            == state.scans[directory],
    decreases scans.len(),
{
    if scans.len() > 0 {
        let rest = scans.drop_last();
        assert forall|x: int| 0 <= x < rest.len() implies (#[trigger] rest[x]).directory
            != directory by {
            assert(rest[x] == scans[x]);
        }
        lemma_known_until(state, rest, running, directory);
        assert(scans[scans.len() - 1].directory != directory);
        lemma_scan_notes_itself(state.after_scans(rest, running), scans.last(), running);
    }
}

/// Directories that do not list a file give it no row.
proof fn lemma_other_scans(
    state: Refreshing,
    scans: Seq<Scan>,
    running: Seq<Seq<char>>,
    path: Seq<char>,
)
    requires
        forall|x: int, y: int| #[trigger]
            lists(scans, x, y) ==> scans[x].files->0[y].path != path,
    ensures
        forall|r: Row| #[trigger]
            state.after_scans(scans, running).apps.contains(r) && r.source_path == path
                ==> state.apps.contains(r),
    decreases scans.len(),
{
    if scans.len() > 0 {
        let rest = scans.drop_last();
        let last = scans.last();
        assert forall|x: int, y: int| #[trigger] lists(rest, x, y) implies rest[x].files->0[y].path
            != path by {
            assert(lists(scans, x, y));
        }
        lemma_other_scans(state, rest, running, path);
        assert forall|j: int|
            last.files is Some && 0 <= j < last.files->0.len() implies (
        #[trigger] last.files->0[j]).path != path by {
            assert(lists(scans, scans.len() - 1, j));
        }
        lemma_other_scan(state.after_scans(rest, running), last, running, path);
    }
}

/// A row stays while directories are scanned whose files leave it.
proof fn lemma_row_stays_in_scans(
    state: Refreshing,
    scans: Seq<Scan>,
    running: Seq<Seq<char>>,
    row: Row,
)
    requires
        is_only_row(state.apps, row),
        forall|x: int, y: int| #[trigger]
            lists(scans, x, y) ==> if scans[x].files->0[y].path == row.source_path {
                changed_at(scans[x].files->0[y]) <= row.file_mtime
            } else {
                !names(scans[x].files->0[y], running, row.app.name)
            },
    ensures
        is_only_row(state.after_scans(scans, running).apps, row),
    decreases scans.len(),
{
    if scans.len() > 0 {
        let rest = scans.drop_last();
        let last = scans.last();
        assert forall|x: int, y: int| #[trigger] lists(rest, x, y) implies if rest[
            x].files->0[y].path == row.source_path {
            changed_at(rest[x].files->0[y]) <= row.file_mtime
        } else {
            !names(rest[x].files->0[y], running, row.app.name)
        } by {
            assert(lists(scans, x, y));
        }
        lemma_row_stays_in_scans(state, rest, running, row);
        if let Some(files) = last.files {
            assert forall|j: int| 0 <= j < files.len() implies if (#[trigger] files[j]).path
                == row.source_path {
                changed_at(files[j]) <= row.file_mtime
            } else {
                !names(files[j], running, row.app.name)
            } by {
                assert(lists(scans, scans.len() - 1, j));
            }
            lemma_row_stays(state.after_scans(rest, running), files, running, row);
        }
    }
}

/// What a desktop file in a directory that is walked leaves.
proof fn lemma_file_is_read_in_scans(
    state: Refreshing,
    scans: Seq<Scan>,
    running: Seq<Seq<char>>,
    a: int,
    b: int,
)
    requires
        lists(scans, a, b),
        is_walked(scans[a], state.scans),
        is_given_once(scans, a),
        has_ending(scans[a].files->0[b].path, ".desktop"@),
        forall|x: int, y: int| #[trigger]
            lists(scans, x, y) && (x != a || y != b) ==> scans[x].files->0[y].path
                != scans[a].files->0[b].path,
        forall|r: Row| #[trigger]
            state.apps.contains(r) && r.source_path == scans[a].files->0[b].path ==> r.file_mtime
                < changed_at(scans[a].files->0[b]),
    ensures
        ({
            let after = state.after_scans(scans, running);
            let file = scans[a].files->0[b];
            &&& forall|r: Row| #[trigger]
                after.apps.contains(r) && r.source_path == file.path ==> read_app(
                    file,
                    running,
                ) is Some && r == row_of(file, read_app(file, running)->0)
            &&& read_app(file, running) is Some && (forall|x: int, y: int| #[trigger]
                lists(scans, x, y) && (x != a || y != b) ==> !names(
                    scans[x].files->0[y],
                    running,
                    read_app(file, running)->0.name,
                )) ==> is_only_row(after.apps, row_of(file, read_app(file, running)->0))
            &&& after.seen.contains(file.path)
        }),
    decreases scans.len(),
{
    let file = scans[a].files->0[b];
    let files = scans[a].files->0;
    let rest = scans.drop_last();
    let last = scans.last();
    let before = state.after_scans(rest, running);
    let after = state.after_scans(scans, running);
    if a == scans.len() - 1 {
        assert forall|x: int, y: int| #[trigger] lists(rest, x, y) implies rest[x].files->0[y].path
            != file.path by {
            assert(lists(scans, x, y));
        }
        assert forall|x: int| 0 <= x < rest.len() implies (#[trigger] rest[x]).directory
            != last.directory by {
            assert(rest[x] == scans[x]);
        }
        lemma_other_scans(state, rest, running, file.path);
        lemma_known_until(state, rest, running, last.directory);
        assert forall|j: int| 0 <= j < files.len() && j != b implies (#[trigger] files[j]).path
            != files[b].path by {
            assert(lists(scans, a, j));
        }
        lemma_file_is_read(before, files, running, b);
        assert(after.apps == before.after_files(files, running).apps);
        assert(after.seen == before.after_files(files, running).seen);
        if read_app(file, running) is Some && (forall|x: int, y: int| #[trigger]
            lists(scans, x, y) && (x != a || y != b) ==> !names(
                scans[x].files->0[y],
                running,
                read_app(file, running)->0.name,
            )) {
            assert forall|j: int| b < j < files.len() implies !names(
                #[trigger] files[j],
                running,
                read_app(files[b], running)->0.name,
            ) by {
                assert(lists(scans, a, j));
            }
        }
    } else {
        assert(rest[a] == scans[a]);
        assert(lists(rest, a, b));
        assert(is_given_once(rest, a)) by {
            assert forall|x: int| 0 <= x < rest.len() && x != a implies (
            #[trigger] rest[x]).directory != rest[a].directory by {
                assert(rest[x] == scans[x]);
            }
        }
        assert forall|x: int, y: int| #[trigger]
            lists(rest, x, y) && (x != a || y != b) implies rest[x].files->0[y].path
            != rest[a].files->0[b].path by {
            assert(lists(scans, x, y));
        }
        lemma_file_is_read_in_scans(state, rest, running, a, b);
        assert forall|j: int|
            last.files is Some && 0 <= j < last.files->0.len() implies (
        #[trigger] last.files->0[j]).path != file.path by {
            assert(lists(scans, scans.len() - 1, j));
        }
        lemma_other_scan(before, last, running, file.path);
        if read_app(file, running) is Some && (forall|x: int, y: int| #[trigger]
            lists(scans, x, y) && (x != a || y != b) ==> !names(
                scans[x].files->0[y],
                running,
                read_app(file, running)->0.name,
            )) {
            let row = row_of(file, read_app(file, running)->0);
            assert forall|x: int, y: int| #[trigger]
                lists(rest, x, y) && (x != a || y != b) implies !names(
                rest[x].files->0[y],
                running,
                read_app(file, running)->0.name,
            ) by {
                assert(lists(scans, x, y));
            }
            let tail = seq![last];
            assert(before.after_scans(tail.drop_last(), running) == before) by {
                assert(tail.drop_last() =~= Seq::<Scan>::empty());
            }
            assert(before.after_scans(tail, running) == after);
            assert forall|x: int, y: int| #[trigger] lists(tail, x, y) implies if tail[
                x].files->0[y].path == row.source_path {
                changed_at(tail[x].files->0[y]) <= row.file_mtime
            } else {
                !names(tail[x].files->0[y], running, row.app.name)
            } by {
                assert(lists(scans, scans.len() - 1, y));
            }
            lemma_row_stays_in_scans(before, tail, running, row);
        }
    }
}

/// A desktop file of a directory that is walked, which is newer than the row
/// from it if there is one, is read again. If it gives no app on the running
/// desktops, no row comes from it any more. If it gives one, any row from it
/// holds that app and the file's time, and there is one unless another file
/// names an app like it.
pub proof fn newer_files_are_read_again(
    tables: Tables,
    scans: Seq<Scan>,
    running: Seq<Seq<char>>,
    a: int,
    b: int,
)
    requires
        lists(scans, a, b),
        is_walked(scans[a], tables.scans),
        is_given_once(scans, a),
        has_ending(scans[a].files->0[b].path, ".desktop"@),
        forall|x: int, y: int| #[trigger]
            lists(scans, x, y) && (x != a || y != b) ==> scans[x].files->0[y].path
                != scans[a].files->0[b].path,
        forall|i: int|
            0 <= i < tables.apps.len() && (#[trigger] tables.apps[i]).source_path
                == scans[a].files->0[b].path ==> tables.apps[i].file_mtime < changed_at(
                scans[a].files->0[b],
            ),
    ensures
        ({
            let rows = tables.refreshed(scans, running).apps;
            let file = scans[a].files->0[b];
            let given = match file.content {
                Some(content) => desktop_app(content, running),
                None => None,
            };
            &&& given is None ==> forall|i: int|
                0 <= i < rows.len() ==> (#[trigger] rows[i]).source_path != file.path
            &&& given is Some ==> forall|i: int|
                0 <= i < rows.len() && (#[trigger] rows[i]).source_path == file.path
                    ==> rows[i].app == given->0 && rows[i].file_mtime == changed_at(file)
            &&& given is Some && (forall|x: int, y: int| #[trigger]
                lists(scans, x, y) && (x != a || y != b) ==> !names(
                    scans[x].files->0[y],
                    running,
                    given->0.name,
                )) ==> exists|i: int|
                0 <= i < rows.len() && (#[trigger] rows[i]).source_path == file.path
        }),
{
    let start = Refreshing { apps: tables.apps, scans: tables.scans, seen: Seq::empty() };
    let end = start.after_scans(scans, running);
    let rows = tables.refreshed(scans, running).apps;
    let file = scans[a].files->0[b];
    let given = read_app(file, running);
    assert forall|r: Row| #[trigger]
        start.apps.contains(r) && r.source_path == file.path implies r.file_mtime < changed_at(
        file,
    ) by {
        let i = choose|i: int| 0 <= i < tables.apps.len() && tables.apps[i] == r;
        assert(tables.apps[i].source_path == file.path);
    }
    lemma_file_is_read_in_scans(start, scans, running, a, b);
    pruning_forgets_unseen_files_alone(end.apps, end.seen, scans);
    assert forall|i: int|
        0 <= i < rows.len() && (#[trigger] rows[i]).source_path == file.path implies given is Some
        && rows[i] == row_of(file, given->0) by {
        assert(rows.contains(rows[i]));
        assert(end.apps.contains(rows[i]));
    }
    if given is Some && (forall|x: int, y: int| #[trigger]
        lists(scans, x, y) && (x != a || y != b) ==> !names(
            scans[x].files->0[y],
            running,
            given->0.name,
        )) {
        let row = row_of(file, given->0);
        assert(end.apps.contains(row));
        assert(rows.contains(row));
        let i = choose|i: int| 0 <= i < rows.len() && rows[i] == row;
        assert(rows[i].source_path == file.path);
    }
}

/// A row stays as it is if the files of its path that are listed are not newer
/// than it, one of them is listed in a directory that is walked or the path lies
/// in none of the directories, and no other file that is listed names an app
/// like it.
pub proof fn rows_of_files_that_are_not_newer_stay(
    tables: Tables,
    scans: Seq<Scan>,
    running: Seq<Seq<char>>,
    row: Row,
    at: Option<(int, int)>,
)
    requires
        is_only_row(tables.apps, row),
        forall|x: int, y: int| #[trigger]
            lists(scans, x, y) ==> if scans[x].files->0[y].path == row.source_path {
                changed_at(scans[x].files->0[y]) <= row.file_mtime
            } else {
                !names(scans[x].files->0[y], running, row.app.name)
            },
        match at {
            Some((a, b)) => {
                &&& lists(scans, a, b)
                &&& is_walked(scans[a], tables.scans)
                &&& is_given_once(scans, a)
                &&& has_ending(scans[a].files->0[b].path, ".desktop"@)
                &&& scans[a].files->0[b].path == row.source_path
            },
            None => forall|x: int|
                0 <= x < scans.len() ==> !begins(
                    row.source_path,
                    inside((#[trigger] scans[x]).directory),
                ),
        },
    ensures
        tables.refreshed(scans, running).apps.contains(row),
{
    let start = Refreshing { apps: tables.apps, scans: tables.scans, seen: Seq::empty() };
    let end = start.after_scans(scans, running);
    lemma_row_stays_in_scans(start, scans, running, row);
    pruning_forgets_unseen_files_alone(end.apps, end.seen, scans);
    if let Some((a, b)) = at {
        lemma_listed_files_are_seen(start, scans, running, a, b);
    } else {
        if in_scans(row.source_path, scans) {
            let x = choose|x: int|
                0 <= x < scans.len() && begins(
                    row.source_path,
                    inside((#[trigger] scans[x]).directory),
                );
            assert(!begins(row.source_path, inside(scans[x].directory)));
        }
    }
}

/// A desktop file of a directory that is walked is seen.
proof fn lemma_listed_files_are_seen(
    state: Refreshing,
    scans: Seq<Scan>,
    running: Seq<Seq<char>>,
    a: int,
    b: int,
)
    requires
        lists(scans, a, b),
        is_walked(scans[a], state.scans),
        is_given_once(scans, a),
        has_ending(scans[a].files->0[b].path, ".desktop"@),
    ensures
        state.after_scans(scans, running).seen.contains(scans[a].files->0[b].path),
    decreases scans.len(),
{
    let rest = scans.drop_last();
    let last = scans.last();
    let before = state.after_scans(rest, running);
    if a == scans.len() - 1 {
        assert forall|x: int| 0 <= x < rest.len() implies (#[trigger] rest[x]).directory
            != last.directory by {
            assert(rest[x] == scans[x]);
        }
        lemma_known_until(state, rest, running, last.directory);
        lemma_files_are_seen(before, last.files->0, running, b);
    } else {
        assert(lists(rest, a, b));
        assert(is_given_once(rest, a)) by {
            assert forall|x: int| 0 <= x < rest.len() && x != a implies (
            #[trigger] rest[x]).directory != rest[a].directory by {
                assert(rest[x] == scans[x]);
            }
        }
        lemma_listed_files_are_seen(state, rest, running, a, b);
        lemma_seen_grows(before, last, running);
    }
}

/// What was seen before a directory stays seen.
proof fn lemma_seen_grows(state: Refreshing, scan: Scan, running: Seq<Seq<char>>)
    ensures
        forall|x: Seq<char>|
            state.seen.contains(x) ==> #[trigger] state.after_scan(scan, running).seen.contains(x),
{
    if let Some(files) = scan.files {
        lemma_seen_grows_by_files(state, files, running);
    }
    let more = paths_inside(state.apps, scan.directory);
    assert forall|x: Seq<char>|
        state.seen.contains(x) implies #[trigger] state.after_scan(scan, running).seen.contains(
        x,
    ) by {
        let k = choose|k: int| 0 <= k < state.seen.len() && state.seen[k] == x;
        assert((state.seen + more)[k] == x);
    }
}

/// What was seen before some files stays seen.
proof fn lemma_seen_grows_by_files(state: Refreshing, files: Seq<File>, running: Seq<Seq<char>>)
    ensures
        forall|x: Seq<char>|
            state.seen.contains(x) ==> #[trigger] state.after_files(files, running).seen.contains(
                x,
            ),
    decreases files.len(),
{
    if files.len() > 0 {
        let rest = files.drop_last();
        lemma_seen_grows_by_files(state, rest, running);
        let before = state.after_files(rest, running);
        assert forall|x: Seq<char>|
            state.seen.contains(x) implies #[trigger] state.after_files(
            files,
            running,
        ).seen.contains(x) by {
            lemma_push_contains(before.seen, files.last().path, x);
        }
    }
}

/// A desktop file that is walked is seen.
proof fn lemma_files_are_seen(
    state: Refreshing,
    files: Seq<File>,
    running: Seq<Seq<char>>,
    b: int,
)
    requires
        0 <= b < files.len(),
        has_ending(files[b].path, ".desktop"@),
    ensures
        state.after_files(files, running).seen.contains(files[b].path),
    decreases files.len(),
{
    let rest = files.drop_last();
    let before = state.after_files(rest, running);
    lemma_push_contains(before.seen, files.last().path, files[b].path);
    if b < files.len() - 1 {
        assert(rest[b] == files[b]);
        lemma_files_are_seen(state, rest, running, b);
    }
}

/// Every row after a refresh was there before, or holds the app that a listed
/// desktop file of its path gives on the running desktops, with the file's time.
pub proof fn rows_come_from_files(
    tables: Tables,
    scans: Seq<Scan>,
    running: Seq<Seq<char>>,
    row: Row,
)
    requires
        tables.refreshed(scans, running).apps.contains(row),
    ensures
        tables.apps.contains(row) || exists|x: int, y: int| #[trigger]
            lists(scans, x, y) && {
                let file = scans[x].files->0[y];
                &&& scans[x].mtime is Some
                &&& has_ending(file.path, ".desktop"@)
                &&& file.path == row.source_path
                &&& file.content is Some
                &&& desktop_app(file.content->0, running) == Some(row.app)
                &&& row.file_mtime == changed_at(file)
            },
{
    let start = Refreshing { apps: tables.apps, scans: tables.scans, seen: Seq::empty() };
    let end = start.after_scans(scans, running);
    pruning_forgets_unseen_files_alone(end.apps, end.seen, scans);
    lemma_rows_come_from_scans(start, scans, running, row);
}

/// Every row after some directories comes from a file or was there.
proof fn lemma_rows_come_from_scans(
    state: Refreshing,
    scans: Seq<Scan>,
    running: Seq<Seq<char>>,
    row: Row,
)
    requires
        state.after_scans(scans, running).apps.contains(row),
    ensures
        state.apps.contains(row) || exists|x: int, y: int| #[trigger]
            lists(scans, x, y) && {
                let file = scans[x].files->0[y];
                &&& scans[x].mtime is Some
                &&& has_ending(file.path, ".desktop"@)
                &&& file.path == row.source_path
                &&& file.content is Some
                &&& desktop_app(file.content->0, running) == Some(row.app)
                &&& row.file_mtime == changed_at(file)
            },
    decreases scans.len(),
{
    if scans.len() > 0 {
        let rest = scans.drop_last();
        let last = scans.last();
        let before = state.after_scans(rest, running);
        if before.apps.contains(row) {
            lemma_rows_come_from_scans(state, rest, running, row);
            if !state.apps.contains(row) {
                let (x, y) = choose|x: int, y: int| #[trigger]
                    lists(rest, x, y) && {
                        let file = rest[x].files->0[y];
                        &&& rest[x].mtime is Some
                        &&& has_ending(file.path, ".desktop"@)
                        &&& file.path == row.source_path
                        &&& file.content is Some
                        &&& desktop_app(file.content->0, running) == Some(row.app)
                        &&& row.file_mtime == changed_at(file)
                    };
                assert(lists(scans, x, y));
            }
        } else {
            let files = last.files->0;
            assert(last.files is Some);
            let y = lemma_row_comes_from_a_file(before, files, running, row);
            assert(lists(scans, scans.len() - 1, y));
        }
    }
}

/// A row that some files have brought comes from one of them.
proof fn lemma_row_comes_from_a_file(
    state: Refreshing,
    files: Seq<File>,
    running: Seq<Seq<char>>,
    row: Row,
) -> (y: int)
    requires
        state.after_files(files, running).apps.contains(row),
        !state.apps.contains(row),
    ensures
        0 <= y < files.len(),
        has_ending(files[y].path, ".desktop"@),
        files[y].path == row.source_path,
        files[y].content is Some,
        desktop_app(files[y].content->0, running) == Some(row.app),
        row.file_mtime == changed_at(files[y]),
    decreases files.len(),
{
    if files.len() == 0 {
        0
    } else {
        let rest = files.drop_last();
        let before = state.after_files(rest, running);
        if before.apps.contains(row) {
            let y = lemma_row_comes_from_a_file(state, rest, running, row);
            assert(rest[y] == files[y]);
            y
        } else {
            lemma_reread(before, files.last(), running);
            files.len() - 1
        }
    }
}

/// A path that no directory lists, inside directories that are missing or
/// walked and inside no others, has no row after a refresh: its file is gone.
pub proof fn files_that_are_gone_have_no_row(
    tables: Tables,
    scans: Seq<Scan>,
    running: Seq<Seq<char>>,
    path: Seq<char>,
    a: int,
)
    requires
        0 <= a < scans.len(),
        begins(path, inside(scans[a].directory)),
        forall|x: int, y: int| #[trigger] lists(scans, x, y) ==> scans[x].files->0[y].path != path,
        forall|x: int|
            0 <= x < scans.len() && begins(path, inside((#[trigger] scans[x]).directory))
                ==> scans[x].mtime is None || (is_walked(scans[x], tables.scans) && is_given_once(
                scans,
                x,
            )),
    ensures
        forall|i: int|
            0 <= i < tables.refreshed(scans, running).apps.len() ==> (#[trigger] tables.refreshed(
                scans,
                running,
            ).apps[i]).source_path != path,
{
    let start = Refreshing { apps: tables.apps, scans: tables.scans, seen: Seq::empty() };
    let end = start.after_scans(scans, running);
    let rows = tables.refreshed(scans, running).apps;
    pruning_forgets_unseen_files_alone(end.apps, end.seen, scans);
    lemma_gone_files_are_not_seen(start, scans, running, path);
    assert(in_scans(path, scans));
    assert forall|i: int| 0 <= i < rows.len() implies (#[trigger] rows[i]).source_path != path by {
        assert(rows.contains(rows[i]));
    }
}

/// A path that no directory lists is not seen.
proof fn lemma_gone_files_are_not_seen(
    state: Refreshing,
    scans: Seq<Scan>,
    running: Seq<Seq<char>>,
    path: Seq<char>,
)
    requires
        forall|x: int, y: int| #[trigger] lists(scans, x, y) ==> scans[x].files->0[y].path != path,
        forall|x: int|
            0 <= x < scans.len() && begins(path, inside((#[trigger] scans[x]).directory))
                ==> scans[x].mtime is None || (is_walked(scans[x], state.scans) && is_given_once(
                scans,
                x,
            )),
        !state.seen.contains(path),
    ensures
        !state.after_scans(scans, running).seen.contains(path),
    decreases scans.len(),
{
    if scans.len() > 0 {
        let rest = scans.drop_last();
        let last = scans.last();
        let before = state.after_scans(rest, running);
        let after = state.after_scans(scans, running);
        assert forall|x: int, y: int| #[trigger] lists(rest, x, y) implies rest[x].files->0[y].path
            != path by {
            assert(lists(scans, x, y));
        }
        assert forall|x: int|
            0 <= x < rest.len() && begins(
                path,
                inside((#[trigger] rest[x]).directory),
            ) implies rest[x].mtime is None || (is_walked(rest[x], state.scans) && is_given_once(
            rest,
            x,
        )) by {
            assert(rest[x] == scans[x]);
            if is_given_once(scans, x) {
                assert forall|z: int| 0 <= z < rest.len() && z != x implies (
                #[trigger] rest[z]).directory != rest[x].directory by {
                    assert(rest[z] == scans[z]);
                }
            }
        }
        lemma_gone_files_are_not_seen(state, rest, running, path);
        assert(last == scans[scans.len() - 1]);
        let more = paths_inside(before.apps, last.directory);
        if let Some(files) = last.files {
            assert forall|j: int| 0 <= j < files.len() implies (#[trigger] files[j]).path
                != path by {
                assert(lists(scans, scans.len() - 1, j));
            }
            lemma_others_get_no_row(before, files, running, path);
        }
        if begins(path, inside(last.directory)) {
            if last.mtime is Some {
                assert forall|x: int| 0 <= x < rest.len() implies (#[trigger] rest[x]).directory
                    != last.directory by {
                    assert(rest[x] == scans[x]);
                }
                lemma_known_until(state, rest, running, last.directory);
            }
        } else {
            lemma_paths_are_inside(before.apps, last.directory);
            assert(!more.contains(path));
            if (before.seen + more).contains(path) {
                let k = choose|k: int|
                    0 <= k < (before.seen + more).len() && (before.seen + more)[k] == path;
                if k < before.seen.len() {
                    assert(before.seen.contains(path));
                } else {
                    assert(more.contains(path));
                }
            }
        }
    }
}

/// A refresh notes the time of each directory that it walks, leaves what is
/// known of all others, and leaves the launches.
pub proof fn walked_directories_are_noted(
    tables: Tables,
    scans: Seq<Scan>,
    running: Seq<Seq<char>>,
    a: int,
    directory: Seq<char>,
)
    requires
        0 <= a < scans.len(),
        is_given_once(scans, a),
        forall|x: int| 0 <= x < scans.len() ==> (#[trigger] scans[x]).directory != directory,
    ensures
        ({
            let after = tables.refreshed(scans, running);
            let known = scans[a].directory;
            &&& after.launches == tables.launches
            &&& is_walked(scans[a], tables.scans) ==> after.scans.contains_key(known)
                && after.scans[known] == scans[a].mtime->0
            &&& !is_walked(scans[a], tables.scans) ==> (after.scans.contains_key(known)
                <==> tables.scans.contains_key(known)) && (tables.scans.contains_key(known)
                ==> after.scans[known] == tables.scans[known])
            &&& after.scans.contains_key(directory) <==> tables.scans.contains_key(directory)
            &&& tables.scans.contains_key(directory) ==> after.scans[directory]
                == tables.scans[directory]
        }),
{
    let start = Refreshing { apps: tables.apps, scans: tables.scans, seen: Seq::empty() };
    lemma_known_until(start, scans, running, directory);
    lemma_noted(start, scans, running, a);
}

/// A directory that is given once is noted if it is walked.
proof fn lemma_noted(state: Refreshing, scans: Seq<Scan>, running: Seq<Seq<char>>, a: int)
    requires
        0 <= a < scans.len(),
        is_given_once(scans, a),
    ensures
        ({
            let after = state.after_scans(scans, running).scans;
            let known = scans[a].directory;
            &&& is_walked(scans[a], state.scans) ==> after.contains_key(known) && after[known]
                == scans[a].mtime->0
            &&& !is_walked(scans[a], state.scans) ==> (after.contains_key(known)
                <==> state.scans.contains_key(known)) && (state.scans.contains_key(known)
                ==> after[known] == state.scans[known])
        }),
    decreases scans.len(),
{
    let rest = scans.drop_last();
    let last = scans.last();
    let before = state.after_scans(rest, running);
    assert(state.after_scans(scans, running) == before.after_scan(last, running));
    lemma_scan_notes_itself(before, last, running);
    if a == scans.len() - 1 {
        assert forall|x: int| 0 <= x < rest.len() implies (#[trigger] rest[x]).directory
            != last.directory by {
            assert(rest[x] == scans[x]);
        }
        lemma_known_until(state, rest, running, last.directory);
        assert(is_walked(last, before.scans) == is_walked(last, state.scans));
        assert(scans[a] == last);
    } else {
        assert(rest[a] == scans[a]);
        assert(is_given_once(rest, a)) by {
            assert forall|x: int| 0 <= x < rest.len() && x != a implies (
            #[trigger] rest[x]).directory != rest[a].directory by {
                assert(rest[x] == scans[x]);
            }
        }
        lemma_noted(state, rest, running, a);
        assert(scans[scans.len() - 1].directory != scans[a].directory);
        let known = scans[a].directory;
        assert(before.after_scan(last, running).scans.contains_key(known)
            <==> before.scans.contains_key(known));
        assert(state.after_scans(scans, running) == before.after_scan(last, running));
    }
}

} // verus!
