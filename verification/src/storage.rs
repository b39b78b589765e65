//! The launcher's tables: the cached apps, the directories that were scanned,
//! and the launches.

use vstd::prelude::*;

use crate::app::{AppEntry, Entry};
use crate::clock::{in_calendar, padded, stamp, timestamp, DAY, FIRST_SECOND};
use crate::desktop::{desktop_app, parse_desktop_file, text_in, Cached, CachedApp};
use crate::menu::{first_routed, keys_of, menu_names, override_category};
use crate::paths::{ends_in, has_ending, inside, prefix_inside};
use crate::ranking::{positions, rank, ranked, ranking_is_a_stable_sort, ranks_of, Rank, RankKey};
use crate::table::TextMap;
use crate::text::{
    ascii_lower, begins, chars_less, chars_of, holds, lemma_texts_push, lex_less, pieces, same_text,
    starts_with, texts, to_ascii_lowercase,
};

verus! {

/// A cached app with the file that it comes from.
#[verifier::ext_equal]
pub struct Row {
    pub app: Cached,
    pub source_path: Seq<char>,
    pub file_mtime: i64,
}

/// A launch: when, and of which app.
#[verifier::ext_equal]
pub struct Launched {
    pub ts: Seq<char>,
    pub name: Seq<char>,
}

/// What the tables hold.
#[verifier::ext_equal]
pub struct Tables {
    /// The cached apps, in the order in which they were written.
    pub apps: Seq<Row>,
    /// The directories that were scanned, with their time of change then.
    pub scans: Map<Seq<char>, i64>,
    /// The launches, in the order in which they were recorded.
    pub launches: Seq<Launched>,
}

/// A cached app with the file that it comes from, as the program holds it.
#[derive(Debug)]
pub struct AppRow {
    pub app: CachedApp,
    pub source_path: String,
    pub file_mtime: i64,
}

/// A launch, as the program holds it.
#[derive(Debug)]
pub struct Launch {
    pub ts: String,
    pub name: String,
}

impl View for AppRow {
    type V = Row;

    open spec fn view(&self) -> Row {
        Row { app: self.app@, source_path: self.source_path@, file_mtime: self.file_mtime }
    }
}

impl View for Launch {
    type V = Launched;

    open spec fn view(&self) -> Launched {
        Launched { ts: self.ts@, name: self.name@ }
    }
}

impl Clone for AppRow {
    fn clone(&self) -> (r: Self)
        ensures
            r == *self,
    {
        AppRow {
            app: self.app.clone(),
            source_path: self.source_path.clone(),
            file_mtime: self.file_mtime,
        }
    }
}

/// The launcher's tables.
#[derive(Debug)]
pub struct Storage {
    pub apps: Vec<AppRow>,
    pub scans: TextMap<i64>,
    pub launches: Vec<Launch>,
}

impl Clone for Launch {
    fn clone(&self) -> (r: Self)
        ensures
            r == *self,
    {
        Launch { ts: self.ts.clone(), name: self.name.clone() }
    }
}

impl Clone for Storage {
    fn clone(&self) -> (r: Self)
        ensures
            r@ == self@,
    {
        let mut apps: Vec<AppRow> = Vec::new();
        for i in 0..self.apps.len()
            invariant
                apps@ == self.apps@.take(i as int),
        {
            assert(self.apps@.take(i + 1) =~= self.apps@.take(i as int).push(self.apps@[i as int]));
            apps.push(self.apps[i].clone());
        }
        assert(self.apps@.take(self.apps@.len() as int) == self.apps@);
        let mut launches: Vec<Launch> = Vec::new();
        for i in 0..self.launches.len()
            invariant
                launches@ == self.launches@.take(i as int),
        {
            assert(self.launches@.take(i + 1) =~= self.launches@.take(i as int).push(
                self.launches@[i as int],
            ));
            launches.push(self.launches[i].clone());
        }
        assert(self.launches@.take(self.launches@.len() as int) == self.launches@);
        Storage { apps, scans: self.scans.copy(), launches }
    }
}

/// What a list of rows says.
pub open spec fn rows_of(s: Seq<AppRow>) -> Seq<Row> {
    s.map_values(|r: AppRow| r@)
}

/// What a list of launches says.
pub open spec fn launches_of(s: Seq<Launch>) -> Seq<Launched> {
    s.map_values(|l: Launch| l@)
}

impl View for Storage {
    type V = Tables;

    open spec fn view(&self) -> Tables {
        Tables {
            apps: rows_of(self.apps@),
            scans: self.scans@,
            launches: launches_of(self.launches@),
        }
    }
}

/// A file of a directory, as it was found.
#[verifier::ext_equal]
pub struct File {
    pub path: Seq<char>,
    /// When the file was changed, where that is known.
    pub mtime: Option<i64>,
    /// What the file holds, where it can be read.
    pub content: Option<Seq<char>>,
}

/// A directory, as it was found.
#[verifier::ext_equal]
pub struct Scan {
    pub directory: Seq<char>,
    /// When the directory was changed; nothing where there is none.
    pub mtime: Option<i64>,
    /// The files of the directory, where it can be listed.
    pub files: Option<Seq<File>>,
}

/// A file of a directory, as the program holds it.
#[derive(Debug)]
pub struct ScannedFile {
    pub path: String,
    pub mtime: Option<i64>,
    pub content: Option<String>,
}

/// A directory, as the program holds it. The files of one that has not
/// changed since it was last scanned are not looked at.
#[derive(Debug)]
pub struct DirectoryScan {
    pub directory: String,
    pub mtime: Option<i64>,
    pub files: Option<Vec<ScannedFile>>,
}

impl View for ScannedFile {
    type V = File;

    open spec fn view(&self) -> File {
        File { path: self.path@, mtime: self.mtime, content: text_in(self.content) }
    }
}

/// What a list of files says.
pub open spec fn files_of(s: Seq<ScannedFile>) -> Seq<File> {
    s.map_values(|f: ScannedFile| f@)
}

impl View for DirectoryScan {
    type V = Scan;

    open spec fn view(&self) -> Scan {
        Scan {
            directory: self.directory@,
            mtime: self.mtime,
            files: match self.files {
                Some(files) => Some(files_of(files@)),
                None => None,
            },
        }
    }
}

/// What a list of directories says.
pub open spec fn scans_of(s: Seq<DirectoryScan>) -> Seq<Scan> {
    s.map_values(|d: DirectoryScan| d@)
}

/// The rows that do not come from a file.
pub open spec fn not_from(rows: Seq<Row>, path: Seq<char>) -> Seq<Row>
    decreases rows.len(),
{
    if rows.len() == 0 {
        rows
    } else if rows.last().source_path == path {
        not_from(rows.drop_last(), path)
    } else {
        not_from(rows.drop_last(), path).push(rows.last())
    }
}

/// The rows of apps with another name.
pub open spec fn not_named(rows: Seq<Row>, name: Seq<char>) -> Seq<Row>
    decreases rows.len(),
{
    if rows.len() == 0 {
        rows
    } else if rows.last().app.name == name {
        not_named(rows.drop_last(), name)
    } else {
        not_named(rows.drop_last(), name).push(rows.last())
    }
}

/// When the file behind the first row from it was changed.
pub open spec fn cached_mtime(rows: Seq<Row>, path: Seq<char>) -> Option<i64>
    decreases rows.len(),
{
    if rows.len() == 0 {
        None
    } else if rows[0].source_path == path {
        Some(rows[0].file_mtime)
    } else {
        cached_mtime(rows.drop_first(), path)
    }
}

/// The files inside a directory that rows come from.
pub open spec fn paths_inside(rows: Seq<Row>, directory: Seq<char>) -> Seq<Seq<char>>
    decreases rows.len(),
{
    if rows.len() == 0 {
        Seq::empty()
    } else {
        let before = paths_inside(rows.drop_last(), directory);
        if begins(rows.last().source_path, inside(directory)) {
            before.push(rows.last().source_path)
        } else {
            before
        }
    }
}

/// How far the cache has been refreshed.
#[verifier::ext_equal]
pub struct Refreshing {
    pub apps: Seq<Row>,
    pub scans: Map<Seq<char>, i64>,
    /// The files that should still be there.
    pub seen: Seq<Seq<char>>,
}

/// A value, or 0.
pub open spec fn or_zero(value: Option<i64>) -> i64 {
    match value {
        Some(v) => v,
        None => 0,
    }
}

/// Whether there is a row from a file that is no newer than the row.
pub open spec fn fresh(cached: Option<i64>, mtime: Option<i64>) -> bool {
    match cached {
        Some(row) => or_zero(mtime) <= row,
        None => false,
    }
}

impl Refreshing {
    /// A changed file takes the place of the row from it and of a row with
    /// the same name.
    pub open spec fn reread(self, file: File, running: Seq<Seq<char>>) -> Seq<Row> {
        let kept = not_from(self.apps, file.path);
        let parsed = match file.content {
            Some(content) => desktop_app(content, running),
            None => None,
        };
        match parsed {
            Some(app) => not_named(kept, app.name).push(
                Row { app, source_path: file.path, file_mtime: or_zero(file.mtime) },
            ),
            None => kept,
        }
    }

    /// One file of a changed directory: only desktop files count, and only a
    /// file that is newer than the row from it is read again.
    pub open spec fn after_file(self, file: File, running: Seq<Seq<char>>) -> Refreshing {
        if !has_ending(file.path, ".desktop"@) {
            self
        } else {
            let seen = self.seen.push(file.path);
            if fresh(cached_mtime(self.apps, file.path), file.mtime) {
                Refreshing { seen, ..self }
            } else {
                Refreshing { apps: self.reread(file, running), seen, ..self }
            }
        }
    }

    /// The files of a changed directory.
    pub open spec fn after_files(self, files: Seq<File>, running: Seq<Seq<char>>) -> Refreshing
        decreases files.len(),
    {
        if files.len() == 0 {
            self
        } else {
            self.after_files(files.drop_last(), running).after_file(files.last(), running)
        }
    }

    /// One directory: a missing one is passed over, the cache is trusted for
    /// one that has not changed or cannot be listed, and a changed one is
    /// walked.
    pub open spec fn after_scan(self, scan: Scan, running: Seq<Seq<char>>) -> Refreshing {
        match scan.mtime {
            None => self,
            Some(mtime) => {
                let trusted = Refreshing {
                    seen: self.seen + paths_inside(self.apps, scan.directory),
                    ..self
                };
                if self.scans.contains_key(scan.directory) && self.scans[scan.directory] == mtime {
                    trusted
                } else {
                    match scan.files {
                        None => trusted,
                        Some(files) => {
                            let walked = self.after_files(files, running);
                            Refreshing {
                                scans: walked.scans.insert(scan.directory, mtime),
                                ..walked
                            }
                        },
                    }
                }
            },
        }
    }

    /// Some directories.
    pub open spec fn after_scans(self, scans: Seq<Scan>, running: Seq<Seq<char>>) -> Refreshing
        decreases scans.len(),
    {
        if scans.len() == 0 {
            self
        } else {
            self.after_scans(scans.drop_last(), running).after_scan(scans.last(), running)
        }
    }
}

/// Whether a path lies inside one of some directories.
pub open spec fn in_scans(path: Seq<char>, scans: Seq<Scan>) -> bool {
    exists|i: int| 0 <= i < scans.len() && begins(path, inside((#[trigger] scans[i]).directory))
}

/// The rows that are left once the files that are gone have been forgotten:
/// of the directories that were asked about, those from files that were seen,
/// and all others.
pub open spec fn pruned(rows: Seq<Row>, seen: Seq<Seq<char>>, scans: Seq<Scan>) -> Seq<Row>
    decreases rows.len(),
{
    if rows.len() == 0 {
        rows
    } else {
        let before = pruned(rows.drop_last(), seen, scans);
        let path = rows.last().source_path;
        if in_scans(path, scans) && !seen.contains(path) {
            before
        } else {
            before.push(rows.last())
        }
    }
}

impl Tables {
    /// The tables after a refresh from some directories.
    pub open spec fn refreshed(self, scans: Seq<Scan>, running: Seq<Seq<char>>) -> Tables {
        let start = Refreshing { apps: self.apps, scans: self.scans, seen: Seq::empty() };
        let end = start.after_scans(scans, running);
        Tables {
            apps: pruned(end.apps, end.seen, scans),
            scans: end.scans,
            launches: self.launches,
        }
    }
}

/// Lists of rows grow as what they say does.
proof fn lemma_rows_push(s: Seq<AppRow>, row: AppRow)
    ensures
        rows_of(s.push(row)) == rows_of(s).push(row@),
{
    assert(rows_of(s.push(row)) =~= rows_of(s).push(row@));
}

/// The first part of a list of rows.
proof fn lemma_rows_take(s: Seq<AppRow>, n: int)
    requires
        0 <= n < s.len(),
    ensures
        rows_of(s).take(n + 1).drop_last() == rows_of(s).take(n),
        rows_of(s).take(n + 1).last() == s[n]@,
{
    assert(rows_of(s).take(n + 1).drop_last() =~= rows_of(s).take(n));
}

/// The rows that do not come from a file.
fn drop_path(rows: &Vec<AppRow>, path: &str) -> (r: Vec<AppRow>)
    ensures
        rows_of(r@) == not_from(rows_of(rows@), path@),
{
    let mut out: Vec<AppRow> = Vec::new();
    let ghost all = rows_of(rows@);
    assert(rows_of(out@) =~= not_from(all.take(0), path@));
    for i in 0..rows.len()
        invariant
            all == rows_of(rows@),
            rows_of(out@) == not_from(all.take(i as int), path@),
    {
        proof {
            lemma_rows_take(rows@, i as int);
        }
        if !same_text(rows[i].source_path.as_str(), path) {
            let row = rows[i].clone();
            proof {
                lemma_rows_push(out@, row);
            }
            out.push(row);
        }
    }
    assert(all.take(all.len() as int) == all);
    out
}

/// The rows of apps with another name.
fn drop_name(rows: &Vec<AppRow>, name: &str) -> (r: Vec<AppRow>)
    ensures
        rows_of(r@) == not_named(rows_of(rows@), name@),
{
    let mut out: Vec<AppRow> = Vec::new();
    let ghost all = rows_of(rows@);
    assert(rows_of(out@) =~= not_named(all.take(0), name@));
    for i in 0..rows.len()
        invariant
            all == rows_of(rows@),
            rows_of(out@) == not_named(all.take(i as int), name@),
    {
        proof {
            lemma_rows_take(rows@, i as int);
        }
        if !same_text(rows[i].app.name.as_str(), name) {
            let row = rows[i].clone();
            proof {
                lemma_rows_push(out@, row);
            }
            out.push(row);
        }
    }
    assert(all.take(all.len() as int) == all);
    out
}

/// When the file behind the first row from it was changed.
fn mtime_in_cache(rows: &Vec<AppRow>, path: &str) -> (r: Option<i64>)
    ensures
        r == cached_mtime(rows_of(rows@), path@),
{
    let ghost all = rows_of(rows@);
    assert(all.skip(0) =~= all);
    for i in 0..rows.len()
        invariant
            all == rows_of(rows@),
            cached_mtime(all, path@) == cached_mtime(all.skip(i as int), path@),
    {
        assert(all.skip(i as int)[0] == rows@[i as int]@);
        assert(all.skip(i as int).drop_first() =~= all.skip(i + 1));
        if same_text(rows[i].source_path.as_str(), path) {
            return Some(rows[i].file_mtime);
        }
    }
    None
}

/// Appends the files inside a directory that rows come from.
fn see_cached(rows: &Vec<AppRow>, directory: &str, seen: &mut Vec<String>)
    ensures
        texts(final(seen)@) == texts(old(seen)@) + paths_inside(rows_of(rows@), directory@),
{
    let prefix = prefix_inside(directory);
    let ghost all = rows_of(rows@);
    let ghost start = texts(seen@);
    assert(texts(seen@) =~= start + paths_inside(all.take(0), directory@));
    for i in 0..rows.len()
        invariant
            all == rows_of(rows@),
            prefix@ == inside(directory@),
            texts(seen@) == start + paths_inside(all.take(i as int), directory@),
    {
        proof {
            lemma_rows_take(rows@, i as int);
        }
        if starts_with(rows[i].source_path.as_str(), prefix.as_str()) {
            let path = rows[i].source_path.clone();
            proof {
                lemma_texts_push(seen@, path);
            }
            seen.push(path);
            assert(texts(seen@) =~= start + paths_inside(all.take(i + 1), directory@));
        }
    }
    assert(all.take(all.len() as int) == all);
}

/// Whether a path lies inside one of some directories.
fn is_in_scans(path: &str, scans: &Vec<DirectoryScan>) -> (r: bool)
    ensures
        r == in_scans(path@, scans_of(scans@)),
{
    let ghost all = scans_of(scans@);
    for i in 0..scans.len()
        invariant
            all == scans_of(scans@),
            forall|j: int|
                0 <= j < i ==> !begins(path@, inside((#[trigger] all[j]).directory)),
    {
        let prefix = prefix_inside(scans[i].directory.as_str());
        assert(all[i as int] == scans@[i as int]@);
        if starts_with(path, prefix.as_str()) {
            return true;
        }
    }
    false
}

impl Storage {
    /// Tables without entries.
    pub fn in_memory() -> (r: Storage)
        ensures
            r@ == (Tables { apps: Seq::empty(), scans: Map::empty(), launches: Seq::empty() }),
    {
        let r = Storage { apps: Vec::new(), scans: TextMap::new(), launches: Vec::new() };
        assert(r@.apps =~= Seq::<Row>::empty());
        assert(r@.launches =~= Seq::<Launched>::empty());
        r
    }

    /// Whether a directory has changed since it was last scanned, so that its
    /// files have to be looked at.
    pub fn needs_walk(&self, directory: &str, mtime: i64) -> (r: bool)
        ensures
            r == !(self@.scans.contains_key(directory@) && self@.scans[directory@] == mtime),
    {
        match self.scans.get(directory) {
            Some(cached) => *cached != mtime,
            None => true,
        }
    }

    /// Takes one file of a changed directory.
    fn refresh_file(
        &mut self,
        file: &ScannedFile,
        current_desktops: &Vec<String>,
        seen: &mut Vec<String>,
    )
        ensures
            (Refreshing {
                apps: final(self)@.apps,
                scans: final(self)@.scans,
                seen: texts(final(seen)@),
            }) == (Refreshing {
                apps: old(self)@.apps,
                scans: old(self)@.scans,
                seen: texts(old(seen)@),
            }).after_file(file@, texts(current_desktops@)),
            final(self).launches == old(self).launches,
    {
        if !ends_in(file.path.as_str(), ".desktop") {
            return;
        }
        let path = file.path.clone();
        proof {
            lemma_texts_push(seen@, path);
        }
        seen.push(path);
        let mtime = match file.mtime {
            Some(m) => m,
            None => 0,
        };
        if let Some(row) = mtime_in_cache(&self.apps, file.path.as_str()) {
            if mtime <= row {
                return;
            }
        }
        let parsed = match &file.content {
            Some(content) => parse_desktop_file(content.as_str(), current_desktops),
            None => None,
        };
        let kept = drop_path(&self.apps, file.path.as_str());
        match parsed {
            Some(app) => {
                let mut rows = drop_name(&kept, app.name.as_str());
                let row = AppRow { app, source_path: file.path.clone(), file_mtime: mtime };
                proof {
                    lemma_rows_push(rows@, row);
                }
                rows.push(row);
                self.apps = rows;
            },
            None => {
                self.apps = kept;
            },
        }
    }

    /// Takes the files of a changed directory.
    fn refresh_files(
        &mut self,
        files: &Vec<ScannedFile>,
        current_desktops: &Vec<String>,
        seen: &mut Vec<String>,
    )
        ensures
            (Refreshing {
                apps: final(self)@.apps,
                scans: final(self)@.scans,
                seen: texts(final(seen)@),
            }) == (Refreshing {
                apps: old(self)@.apps,
                scans: old(self)@.scans,
                seen: texts(old(seen)@),
            }).after_files(files_of(files@), texts(current_desktops@)),
            final(self).launches == old(self).launches,
    {
        let ghost start = Refreshing { apps: self@.apps, scans: self@.scans, seen: texts(seen@) };
        let ghost running = texts(current_desktops@);
        let ghost all = files_of(files@);
        assert(all.take(0) =~= Seq::<File>::empty());
        for i in 0..files.len()
            invariant
                all == files_of(files@),
                running == texts(current_desktops@),
                self.launches == old(self).launches,
                (Refreshing { apps: self@.apps, scans: self@.scans, seen: texts(seen@) })
                    == start.after_files(all.take(i as int), running),
        {
            assert(all.take(i + 1).drop_last() =~= all.take(i as int));
            assert(all.take(i + 1).last() == files@[i as int]@);
            self.refresh_file(&files[i], current_desktops, seen);
        }
        assert(all.take(all.len() as int) == all);
    }

    /// Takes one directory.
    fn refresh_scan(
        &mut self,
        scan: &DirectoryScan,
        current_desktops: &Vec<String>,
        seen: &mut Vec<String>,
    )
        ensures
            (Refreshing {
                apps: final(self)@.apps,
                scans: final(self)@.scans,
                seen: texts(final(seen)@),
            }) == (Refreshing {
                apps: old(self)@.apps,
                scans: old(self)@.scans,
                seen: texts(old(seen)@),
            }).after_scan(scan@, texts(current_desktops@)),
            final(self).launches == old(self).launches,
    {
        let mtime = match scan.mtime {
            Some(m) => m,
            None => {
                return;
            },
        };
        if !self.needs_walk(scan.directory.as_str(), mtime) {
            see_cached(&self.apps, scan.directory.as_str(), seen);
            return;
        }
        match &scan.files {
            Some(files) => {
                self.refresh_files(files, current_desktops, seen);
                self.scans.insert(scan.directory.clone(), mtime);
            },
            None => {
                see_cached(&self.apps, scan.directory.as_str(), seen);
            },
        }
    }

    /// Forgets the rows inside the given directories whose files were not
    /// seen.
    fn prune(&mut self, scans: &Vec<DirectoryScan>, seen: &Vec<String>)
        ensures
            final(self)@ == (Tables {
                apps: pruned(old(self)@.apps, texts(seen@), scans_of(scans@)),
                ..old(self)@
            }),
    {
        let mut out: Vec<AppRow> = Vec::new();
        let ghost all = rows_of(self.apps@);
        let ghost known = texts(seen@);
        let ghost dirs = scans_of(scans@);
        assert(rows_of(out@) =~= pruned(all.take(0), known, dirs));
        for i in 0..self.apps.len()
            invariant
                all == rows_of(self.apps@),
                *self == *old(self),
                known == texts(seen@),
                dirs == scans_of(scans@),
                rows_of(out@) == pruned(all.take(i as int), known, dirs),
        {
            proof {
                lemma_rows_take(self.apps@, i as int);
            }
            let path = self.apps[i].source_path.as_str();
            if !(is_in_scans(path, scans) && !holds(seen, path)) {
                let row = self.apps[i].clone();
                proof {
                    lemma_rows_push(out@, row);
                }
                out.push(row);
            }
        }
        assert(all.take(all.len() as int) == all);
        self.apps = out;
    }

    /// Refreshes the cached apps from the given directories. The rows from a
    /// directory that has not changed, or that cannot be listed, are trusted;
    /// in one that has changed, only files that are newer than the rows from
    /// them are read again. Rows whose file is gone from the given directories
    /// are forgotten.
    pub fn refresh_app_cache(
        &mut self,
        dirs: &Vec<DirectoryScan>,
        current_desktops: &Vec<String>,
    )
        ensures
            final(self)@ == old(self)@.refreshed(scans_of(dirs@), texts(current_desktops@)),
    {
        let mut seen: Vec<String> = Vec::new();
        let ghost start = Refreshing { apps: self@.apps, scans: self@.scans, seen: Seq::empty() };
        let ghost running = texts(current_desktops@);
        let ghost all = scans_of(dirs@);
        assert(texts(seen@) =~= Seq::<Seq<char>>::empty());
        assert(all.take(0) =~= Seq::<Scan>::empty());
        for i in 0..dirs.len()
            invariant
                all == scans_of(dirs@),
                running == texts(current_desktops@),
                self.launches == old(self).launches,
                (Refreshing { apps: self@.apps, scans: self@.scans, seen: texts(seen@) })
                    == start.after_scans(all.take(i as int), running),
        {
            assert(all.take(i + 1).drop_last() =~= all.take(i as int));
            assert(all.take(i + 1).last() == dirs@[i as int]@);
            self.refresh_scan(&dirs[i], current_desktops, &mut seen);
        }
        assert(all.take(all.len() as int) == all);
        self.prune(dirs, &seen);
    }
}

/// The entry that a row is shown as: a menu that its categories are routed to
/// takes the place of its own category.
pub open spec fn row_entry(row: Row, overrides: Map<Seq<char>, Seq<char>>) -> Entry {
    Entry {
        name: row.app.name,
        category: match first_routed(keys_of(pieces(row.app.raw_categories, ';')), overrides) {
            Some(menu) => menu,
            None => row.app.category,
        },
        exec_line: row.app.exec_line,
        terminal: row.app.terminal,
        comment: Seq::empty(),
    }
}

/// The rank of a row by its name, whatever the case of its ASCII letters.
pub open spec fn name_ranks(rows: Seq<Row>) -> Seq<Rank> {
    rows.map_values(
        |r: Row| Rank { weight: 0, stamp: Seq::empty(), text: ascii_lower(r.app.name) },
    )
}

impl Tables {
    /// The entries of all cached apps, by name; the case of ASCII letters does
    /// not count, and equal names keep the order of their rows.
    pub open spec fn entries(self, overrides: Map<Seq<char>, Seq<char>>) -> Seq<Entry> {
        ranked(name_ranks(self.apps)).map_values(|i: int| row_entry(self.apps[i], overrides))
    }
}

/// What a list of entries says.
pub open spec fn entries_of(s: Seq<AppEntry>) -> Seq<Entry> {
    s.map_values(|e: AppEntry| e@)
}

/// The entry that a row is shown as.
fn shown_entry(row: &AppRow, overrides: &TextMap<String>) -> (r: AppEntry)
    ensures
        r@ == row_entry(row@, menu_names(overrides@)),
{
    let category = match override_category(row.app.raw_categories.as_str(), overrides) {
        Some(menu) => menu,
        None => row.app.category.clone(),
    };
    let r = AppEntry {
        name: row.app.name.clone(),
        category,
        exec_line: row.app.exec_line.clone(),
        terminal: row.app.terminal,
        comment: String::new(),
    };
    assert(r@.comment =~= Seq::<char>::empty());
    r
}

impl Storage {
    /// The entries of all cached apps, by name.
    pub fn load_apps(&self, overrides: &TextMap<String>) -> (r: Vec<AppEntry>)
        ensures
            entries_of(r@) == self@.entries(menu_names(overrides@)),
    {
        let mut keys: Vec<RankKey> = Vec::new();
        let ghost rows = rows_of(self.apps@);
        let ghost names = menu_names(overrides@);
        assert(ranks_of(keys@) =~= name_ranks(rows.take(0)));
        for i in 0..self.apps.len()
            invariant
                rows == rows_of(self.apps@),
                ranks_of(keys@) == name_ranks(rows.take(i as int)),
        {
            let lower = to_ascii_lowercase(self.apps[i].app.name.as_str());
            let key = RankKey { weight: 0, stamp: Vec::new(), text: chars_of(lower.as_str()) };
            proof {
                assert(key.stamp@ =~= Seq::<char>::empty());
                assert(ranks_of(keys@.push(key)) =~= ranks_of(keys@).push(key@));
                assert(name_ranks(rows.take(i + 1)) =~= name_ranks(rows.take(i as int)).push(
                    key@,
                ));
            }
            keys.push(key);
        }
        assert(rows.take(rows.len() as int) == rows);
        let order = rank(&keys);
        let ghost places = ranked(name_ranks(rows));
        proof {
            ranking_is_a_stable_sort(name_ranks(rows));
        }
        let mut r: Vec<AppEntry> = Vec::new();
        for k in 0..order.len()
            invariant
                rows == rows_of(self.apps@),
                names == menu_names(overrides@),
                places == positions(order@),
                places.len() == order@.len(),
                forall|j: int| 0 <= j < places.len() ==> 0 <= #[trigger] places[j] < rows.len(),
                entries_of(r@) == places.take(k as int).map_values(
                    |i: int| row_entry(rows[i], names),
                ),
        {
            assert(places[k as int] == order@[k as int]);
            let entry = shown_entry(&self.apps[order[k]], overrides);
            proof {
                assert(entries_of(r@.push(entry)) =~= entries_of(r@).push(entry@));
                assert(places.take(k + 1).map_values(|i: int| row_entry(rows[i], names))
                    =~= places.take(k as int).map_values(|i: int| row_entry(rows[i], names)).push(
                    entry@,
                ));
            }
            r.push(entry);
        }
        assert(places.take(places.len() as int) == places);
        assert(entries_of(r@) =~= self@.entries(names));
        r
    }
}

/// The names of some launches, each once, in the order of their first launch.
pub open spec fn launched_names(launches: Seq<Launched>) -> Seq<Seq<char>>
    decreases launches.len(),
{
    if launches.len() == 0 {
        Seq::empty()
    } else {
        let before = launched_names(launches.drop_last());
        if before.contains(launches.last().name) {
            before
        } else {
            before.push(launches.last().name)
        }
    }
}

/// The latest time stamp of the launches of an app.
pub open spec fn last_stamp(launches: Seq<Launched>, name: Seq<char>) -> Seq<char>
    decreases launches.len(),
{
    if launches.len() == 0 {
        Seq::empty()
    } else {
        let before = last_stamp(launches.drop_last(), name);
        let last = launches.last();
        if last.name == name && lex_less(before, last.ts) {
            last.ts
        } else {
            before
        }
    }
}

/// The ranks of names by their latest launch, then by themselves.
pub open spec fn launch_ranks(launches: Seq<Launched>) -> Seq<Rank> {
    launched_names(launches).map_values(
        |n: Seq<char>| Rank { weight: 0, stamp: last_stamp(launches, n), text: n },
    )
}

/// The number of launches of an app since a time stamp.
pub open spec fn count_since(
    launches: Seq<Launched>,
    name: Seq<char>,
    cutoff: Seq<char>,
) -> nat
    decreases launches.len(),
{
    if launches.len() == 0 {
        0
    } else {
        let before = count_since(launches.drop_last(), name, cutoff);
        let last = launches.last();
        if last.name == name && !lex_less(last.ts, cutoff) {
            before + 1
        } else {
            before
        }
    }
}

/// A number of launches as the counter shows it, which starts over at zero
/// when it is full.
pub open spec fn shown_count(count: nat) -> u32 {
    (count % 0x1_0000_0000) as u32
}

/// How often each app was launched since a time stamp, without those that
/// were not.
pub open spec fn counts_since(launches: Seq<Launched>, cutoff: Seq<char>) -> Map<Seq<char>, u32> {
    Map::new(
        |n: Seq<char>| count_since(launches, n, cutoff) > 0,
        |n: Seq<char>| shown_count(count_since(launches, n, cutoff)),
    )
}

/// As many items of a list as a limit lets through.
pub open spec fn at_most<T>(s: Seq<T>, limit: int) -> Seq<T> {
    if s.len() <= limit {
        s
    } else {
        s.take(limit)
    }
}

impl Tables {
    /// The launched apps, the one launched last first.
    pub open spec fn recent(self) -> Seq<Seq<char>> {
        ranked(launch_ranks(self.launches)).map_values(
            |i: int| launched_names(self.launches)[i],
        )
    }

    /// The tables with one more launch.
    pub open spec fn launched(self, ts: Seq<char>, name: Seq<char>) -> Tables {
        Tables { launches: self.launches.push(Launched { ts, name }), ..self }
    }

    /// The tables with launches of some apps, each a minute before the one
    /// that comes before it in the list.
    pub open spec fn with_legacy(self, names: Seq<Seq<char>>, now: int) -> Tables
        decreases names.len(),
    {
        if names.len() == 0 {
            self
        } else {
            self.with_legacy(names.drop_last(), now).launched(
                stamp(minutes_before(now, names.len() - 1)),
                names.last(),
            )
        }
    }
}

/// The second that lies some minutes before another.
pub open spec fn minutes_before(now: int, minutes: int) -> int {
    now - 60 * minutes
}

/// Whether the stamp of a second stands among the stamps of all seconds as the
/// second stands among them, as far as years are written with four digits.
pub open spec fn in_stamp_order(seconds: int) -> bool {
    forall|t: int|
        #![trigger stamp(t)]
        padded(t) && padded(seconds) ==> (lex_less(stamp(t), stamp(seconds)) <==> t < seconds)
}

/// Whether the calendar reaches back far enough for a list of launches that
/// are a minute apart.
pub open spec fn reaches_back(count: nat, now: int) -> bool {
    count > 0 ==> in_calendar(now - 60 * (count - 1))
}

/// What becomes of a list of recent apps.
pub open spec fn legacy_import(
    tables: Tables,
    names: Option<Seq<Seq<char>>>,
    now: int,
) -> LegacyImport {
    match names {
        Some(names) if tables.launches.len() == 0 => {
            if reaches_back(names.len(), now) {
                LegacyImport::Imported
            } else {
                LegacyImport::TooLong
            }
        },
        _ => LegacyImport::Ignored,
    }
}

/// A failure of `serde_json`.
#[verifier::external_type_specification]
#[verifier::external_body]
pub struct ExJsonError(serde_json::Error);

/// The texts that `serde_json` reads from a JSON list of strings; nothing
/// where the document is no such list.
pub uninterp spec fn json_texts(document: Seq<char>) -> Option<Seq<Seq<char>>>;

/// What the result of reading a list of strings says.
pub open spec fn texts_read(r: Result<Vec<String>, serde_json::Error>) -> Option<Seq<Seq<char>>> {
    match r {
        Ok(names) => Some(texts(names@)),
        Err(_) => None,
    }
}

/// `serde_json::from_str` for a list of strings: whether it can be read, and
/// the strings that are read, depend on the document alone.
#[verifier::external_body]
fn read_texts(document: &str) -> (r: Result<Vec<String>, serde_json::Error>)
    ensures
        texts_read(r) == json_texts(document@),
{
    serde_json::from_str(document)
}

/// What became of a list of recent apps in its old place.
#[derive(Debug, Clone, Copy, PartialEq, Eq, Structural)]
pub enum LegacyImport {
    /// There are launches already, or the list cannot be read.
    Ignored,
    /// The apps of the list were taken over.
    Imported,
    /// The list reaches back beyond the start of the calendar.
    TooLong,
}

/// Lists of launches grow as what they say does.
proof fn lemma_launches_push(s: Seq<Launch>, l: Launch)
    ensures
        launches_of(s.push(l)) == launches_of(s).push(l@),
{
    assert(launches_of(s.push(l)) =~= launches_of(s).push(l@));
}

/// The first part of a list of launches.
proof fn lemma_launches_take(s: Seq<Launch>, n: int)
    requires
        0 <= n < s.len(),
    ensures
        launches_of(s).take(n + 1).drop_last() == launches_of(s).take(n),
        launches_of(s).take(n + 1).last() == s[n]@,
{
    assert(launches_of(s).take(n + 1).drop_last() =~= launches_of(s).take(n));
}

/// Whether the text `a` comes before the text `b`.
fn text_less(a: &str, b: &str) -> (r: bool)
    ensures
        r == lex_less(a@, b@),
{
    let x = chars_of(a);
    let y = chars_of(b);
    chars_less(&x, &y)
}

impl Storage {
    /// The names of the launches, each once.
    fn names_launched(&self) -> (r: Vec<String>)
        ensures
            texts(r@) == launched_names(self@.launches),
    {
        let mut r: Vec<String> = Vec::new();
        let ghost all = launches_of(self.launches@);
        assert(texts(r@) =~= launched_names(all.take(0)));
        for i in 0..self.launches.len()
            invariant
                all == launches_of(self.launches@),
                texts(r@) == launched_names(all.take(i as int)),
        {
            proof {
                lemma_launches_take(self.launches@, i as int);
            }
            if !holds(&r, self.launches[i].name.as_str()) {
                let name = self.launches[i].name.clone();
                proof {
                    lemma_texts_push(r@, name);
                }
                r.push(name);
            }
        }
        assert(all.take(all.len() as int) == all);
        r
    }

    /// The latest time stamp of the launches of an app.
    fn last_launch(&self, name: &str) -> (r: String)
        ensures
            r@ == last_stamp(self@.launches, name@),
    {
        let mut r = String::new();
        let ghost all = launches_of(self.launches@);
        assert(r@ =~= last_stamp(all.take(0), name@));
        for i in 0..self.launches.len()
            invariant
                all == launches_of(self.launches@),
                r@ == last_stamp(all.take(i as int), name@),
        {
            proof {
                lemma_launches_take(self.launches@, i as int);
            }
            if same_text(self.launches[i].name.as_str(), name) && text_less(
                r.as_str(),
                self.launches[i].ts.as_str(),
            ) {
                r = self.launches[i].ts.clone();
            }
        }
        assert(all.take(all.len() as int) == all);
        r
    }

    /// The launched apps, the one launched last first, at most `limit` of
    /// them. Apps whose latest launches have the same time stamp are listed by
    /// name.
    pub fn recent_names(&self, limit: usize) -> (r: Vec<String>)
        ensures
            texts(r@) == at_most(self@.recent(), limit as int),
    {
        let names = self.names_launched();
        let ghost all = launched_names(self@.launches);
        let ghost ranks = launch_ranks(self@.launches);
        let mut keys: Vec<RankKey> = Vec::new();
        assert(ranks_of(keys@) =~= ranks.take(0));
        for i in 0..names.len()
            invariant
                all == texts(names@),
                all == launched_names(self@.launches),
                ranks == launch_ranks(self@.launches),
                ranks_of(keys@) == ranks.take(i as int),
        {
            let ts = self.last_launch(names[i].as_str());
            let key = RankKey {
                weight: 0,
                stamp: chars_of(ts.as_str()),
                text: chars_of(names[i].as_str()),
            };
            proof {
                assert(all[i as int] == names@[i as int]@);
                assert(ranks_of(keys@.push(key)) =~= ranks_of(keys@).push(key@));
                assert(ranks.take(i + 1) =~= ranks.take(i as int).push(key@));
            }
            keys.push(key);
        }
        assert(ranks.take(ranks.len() as int) == ranks);
        let order = rank(&keys);
        proof {
            ranking_is_a_stable_sort(ranks);
        }
        let ghost places = ranked(ranks);
        let count = if order.len() <= limit {
            order.len()
        } else {
            limit
        };
        let mut r: Vec<String> = Vec::new();
        assert(texts(r@) =~= self@.recent().take(0));
        for k in 0..count
            invariant
                count <= order@.len(),
                all == texts(names@),
                places == positions(order@),
                places.len() == order@.len(),
                forall|j: int| 0 <= j < places.len() ==> 0 <= #[trigger] places[j] < all.len(),
                self@.recent() == places.map_values(|i: int| all[i]),
                texts(r@) == self@.recent().take(k as int),
        {
            assert(places[k as int] == order@[k as int]);
            let name = names[order[k]].clone();
            proof {
                lemma_texts_push(r@, name);
                assert(self@.recent().take(k + 1) =~= self@.recent().take(k as int).push(name@));
            }
            r.push(name);
        }
        assert(count == order@.len() ==> self@.recent().take(count as int) == self@.recent());
        r
    }

    /// How often each app was launched since a time stamp.
    fn counts(&self, cutoff: &str) -> (r: TextMap<u32>)
        ensures
            r@ == counts_since(self@.launches, cutoff@),
    {
        let mut r: TextMap<u32> = TextMap::new();
        let ghost all = launches_of(self.launches@);
        assert(r@ =~= counts_since(all.take(0), cutoff@));
        for i in 0..self.launches.len()
            invariant
                all == launches_of(self.launches@),
                r@ == counts_since(all.take(i as int), cutoff@),
        {
            proof {
                lemma_launches_take(self.launches@, i as int);
            }
            let ghost now = all.take(i as int);
            let ghost next = all.take(i + 1);
            assert(next.drop_last() == now);
            if !text_less(self.launches[i].ts.as_str(), cutoff) {
                let name = self.launches[i].name.clone();
                let before = match r.get(name.as_str()) {
                    Some(n) => *n,
                    None => 0,
                };
                proof {
                    let count = count_since(now, name@, cutoff@);
                    assert(before == shown_count(count));
                }
                r.insert(name, before.wrapping_add(1));
                assert(r@ =~= counts_since(next, cutoff@));
            } else {
                assert(r@ =~= counts_since(next, cutoff@));
            }
        }
        assert(all.take(all.len() as int) == all);
        r
    }

    /// How often each app was launched in the last `window_days` days. In the
    /// years that are written with four digits, a launch counts if and only if
    /// it is not older than that.
    pub fn popularity_map(&self, window_days: u32, now: i64) -> (r: TextMap<u32>)
        requires
            in_calendar(now as int),
            in_calendar(now - DAY * window_days),
        ensures
            r@ == counts_since(self@.launches, stamp(now - DAY * window_days)),
            in_stamp_order(now - DAY * window_days),
    {
        let cutoff = timestamp(now - DAY * window_days as i64);
        self.counts(cutoff.as_str())
    }

    /// Records a launch. In the years that are written with four digits, its
    /// stamp is later than those of all earlier seconds.
    pub fn record_launch(&mut self, name: &str, now: i64)
        requires
            in_calendar(now as int),
        ensures
            final(self)@ == old(self)@.launched(stamp(now as int), name@),
            in_stamp_order(now as int),
    {
        let launch = Launch { ts: timestamp(now), name: name.to_owned() };
        proof {
            lemma_launches_push(self.launches@, launch);
        }
        self.launches.push(launch);
    }

    /// Takes over a list of recent apps, the last used one first. Their
    /// launches are a minute apart, so that the order is kept.
    pub fn import_names(&mut self, names: &Vec<String>, now: i64)
        requires
            in_calendar(now as int),
            reaches_back(names@.len(), now as int),
        ensures
            final(self)@ == old(self)@.with_legacy(texts(names@), now as int),
            forall|i: int|
                0 <= i < names@.len() ==> in_stamp_order(#[trigger] minutes_before(now as int, i)),
    {
        let ghost start = self@;
        let ghost all = texts(names@);
        assert(all.take(0) =~= Seq::<Seq<char>>::empty());
        for i in 0..names.len()
            invariant
                in_calendar(now as int),
                reaches_back(names@.len(), now as int),
                all == texts(names@),
                self@ == start.with_legacy(all.take(i as int), now as int),
                forall|j: int|
                    0 <= j < i ==> in_stamp_order(#[trigger] minutes_before(now as int, j)),
        {
            assert(all.take(i + 1).drop_last() =~= all.take(i as int));
            assert(all.take(i + 1).last() == names@[i as int]@);
            self.record_launch(names[i].as_str(), now - 60 * (i as i64));
        }
        assert(all.take(all.len() as int) == all);
    }

    /// Takes over the list of recent apps in a JSON document, unless there are
    /// launches already or the document is no list of strings.
    pub fn maybe_import_legacy_recent(&mut self, json: &str, now: i64) -> (r: LegacyImport)
        requires
            in_calendar(now as int),
        ensures
            r == legacy_import(old(self)@, json_texts(json@), now as int),
            r == LegacyImport::Imported ==> final(self)@ == old(self)@.with_legacy(
                json_texts(json@)->0,
                now as int,
            ),
            r != LegacyImport::Imported ==> *final(self) == *old(self),
    {
        if self.launches.len() > 0 {
            return LegacyImport::Ignored;
        }
        match read_texts(json) {
            Err(_) => LegacyImport::Ignored,
            Ok(names) => {
                if names.len() as u128 > ((now - FIRST_SECOND) / 60 + 1) as u128 {
                    return LegacyImport::TooLong;
                }
                self.import_names(&names, now);
                LegacyImport::Imported
            },
        }
    }
}

} // verus!
