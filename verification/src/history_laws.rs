//! What holds of recorded launches, whatever was launched.

use vstd::prelude::*;

use crate::app::{Mode, SinglePaneMode, State};
use crate::clock::stamp;
use crate::config::BstlConfig;
use crate::ranking::outranks;
use crate::storage::{
    count_since, counts_since, last_stamp, legacy_import, Launched, LegacyImport, Tables,
};
use crate::storage_laws::{by_latest_launch, launch_rank_of, recent_goes_by_latest_launch};
use crate::text::{lemma_lex_irreflexive, lemma_lex_total, lemma_lex_transitive, lex_less};

verus! {

/// The count of an app since a time stamp is the number of its launches whose
/// stamps do not come before it.
pub proof fn counts_are_numbers_of_launches(
    launches: Seq<Launched>,
    name: Seq<char>,
    cutoff: Seq<char>,
)
    ensures
        count_since(launches, name, cutoff) == launches.filter(
            |l: Launched| l.name == name && !lex_less(l.ts, cutoff),
        ).len(),
    decreases launches.len(),
{
    reveal(Seq::filter);
    if launches.len() > 0 {
        counts_are_numbers_of_launches(launches.drop_last(), name, cutoff);
    }
}

/// An app has a count since a time stamp if and only if it was launched since
/// then, and the count is the number of those launches as far as the counter
/// goes.
pub proof fn launched_apps_are_counted(
    launches: Seq<Launched>,
    name: Seq<char>,
    cutoff: Seq<char>,
)
    ensures
        counts_since(launches, cutoff).contains_key(name) <==> exists|i: int|
            0 <= i < launches.len() && (#[trigger] launches[i]).name == name && !lex_less(
                launches[i].ts,
                cutoff,
            ),
        counts_since(launches, cutoff).contains_key(name) && launches.len() <= u32::MAX
            ==> counts_since(launches, cutoff)[name] == launches.filter(
            |l: Launched| l.name == name && !lex_less(l.ts, cutoff),
        ).len(),
{
    counts_are_numbers_of_launches(launches, name, cutoff);
    launches.lemma_filter_len(|l: Launched| l.name == name && !lex_less(l.ts, cutoff));
    lemma_counted(launches, name, cutoff);
}

/// Launches are counted if there are any.
proof fn lemma_counted(launches: Seq<Launched>, name: Seq<char>, cutoff: Seq<char>)
    ensures
        count_since(launches, name, cutoff) > 0 <==> exists|i: int|
            0 <= i < launches.len() && (#[trigger] launches[i]).name == name && !lex_less(
                launches[i].ts,
                cutoff,
            ),
    decreases launches.len(),
{
    if launches.len() > 0 {
        let rest = launches.drop_last();
        lemma_counted(rest, name, cutoff);
        if exists|i: int|
            0 <= i < rest.len() && (#[trigger] rest[i]).name == name && !lex_less(
                rest[i].ts,
                cutoff,
            ) {
            let i = choose|i: int|
                0 <= i < rest.len() && (#[trigger] rest[i]).name == name && !lex_less(
                    rest[i].ts,
                    cutoff,
                );
            assert(launches[i] == rest[i]);
        }
        if exists|i: int|
            0 <= i < launches.len() && (#[trigger] launches[i]).name == name && !lex_less(
                launches[i].ts,
                cutoff,
            ) {
            let i = choose|i: int|
                0 <= i < launches.len() && (#[trigger] launches[i]).name == name && !lex_less(
                    launches[i].ts,
                    cutoff,
                );
            if i < rest.len() {
                assert(rest[i] == launches[i]);
            }
        }
        assert(launches[launches.len() - 1] == launches.last());
    }
}

/// The latest stamp of an app's launches is one of theirs, and none comes
/// behind it.
proof fn lemma_last_stamp(launches: Seq<Launched>, name: Seq<char>)
    ensures
        forall|i: int|
            0 <= i < launches.len() && (#[trigger] launches[i]).name == name ==> !lex_less(
                last_stamp(launches, name),
                launches[i].ts,
            ),
        last_stamp(launches, name).len() > 0 ==> exists|i: int|
            0 <= i < launches.len() && (#[trigger] launches[i]).name == name && launches[i].ts
                == last_stamp(launches, name),
    decreases launches.len(),
{
    if launches.len() > 0 {
        let rest = launches.drop_last();
        let last = launches.last();
        lemma_last_stamp(rest, name);
        let before = last_stamp(rest, name);
        let now = last_stamp(launches, name);
        assert forall|i: int|
            0 <= i < launches.len() && (#[trigger] launches[i]).name == name implies !lex_less(
            now,
            launches[i].ts,
        ) by {
            if i < rest.len() {
                assert(rest[i] == launches[i]);
                if now != before && lex_less(now, launches[i].ts) {
                    lemma_lex_transitive(before, now, launches[i].ts);
                }
            } else if now == last.ts {
                lemma_lex_irreflexive(now);
            }
        }
        if now.len() > 0 {
            if last.name == name && lex_less(before, last.ts) {
                assert(launches[launches.len() - 1].ts == now);
            } else {
                let i = choose|i: int|
                    0 <= i < rest.len() && (#[trigger] rest[i]).name == name && rest[i].ts
                        == before;
                assert(launches[i] == rest[i]);
            }
        }
    }
}

/// The recent apps are the launched ones, each once. Of two of them, the first
/// one has a launch whose stamp does not come before that of any launch of the
/// second.
pub proof fn recent_apps_were_launched_later(tables: Tables, i: int, j: int, k: int)
    requires
        0 <= i < j < tables.recent().len(),
        0 <= k < tables.launches.len(),
        tables.launches[k].name == tables.recent()[j],
        tables.launches[k].ts.len() > 0,
    ensures
        tables.recent().no_duplicates(),
        forall|x: Seq<char>| #[trigger]
            tables.recent().contains(x) <==> exists|m: int|
                0 <= m < tables.launches.len() && (#[trigger] tables.launches[m]).name == x,
        exists|m: int|
            0 <= m < tables.launches.len() && (#[trigger] tables.launches[m]).name
                == tables.recent()[i] && !lex_less(tables.launches[m].ts, tables.launches[k].ts),
{
    recent_goes_by_latest_launch(tables);
    let launches = tables.launches;
    let first = tables.recent()[i];
    let second = tables.recent()[j];
    lemma_last_stamp(launches, first);
    lemma_last_stamp(launches, second);
    let a = last_stamp(launches, first);
    let b = last_stamp(launches, second);
    let ts = launches[k].ts;
    assert(by_latest_launch(tables.recent(), launches));
    assert(outranks(launch_rank_of(launches, first), launch_rank_of(launches, second)));
    assert(!lex_less(b, ts));
    assert(!lex_less(a, ts)) by {
        lemma_lex_total(b, ts);
        if lex_less(a, ts) {
            if b == ts {
            } else {
                lemma_lex_transitive(a, ts, b);
            }
            if lex_less(b, a) {
                lemma_lex_transitive(a, b, a);
                lemma_lex_irreflexive(a);
            }
            lemma_lex_irreflexive(a);
        }
    }
    assert(a.len() > 0) by {
        if a.len() == 0 {
            assert(lex_less(a, ts));
        }
    }
    let m = choose|m: int|
        0 <= m < launches.len() && (#[trigger] launches[m]).name == first && launches[m].ts == a;
    assert(!lex_less(launches[m].ts, ts));
}

/// The launcher starts with the most recent apps of its tables, as many as are
/// asked for and at least one, and with the counts of the apps that were
/// launched within the days that are asked for, and no others.
pub proof fn the_launcher_starts_with_its_history(
    single_pane_mode: SinglePaneMode,
    start_mode: Mode,
    config: BstlConfig,
    storage: Tables,
    category_overrides: Map<Seq<char>, Seq<char>>,
    executables: Seq<Seq<char>>,
    now: int,
    tick: u64,
    name: Seq<char>,
)
    ensures
        ({
            let state = State::start(
                single_pane_mode,
                start_mode,
                config,
                storage,
                category_overrides,
                executables,
                now,
                tick,
            );
            let limit = if config.max_recent_apps < 1 {
                1
            } else {
                config.max_recent_apps as int
            };
            let since = stamp(now - 86400 * config.history_window_days);
            &&& state.recent_apps.is_prefix_of(storage.recent())
            &&& state.recent_apps.len() == limit || state.recent_apps.len()
                == storage.recent().len() <= limit
            &&& state.popularity.contains_key(name) <==> exists|i: int|
                0 <= i < storage.launches.len() && (#[trigger] storage.launches[i]).name == name
                    && !lex_less(storage.launches[i].ts, since)
            &&& state.mode == start_mode
            &&& state.single_pane_mode == single_pane_mode
            &&& state.selected_app == 0 && state.selected_category == 0
            &&& state.app_to_launch is None
            &&& !state.should_quit
            &&& state.storage == storage
        }),
{
    launched_apps_are_counted(
        storage.launches,
        name,
        stamp(now - 86400 * config.history_window_days),
    );
}

/// A launch is recorded behind all others with its time, and nothing else of
/// the tables changes.
pub proof fn a_launch_is_recorded(state: State, name: Seq<char>, now: int)
    ensures
        state.launched(name, now).storage.launches == state.storage.launches.push(
            Launched { ts: stamp(now), name },
        ),
        state.launched(name, now).storage.apps == state.storage.apps,
        state.launched(name, now).storage.scans == state.storage.scans,
        state.launched(name, now).apps == state.apps,
        state.launched(name, now).app_to_launch == state.app_to_launch,
{
}

/// A list of recent apps from elsewhere is taken over only where no launch is
/// recorded, it can be read, and its launches, a minute apart, lie in the
/// calendar.
pub proof fn old_lists_are_taken_over_once(
    tables: Tables,
    names: Option<Seq<Seq<char>>>,
    now: int,
)
    ensures
        tables.launches.len() > 0 || names is None ==> legacy_import(tables, names, now)
            == LegacyImport::Ignored,
        tables.launches.len() == 0 && names is Some ==> legacy_import(tables, names, now) == if
            names->0.len() == 0 || -8334601228800 <= now - 60 * (names->0.len() - 1)
            <= 8210266876799 {
            LegacyImport::Imported
        } else {
            LegacyImport::TooLong
        },
{
}

/// Each app of such a list gets a launch, the first one now and each further
/// one a minute before, behind the launches that are there.
pub proof fn old_lists_become_launches(tables: Tables, names: Seq<Seq<char>>, now: int, i: int)
    requires
        0 <= i < names.len(),
    ensures
        tables.with_legacy(names, now).launches.len() == tables.launches.len() + names.len(),
        tables.with_legacy(names, now).launches[tables.launches.len() + i] == (Launched {
            ts: stamp(now - 60 * i),
            name: names[i],
        }),
        tables.with_legacy(names, now).apps == tables.apps,
        tables.with_legacy(names, now).scans == tables.scans,
    decreases names.len(),
{
    let rest = names.drop_last();
    lemma_legacy_length(tables, rest, now);
    if i < names.len() - 1 {
        old_lists_become_launches(tables, rest, now, i);
        assert(rest[i] == names[i]);
    }
}

/// How many launches such a list gives.
proof fn lemma_legacy_length(tables: Tables, names: Seq<Seq<char>>, now: int)
    ensures
        tables.with_legacy(names, now).launches.len() == tables.launches.len() + names.len(),
        tables.with_legacy(names, now).apps == tables.apps,
        tables.with_legacy(names, now).scans == tables.scans,
    decreases names.len(),
{
    if names.len() > 0 {
        lemma_legacy_length(tables, names.drop_last(), now);
    }
}

} // verus!
