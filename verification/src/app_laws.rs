//! What holds of the launcher's lists, whatever it lists.

use vstd::prelude::*;

use crate::app::{
    at_least_one, kept, lemma_kept_within, Entry, Mode, Shelf, SinglePaneMode, State,
};
use crate::catalog::{
    all_positions, by_name, category_list, number_ranks, picked, single_pane_source, within,
};
use crate::clock::stamp;
use crate::ranking::{lemma_outranks_irreflexive, outranks, ranked, ranking_is_a_stable_sort, Rank};
use crate::search::{begins_query, launches_of_name, prefix_matches_rank_above_others};
use crate::storage::{at_most, count_since, counts_since, shown_count};
use crate::storage_laws::{
    a_launch_raises_its_count, recent_lists_each_app_once, the_latest_launch_moves_to_the_front,
};
use crate::text::{lemma_push_contains, lemma_without, lex_less, without};

verus! {

/// Whether some numbers are in increasing order.
pub open spec fn increasing(s: Seq<int>) -> bool {
    forall|i: int, j: int| 0 <= i < j < s.len() ==> #[trigger] s[i] < #[trigger] s[j]
}

/// What is kept of some positions: those that should be, in their order.
pub proof fn lemma_kept(among: Seq<int>, keep: spec_fn(int) -> bool)
    ensures
        forall|x: int| #[trigger]
            kept(among, keep).contains(x) <==> among.contains(x) && keep(x),
        increasing(among) ==> increasing(kept(among, keep)),
    decreases among.len(),
{
    if among.len() > 0 {
        let rest = among.drop_last();
        let last = among.last();
        lemma_kept(rest, keep);
        let before = kept(rest, keep);
        let all = kept(among, keep);
        assert(among =~= rest.push(last));
        assert forall|x: int| #[trigger] all.contains(x) <==> among.contains(x) && keep(x) by {
            lemma_push_contains(rest, last, x);
            lemma_push_contains(before, last, x);
        }
        if increasing(among) {
            assert forall|i: int, j: int| 0 <= i < j < rest.len() implies #[trigger] rest[i]
                < #[trigger] rest[j] by {
                assert(rest[i] == among[i] && rest[j] == among[j]);
            }
            assert forall|i: int, j: int| 0 <= i < j < all.len() implies #[trigger] all[i]
                < #[trigger] all[j] by {
                if j == before.len() {
                    assert(before.contains(before[i]));
                    let k = choose|k: int| 0 <= k < rest.len() && rest[k] == before[i];
                    assert(among[k] == before[i] && among[rest.len() as int] == last);
                } else {
                    assert(all[i] == before[i] && all[j] == before[j]);
                }
            }
        }
    }
}

/// The positions of a list are in increasing order, and all are there.
pub proof fn lemma_all_positions(length: nat)
    ensures
        increasing(all_positions(length)),
        within(all_positions(length), length),
        forall|i: int| #[trigger] all_positions(length).contains(i) <==> 0 <= i < length,
{
    let all = all_positions(length);
    assert forall|i: int| #[trigger] all.contains(i) <==> 0 <= i < length by {
        if 0 <= i < length {
            assert(all[i] == i);
        }
    }
}

/// What a ranking makes of a list of positions: the same positions.
proof fn lemma_picked_holds(found: Seq<int>, ranks: Seq<Rank>)
    requires
        ranks.len() == found.len(),
        found.no_duplicates(),
    ensures
        picked(found, ranked(ranks)).no_duplicates(),
        forall|x: int| #[trigger]
            picked(found, ranked(ranks)).contains(x) <==> found.contains(x),
{
    ranking_is_a_stable_sort(ranks);
    let order = ranked(ranks);
    let out = picked(found, order);
    assert forall|i: int, j: int| 0 <= i < out.len() && 0 <= j < out.len() && i != j implies out[i]
        != out[j] by {
        assert(order[i] != order[j]);
        assert(0 <= order[i] < found.len() && 0 <= order[j] < found.len());
    }
    assert forall|x: int| #[trigger] out.contains(x) <==> found.contains(x) by {
        if out.contains(x) {
            let i = choose|i: int| 0 <= i < out.len() && out[i] == x;
            assert(0 <= order[i] < found.len());
            assert(found[order[i]] == x);
        }
        if found.contains(x) {
            let k = choose|k: int| 0 <= k < found.len() && found[k] == x;
            assert(order.contains(k));
            let i = choose|i: int| 0 <= i < order.len() && order[i] == k;
            assert(out[i] == x);
        }
    }
}

/// A search shows the apps that match, each once, the best match first, and of
/// equal matches the one first that comes first in the list.
pub proof fn searching_shows_the_matches(shelf: Shelf, query: Seq<char>)
    requires
        query.len() > 0,
    ensures
        shelf.visible(query).no_duplicates(),
        forall|i: int| #[trigger]
            shelf.visible(query).contains(i) <==> 0 <= i < shelf.apps.len() && shelf.score_of(
                i,
                query,
            ) is Some,
        forall|i: int, j: int|
            0 <= i < j < shelf.visible(query).len() ==> {
                let first = #[trigger] shelf.visible(query)[i];
                let second = #[trigger] shelf.visible(query)[j];
                let best = shelf.score_of(first, query)->0;
                let next = shelf.score_of(second, query)->0;
                best > next || best == next && first < second
            },
{
    let all = all_positions(shelf.apps.len());
    let keep = shelf.matches(query);
    let found = kept(all, keep);
    let scores = shelf.scores(found, query);
    let ranks = number_ranks(scores);
    let out = shelf.visible(query);
    lemma_all_positions(shelf.apps.len());
    lemma_kept(all, keep);
    lemma_picked_holds(found, ranks);
    ranking_is_a_stable_sort(ranks);
    let order = ranked(ranks);
    assert forall|i: int, j: int| 0 <= i < j < out.len() implies {
        let first = #[trigger] out[i];
        let second = #[trigger] out[j];
        let best = shelf.score_of(first, query)->0;
        let next = shelf.score_of(second, query)->0;
        best > next || best == next && first < second
    } by {
        assert(0 <= order[i] < found.len() && 0 <= order[j] < found.len());
        assert(out[i] == found[order[i]] && out[j] == found[order[j]]);
        assert(ranks[order[i]].weight == shelf.score_of(out[i], query)->0);
        assert(ranks[order[j]].weight == shelf.score_of(out[j], query)->0);
        lemma_outranks_irreflexive(ranks[order[i]]);
        assert(!outranks(ranks[order[j]], ranks[order[i]]));
        assert(outranks(ranks[order[i]], ranks[order[j]]) || order[i] < order[j]);
    }
}

/// Whether no two entries have the same name.
pub open spec fn distinct_names(apps: Seq<Entry>) -> bool {
    forall|i: int, j: int|
        0 <= i < j < apps.len() ==> (#[trigger] apps[i]).name != (#[trigger] apps[j]).name
}

/// The apps that are launched most often are in the list of apps, each once,
/// and have been launched.
pub proof fn lemma_top(shelf: Shelf)
    ensures
        shelf.top().no_duplicates(),
        shelf.by_launches().no_duplicates(),
        shelf.top().len() <= shelf.by_launches().len(),
        forall|i: int| 0 <= i < shelf.top().len() ==> shelf.top()[i] == shelf.by_launches()[i],
        forall|i: int| #[trigger]
            shelf.by_launches().contains(i) <==> 0 <= i < shelf.apps.len()
                && shelf.popularity.contains_key(shelf.apps[i].name),
        forall|i: int, j: int|
            0 <= i < j < shelf.by_launches().len() ==> launches_of_name(
                shelf.popularity,
                shelf.apps[#[trigger] shelf.by_launches()[j]].name,
            ) <= launches_of_name(
                shelf.popularity,
                shelf.apps[#[trigger] shelf.by_launches()[i]].name,
            ),
{
    let all = all_positions(shelf.apps.len());
    let found = kept(all, shelf.has_launches());
    let ranks = shelf.launch_ranks(found);
    lemma_all_positions(shelf.apps.len());
    lemma_kept(all, shelf.has_launches());
    lemma_picked_holds(found, ranks);
    ranking_is_a_stable_sort(ranks);
    let order = ranked(ranks);
    let sorted = shelf.by_launches();
    let top = shelf.top();
    assert forall|i: int, j: int| 0 <= i < j < sorted.len() implies launches_of_name(
        shelf.popularity,
        shelf.apps[#[trigger] sorted[j]].name,
    ) <= launches_of_name(shelf.popularity, shelf.apps[#[trigger] sorted[i]].name) by {
        assert(sorted[i] == found[order[i]] && sorted[j] == found[order[j]]);
        assert(!outranks(ranks[order[j]], ranks[order[i]]));
    }
    assert forall|i: int, j: int| 0 <= i < top.len() && 0 <= j < top.len() && i
        != j implies top[i] != top[j] by {
        assert(top[i] == sorted[i] && top[j] == sorted[j]);
    }
}

/// Without a query no app is shown twice, and where no two apps have the same
/// name, every app is shown.
pub proof fn without_a_query_all_apps_are_shown(shelf: Shelf)
    ensures
        shelf.default_view().no_duplicates(),
        within(shelf.default_view(), shelf.apps.len()),
        distinct_names(shelf.apps) ==> forall|i: int|
            0 <= i < shelf.apps.len() ==> #[trigger] shelf.default_view().contains(i),
{
    let all = all_positions(shelf.apps.len());
    let top = shelf.top();
    let names = shelf.names(top);
    let keep = shelf.named_otherwise(names);
    let rest = kept(all, keep);
    let out = shelf.default_view();
    lemma_all_positions(shelf.apps.len());
    lemma_kept(all, keep);
    lemma_kept_within(all, keep, shelf.apps.len());
    lemma_top(shelf);
    if shelf.config.recent_first && shelf.popularity != Map::<Seq<char>, u32>::empty() {
        assert(out == top + rest);
        assert forall|i: int| 0 <= i < out.len() implies 0 <= #[trigger] out[i]
            < shelf.apps.len() by {
            if i < top.len() {
                assert(out[i] == top[i] && top[i] == shelf.by_launches()[i]);
                assert(shelf.by_launches().contains(top[i]));
            } else {
                assert(out[i] == rest[i - top.len()]);
            }
        }
        assert forall|i: int, j: int| 0 <= i < j < out.len() implies out[i] != out[j] by {
            if j < top.len() {
                assert(out[i] == top[i] && out[j] == top[j]);
            } else if i >= top.len() {
                assert(out[i] == rest[i - top.len()] && out[j] == rest[j - top.len()]);
            } else {
                assert(out[i] == top[i] && out[j] == rest[j - top.len()]);
                assert(rest.contains(out[j]));
                assert(names[i] == shelf.apps[top[i]].name);
                assert(names.contains(shelf.apps[top[i]].name));
            }
        }
        if distinct_names(shelf.apps) {
            assert forall|i: int| 0 <= i < shelf.apps.len() implies #[trigger] out.contains(i) by {
                assert(all.contains(i));
                if keep(i) {
                    assert(rest.contains(i));
                    let k = choose|k: int| 0 <= k < rest.len() && rest[k] == i;
                    assert(out[top.len() + k] == i);
                } else {
                    let k = choose|k: int| 0 <= k < names.len() && names[k] == shelf.apps[i].name;
                    assert(shelf.apps[top[k]].name == shelf.apps[i].name);
                    assert(out[k] == top[k]);
                    assert(0 <= out[k] < shelf.apps.len());
                    if top[k] < i {
                        assert(shelf.apps[top[k]].name != shelf.apps[i].name);
                    } else if top[k] > i {
                        assert(shelf.apps[i].name != shelf.apps[top[k]].name);
                    }
                    assert(out[k] == i);
                }
            }
        }
    }
}

/// Where it is asked for, the apps that are launched most often come first:
/// none of the others that have been launched was launched more often, and
/// among the first none that stands behind another was.
pub proof fn frequent_apps_come_first(shelf: Shelf)
    requires
        shelf.config.recent_first,
        shelf.popularity != Map::<Seq<char>, u32>::empty(),
    ensures
        shelf.top().len() <= at_least_one(shelf.config.top_recent_count as int),
        shelf.top().is_prefix_of(shelf.default_view()),
        forall|i: int, j: int|
            0 <= i < j < shelf.top().len() ==> launches_of_name(
                shelf.popularity,
                shelf.apps[#[trigger] shelf.top()[j]].name,
            ) <= launches_of_name(shelf.popularity, shelf.apps[#[trigger] shelf.top()[i]].name),
        forall|i: int, app: int|
            0 <= i < shelf.top().len() && 0 <= app < shelf.apps.len()
                && shelf.popularity.contains_key((#[trigger] shelf.apps[app]).name)
                && !shelf.top().contains(app) ==> launches_of_name(
                shelf.popularity,
                shelf.apps[app].name,
            ) <= launches_of_name(shelf.popularity, shelf.apps[#[trigger] shelf.top()[i]].name),
{
    lemma_top(shelf);
    let sorted = shelf.by_launches();
    let top = shelf.top();
    assert(top =~= shelf.default_view().subrange(0, top.len() as int));
    assert forall|i: int, j: int| 0 <= i < j < top.len() implies launches_of_name(
        shelf.popularity,
        shelf.apps[#[trigger] top[j]].name,
    ) <= launches_of_name(shelf.popularity, shelf.apps[#[trigger] top[i]].name) by {
        assert(top[i] == sorted[i] && top[j] == sorted[j]);
    }
    assert forall|i: int, app: int|
        0 <= i < top.len() && 0 <= app < shelf.apps.len() && shelf.popularity.contains_key(
            (#[trigger] shelf.apps[app]).name,
        ) && !top.contains(app) implies launches_of_name(
        shelf.popularity,
        shelf.apps[app].name,
    ) <= launches_of_name(shelf.popularity, shelf.apps[#[trigger] top[i]].name) by {
        assert(sorted.contains(app));
        let k = choose|k: int| 0 <= k < sorted.len() && sorted[k] == app;
        if k < top.len() {
            assert(top[k] == app);
        }
        assert(top[i] == sorted[i]);
    }
}

/// A launch puts its app first among the recent ones. The list holds no app
/// twice, holds no app that it did not hold but the launched one, and is never
/// longer than asked for.
pub proof fn a_launched_app_is_the_most_recent(state: State, name: Seq<char>, now: int)
    requires
        state.recent_apps.no_duplicates(),
    ensures
        state.launched(name, now).recent_apps[0] == name,
        state.launched(name, now).recent_apps.no_duplicates(),
        0 < state.launched(name, now).recent_apps.len() <= at_least_one(
            state.config.max_recent_apps as int,
        ),
        forall|x: Seq<char>| #[trigger]
            state.launched(name, now).recent_apps.contains(x) ==> x == name
                || state.recent_apps.contains(x),
{
    let others = without(state.recent_apps, name);
    let whole = seq![name] + others;
    let recent = state.launched(name, now).recent_apps;
    lemma_without(state.recent_apps, name);
    assert forall|i: int| 0 <= i < recent.len() implies recent[i] == whole[i] by {}
    assert forall|i: int, j: int| 0 <= i < j < recent.len() implies recent[i] != recent[j] by {
        assert(recent[j] == others[j - 1]);
        assert(others.contains(others[j - 1]));
        if i > 0 {
            assert(recent[i] == others[i - 1]);
        }
    }
    assert forall|x: Seq<char>| #[trigger] recent.contains(x) implies x == name
        || state.recent_apps.contains(x) by {
        let i = choose|i: int| 0 <= i < recent.len() && recent[i] == x;
        if i > 0 {
            assert(others.contains(others[i - 1]));
        }
    }
}

/// A launch counts once for its app and leaves the counts of all others.
pub proof fn a_launch_counts_at_once(state: State, name: Seq<char>, now: int)
    requires
        launches_of_name(state.popularity, name) < u32::MAX,
    ensures
        launches_of_name(state.launched(name, now).popularity, name) == launches_of_name(
            state.popularity,
            name,
        ) + 1,
        forall|other: Seq<char>|
            other != name ==> #[trigger] launches_of_name(
                state.launched(name, now).popularity,
                other,
            ) == launches_of_name(state.popularity, other),
{
}

/// Changing the number of panes twice gives the first number again, with its
/// lists loaded anew and their first items chosen.
pub proof fn toggling_twice_returns(state: State, executables: Seq<Seq<char>>)
    ensures
        state.toggled(executables).mode != state.mode,
        state.toggled(executables).toggled(executables) == match state.mode {
            Mode::SinglePane => state.in_single_pane(executables),
            Mode::DualPane => state.in_dual_pane(),
        },
        state.toggled(executables).query() == state.query(),
{
}

/// Changing what the single pane lists twice lists the first again.
pub proof fn toggling_the_single_pane_twice_returns(state: State, executables: Seq<Seq<char>>)
    ensures
        state.dmenu_toggled(executables).single_pane_mode != state.single_pane_mode,
        state.dmenu_toggled(executables).dmenu_toggled(executables) == state.in_single_pane(
            executables,
        ),
{
}

/// The cursor is always shown where the interval is 0, and a cursor that was
/// just shown is not hidden before the interval is over.
pub proof fn the_cursor_stays_for_its_interval(state: State, shown: u64, later: u64)
    requires
        state.config.colors.cursor_blink_interval == 0 || later - shown
            < state.config.colors.cursor_blink_interval * 1_000_000,
    ensures
        state.cursor_shown(shown).blinked(later).cursor_visible,
{
}

/// In a search, the apps whose names begin with the query are shown before all
/// others, however often each was launched and whatever a launch is worth.
pub proof fn prefix_matches_are_shown_first(shelf: Shelf, query: Seq<char>)
    requires
        query.len() > 0,
    ensures
        forall|i: int, j: int|
            0 <= i < j < shelf.visible(query).len() && begins_query(
                shelf.apps[#[trigger] shelf.visible(query)[j]].name,
                query,
            ) ==> begins_query(shelf.apps[#[trigger] shelf.visible(query)[i]].name, query),
{
    searching_shows_the_matches(shelf, query);
    let out = shelf.visible(query);
    assert forall|i: int, j: int|
        0 <= i < j < out.len() && begins_query(
            shelf.apps[#[trigger] out[j]].name,
            query,
        ) implies begins_query(shelf.apps[#[trigger] out[i]].name, query) by {
        assert(out.contains(out[i]) && out.contains(out[j]));
        let first = shelf.apps[out[i]].name;
        let second = shelf.apps[out[j]].name;
        if !begins_query(first, query) {
            prefix_matches_rank_above_others(
                shelf.popularity,
                shelf.config.popularity_weight,
                second,
                first,
                query,
            );
        }
    }
}

/// A list that holds no text twice, without one of its texts.
proof fn lemma_without_one(s: Seq<Seq<char>>, at: int)
    requires
        s.no_duplicates(),
        0 <= at < s.len(),
    ensures
        without(s, s[at]) == s.take(at) + s.skip(at + 1),
    decreases s.len(),
{
    let rest = s.drop_last();
    assert forall|i: int, j: int| 0 <= i < rest.len() && 0 <= j < rest.len() && i
        != j implies rest[i] != rest[j] by {
        assert(rest[i] == s[i] && rest[j] == s[j]);
    }
    if at < rest.len() {
        assert(rest[at] == s[at]);
        lemma_without_one(rest, at);
        assert(s[s.len() - 1] != s[at]);
        assert(rest.take(at) =~= s.take(at));
        assert((rest.take(at) + rest.skip(at + 1)).push(s.last()) =~= s.take(at) + s.skip(at + 1));
    } else {
        assert forall|i: int| 0 <= i < rest.len() implies rest[i] != s[at] by {
            assert(rest[i] == s[i]);
        }
        lemma_without_none(rest, s[at]);
        assert(rest =~= s.take(at) + s.skip(at + 1));
    }
}

/// A list without a text that it does not hold.
proof fn lemma_without_none(s: Seq<Seq<char>>, text: Seq<char>)
    requires
        forall|i: int| 0 <= i < s.len() ==> s[i] != text,
    ensures
        without(s, text) == s,
    decreases s.len(),
{
    if s.len() > 0 {
        let rest = s.drop_last();
        assert forall|i: int| 0 <= i < rest.len() implies rest[i] != text by {
            assert(rest[i] == s[i]);
        }
        lemma_without_none(rest, text);
        assert(s[s.len() - 1] != text);
        assert(rest.push(s.last()) =~= s);
    }
}

/// To put a text to the front of a list, it is enough to know the part of the
/// list that will be kept.
proof fn lemma_front_of_part(s: Seq<Seq<char>>, text: Seq<char>, limit: int)
    requires
        s.no_duplicates(),
        limit >= 1,
    ensures
        at_most(seq![text] + without(at_most(s, limit), text), limit) == at_most(
            seq![text] + without(s, text),
            limit,
        ),
{
    if s.len() > limit {
        let part = s.take(limit);
        assert forall|i: int, j: int| 0 <= i < part.len() && 0 <= j < part.len() && i
            != j implies part[i] != part[j] by {
            assert(part[i] == s[i] && part[j] == s[j]);
        }
        let left = at_most(seq![text] + without(part, text), limit);
        let right = at_most(seq![text] + without(s, text), limit);
        if s.contains(text) {
            let at = choose|at: int| 0 <= at < s.len() && s[at] == text;
            lemma_without_one(s, at);
            if at < limit {
                assert(part[at] == text);
                lemma_without_one(part, at);
            } else {
                assert forall|i: int| 0 <= i < part.len() implies part[i] != text by {
                    assert(part[i] == s[i]);
                }
                lemma_without_none(part, text);
            }
        } else {
            assert forall|i: int| 0 <= i < s.len() implies s[i] != text by {
                assert(s.contains(s[i]));
            }
            assert forall|i: int| 0 <= i < part.len() implies part[i] != text by {
                assert(part[i] == s[i]);
            }
            lemma_without_none(s, text);
            lemma_without_none(part, text);
        }
        assert(left =~= right);
    }
}

/// A launch keeps the recent apps of the launcher those of its tables, if its
/// stamp is later than all before it.
pub proof fn recent_apps_stay_those_of_the_tables(state: State, name: Seq<char>, now: int)
    requires
        stamp(now).len() > 0,
        forall|i: int|
            0 <= i < state.storage.launches.len() ==> lex_less(
                (#[trigger] state.storage.launches[i]).ts,
                stamp(now),
            ),
        state.recent_apps == at_most(
            state.storage.recent(),
            at_least_one(state.config.max_recent_apps as int),
        ),
    ensures
        state.launched(name, now).recent_apps == at_most(
            state.launched(name, now).storage.recent(),
            at_least_one(state.config.max_recent_apps as int),
        ),
{
    the_latest_launch_moves_to_the_front(state.storage, stamp(now), name);
    recent_lists_each_app_once(state.storage);
    lemma_front_of_part(
        state.storage.recent(),
        name,
        at_least_one(state.config.max_recent_apps as int),
    );
}

/// A launch keeps the counts of the launcher those of its tables, if it is not
/// older than what they count.
pub proof fn counts_stay_those_of_the_tables(
    state: State,
    name: Seq<char>,
    now: int,
    cutoff: Seq<char>,
)
    requires
        launches_of_name(state.popularity, name) < u32::MAX,
        !lex_less(stamp(now), cutoff),
        state.popularity == counts_since(state.storage.launches, cutoff),
    ensures
        state.launched(name, now).popularity == counts_since(
            state.launched(name, now).storage.launches,
            cutoff,
        ),
{
    let before = state.storage.launches;
    let after = state.launched(name, now).storage.launches;
    a_launch_raises_its_count(state.storage, stamp(now), name, cutoff);
    let count = count_since(before, name, cutoff);
    assert(launches_of_name(state.popularity, name) == shown_count(count));
    assert(state.launched(name, now).popularity =~= counts_since(after, cutoff));
}

/// A cursor that the launcher shows and hides changes once its interval, in
/// thousandths of a second, has passed since it last did, and not before.
pub proof fn the_cursor_changes_with_its_interval(state: State, passed: u64)
    requires
        state.cursor_last_toggle + passed <= u64::MAX,
        state.config.colors.cursor_blink_interval > 0,
    ensures
        ({
            let tick = (state.cursor_last_toggle + passed) as u64;
            let after = state.blinked(tick);
            let due = passed >= state.config.colors.cursor_blink_interval * 1_000_000;
            &&& after.cursor_visible == (state.cursor_visible != due)
            &&& after.cursor_last_toggle == if due {
                tick
            } else {
                state.cursor_last_toggle
            }
            &&& after == (State {
                cursor_visible: after.cursor_visible,
                cursor_last_toggle: after.cursor_last_toggle,
                ..state
            })
        }),
{
}

/// A launch puts its app before the other recent ones, which keep their order,
/// as far as the limit goes.
pub proof fn a_launch_keeps_the_order_of_others(state: State, name: Seq<char>, now: int, i: int)
    requires
        state.recent_apps.no_duplicates(),
        0 < i < state.launched(name, now).recent_apps.len(),
    ensures
        ({
            let recent = state.launched(name, now).recent_apps;
            let others = state.recent_apps;
            &&& recent[0] == name
            &&& forall|k: int|
                0 <= k < others.len() && others[k] != name && (forall|m: int|
                    0 <= m <= k ==> #[trigger] others[m] != name) && k + 1 < recent.len()
                    ==> recent[k + 1] == #[trigger] others[k]
            &&& forall|k: int|
                0 <= k < others.len() && others[k] != name && (exists|m: int|
                    0 <= m < k && #[trigger] others[m] == name) && k < recent.len() ==> recent[k]
                    == #[trigger] others[k]
        }),
{
    let others = state.recent_apps;
    let rest = without(others, name);
    let whole = seq![name] + rest;
    let recent = state.launched(name, now).recent_apps;
    assert(recent =~= at_most(whole, at_least_one(state.config.max_recent_apps as int)));
    if others.contains(name) {
        let at = choose|at: int| 0 <= at < others.len() && others[at] == name;
        lemma_without_one(others, at);
        assert(rest =~= others.take(at) + others.skip(at + 1));
        assert forall|k: int|
            0 <= k < others.len() && others[k] != name && (forall|m: int|
                0 <= m <= k ==> #[trigger] others[m] != name) && k + 1
                < recent.len() implies recent[k + 1] == #[trigger] others[k] by {
            assert(k < at) by {
                if at <= k {
                    assert(others[at] != name);
                }
            }
            assert(recent[k + 1] == whole[k + 1]);
            assert(whole[k + 1] == rest[k]);
        }
        assert forall|k: int|
            0 <= k < others.len() && others[k] != name && (exists|m: int|
                0 <= m < k && #[trigger] others[m] == name) && k
                < recent.len() implies recent[k] == #[trigger] others[k] by {
            let m = choose|m: int| 0 <= m < k && #[trigger] others[m] == name;
            assert(m == at);
            assert(recent[k] == whole[k]);
            assert(whole[k] == rest[k - 1]);
        }
    } else {
        assert forall|m: int| 0 <= m < others.len() implies others[m] != name by {
            assert(others.contains(others[m]));
        }
        lemma_without_none(others, name);
        assert forall|k: int|
            0 <= k < others.len() && others[k] != name && (forall|m: int|
                0 <= m <= k ==> #[trigger] others[m] != name) && k + 1
                < recent.len() implies recent[k + 1] == #[trigger] others[k] by {
            assert(recent[k + 1] == whole[k + 1]);
            assert(whole[k + 1] == rest[k]);
        }
    }
}

/// As long as there is room, a launch drops no recent app, and else as many are
/// kept as are asked for.
pub proof fn a_launch_drops_no_recent_app_too_many(
    state: State,
    name: Seq<char>,
    now: int,
    other: Seq<char>,
)
    requires
        state.recent_apps.contains(other),
    ensures
        ({
            let recent = state.launched(name, now).recent_apps;
            let limit = if state.config.max_recent_apps < 1 {
                1
            } else {
                state.config.max_recent_apps as int
            };
            &&& recent.len() <= limit
            &&& recent.len() < limit ==> recent.contains(other)
        }),
{
    let rest = without(state.recent_apps, name);
    let whole = seq![name] + rest;
    let recent = state.launched(name, now).recent_apps;
    lemma_without(state.recent_apps, name);
    if recent.len() < at_least_one(state.config.max_recent_apps as int) {
        assert(recent == whole);
        if other == name {
            assert(recent[0] == other);
        } else {
            assert(rest.contains(other));
            let k = choose|k: int| 0 <= k < rest.len() && rest[k] == other;
            assert(whole[k + 1] == other);
        }
    }
}

/// The single pane lists what its mode says, in the order of the lower-case
/// forms of the names, and the dual pane the installed apps, each with their
/// categories.
pub proof fn the_panes_list_what_their_mode_says(state: State, executables: Seq<Seq<char>>)
    ensures
        ({
            let entries = state.storage.entries(state.category_overrides);
            let single = state.in_single_pane(executables);
            let dual = state.in_dual_pane();
            &&& dual.apps == entries
            &&& dual.categories == category_list(entries)
            &&& state.single_pane_mode == SinglePaneMode::DesktopApps ==> single.apps == by_name(
                entries,
            ) && single.categories == category_list(entries)
            &&& state.single_pane_mode == SinglePaneMode::Dmenu ==> single.apps == by_name(
                single_pane_source(SinglePaneMode::Dmenu, executables, entries).1,
            ) && single.categories == seq!["CLI"@]
            &&& state.mode == Mode::SinglePane ==> state.toggled(executables) == dual
            &&& state.mode == Mode::DualPane ==> state.toggled(executables) == single
        }),
{
}

/// The cursor is drawn where the launcher shows it, and always where the
/// terminal lets it blink.
pub proof fn the_cursor_is_drawn_where_it_is_shown(state: State)
    ensures
        state.config.colors.cursor_blink_interval == 0 ==> state.shows_cursor(),
        state.config.colors.cursor_blink_interval > 0 ==> state.shows_cursor()
            == state.cursor_visible,
{
}

} // verus!
