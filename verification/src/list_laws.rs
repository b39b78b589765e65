//! What holds of the lists on the screen, whatever apps there are and whatever
//! is searched for.

use vstd::prelude::*;

use crate::app::{kept, Entry, Mode, Shelf, State};
use crate::app_laws::{increasing, lemma_all_positions, lemma_kept, lemma_top};
use crate::catalog::{all_positions, number_ranks, within};
use crate::events::{entries_named, first_named};
use crate::input::input_text;
use crate::keys::KeyEvent;
use crate::ranking::{lemma_outranks_irreflexive, outranks, ranked, ranking_is_a_stable_sort};
use crate::search::{begins_query, prefix_matches_rank_above_others, score};
use crate::text::{lex_less, lowercase};
use crate::text_laws::a_beginning_is_found_by_its_characters;

verus! {

/// The places from which positions are kept.
proof fn lemma_kept_places(among: Seq<int>, keep: spec_fn(int) -> bool) -> (places: Seq<int>)
    ensures
        places.len() == kept(among, keep).len(),
        increasing(places),
        within(places, among.len()),
        forall|k: int|
            0 <= k < places.len() ==> kept(among, keep)[k] == among[#[trigger] places[k]] && keep(
                among[places[k]],
            ),
        forall|a: int| 0 <= a < among.len() && keep(#[trigger] among[a]) ==> places.contains(a),
    decreases among.len(),
{
    if among.len() == 0 {
        Seq::empty()
    } else {
        let rest = among.drop_last();
        let before = lemma_kept_places(rest, keep);
        let last = among.len() - 1;
        if keep(among.last()) {
            let places = before.push(last);
            assert forall|i: int, j: int| 0 <= i < j < places.len() implies #[trigger] places[i]
                < #[trigger] places[j] by {
                assert(places[i] == before[i]);
                if j < before.len() {
                    assert(places[j] == before[j]);
                }
            }
            assert forall|k: int| 0 <= k < places.len() implies kept(among, keep)[k]
                == among[#[trigger] places[k]] && keep(among[places[k]]) by {
                if k < before.len() {
                    assert(before[k] == places[k]);
                    assert(rest[before[k]] == among[places[k]]);
                }
            }
            assert forall|a: int|
                0 <= a < among.len() && keep(#[trigger] among[a]) implies places.contains(a) by {
                if a < rest.len() {
                    assert(rest[a] == among[a]);
                    let k = choose|k: int| 0 <= k < before.len() && before[k] == a;
                    assert(places[k] == a);
                } else {
                    assert(places[before.len() as int] == a);
                }
            }
            places
        } else {
            assert forall|k: int| 0 <= k < before.len() implies kept(among, keep)[k]
                == among[#[trigger] before[k]] && keep(among[before[k]]) by {
                assert(rest[before[k]] == among[before[k]]);
            }
            assert forall|a: int|
                0 <= a < among.len() && keep(#[trigger] among[a]) implies before.contains(a) by {
                if a < rest.len() {
                    assert(rest[a] == among[a]);
                }
            }
            before
        }
    }
}

/// The places from which apps are listed by score: each place with a match once,
/// by score, and equal scores in the order of the places.
proof fn lemma_by_score(shelf: Shelf, among: Seq<int>, query: Seq<char>) -> (places: Seq<int>)
    ensures
        places.len() == shelf.by_score(among, query).len(),
        places.no_duplicates(),
        within(places, among.len()),
        forall|k: int|
            0 <= k < places.len() ==> shelf.by_score(among, query)[k] == among[#[trigger] places[k]]
                && score(
                shelf.popularity,
                shelf.config.popularity_weight,
                shelf.apps[among[places[k]]].name,
                query,
            ) is Some,
        forall|a: int|
            0 <= a < among.len() && score(
                shelf.popularity,
                shelf.config.popularity_weight,
                shelf.apps[#[trigger] among[a]].name,
                query,
            ) is Some ==> places.contains(a),
        forall|i: int, j: int|
            0 <= i < j < places.len() ==> {
                let first = score(
                    shelf.popularity,
                    shelf.config.popularity_weight,
                    shelf.apps[among[#[trigger] places[i]]].name,
                    query,
                )->0;
                let second = score(
                    shelf.popularity,
                    shelf.config.popularity_weight,
                    shelf.apps[among[#[trigger] places[j]]].name,
                    query,
                )->0;
                first > second || first == second && places[i] < places[j]
            },
{
    let keep = shelf.matches(query);
    let found = kept(among, keep);
    let from = lemma_kept_places(among, keep);
    let scores = shelf.scores(found, query);
    let ranks = number_ranks(scores);
    let order = ranked(ranks);
    ranking_is_a_stable_sort(ranks);
    let places = Seq::new(order.len(), |k: int| from[order[k]]);
    let out = shelf.by_score(among, query);
    assert forall|k: int| 0 <= k < places.len() implies out[k] == among[#[trigger] places[k]]
        && score(
        shelf.popularity,
        shelf.config.popularity_weight,
        shelf.apps[among[places[k]]].name,
        query,
    ) is Some by {
        assert(0 <= order[k] < found.len());
        assert(places[k] == from[order[k]]);
        assert(keep(among[from[order[k]]]));
        assert(out[k] == found[order[k]]);
    }
    assert forall|a: int|
        0 <= a < among.len() && score(
            shelf.popularity,
            shelf.config.popularity_weight,
            shelf.apps[#[trigger] among[a]].name,
            query,
        ) is Some implies places.contains(a) by {
        assert(keep(among[a]));
        let m = choose|m: int| 0 <= m < from.len() && from[m] == a;
        assert(order.contains(m));
        let k = choose|k: int| 0 <= k < order.len() && order[k] == m;
        assert(places[k] == a);
    }
    assert(within(places, among.len())) by {
        assert forall|k: int| 0 <= k < places.len() implies 0 <= #[trigger] places[k]
            < among.len() by {
            assert(0 <= order[k] < found.len());
            assert(places[k] == from[order[k]]);
        }
    }
    assert forall|i: int, j: int| 0 <= i < places.len() && 0 <= j < places.len() && i
        != j implies places[i] != places[j] by {
        assert(order[i] != order[j]);
        assert(0 <= order[i] < found.len() && 0 <= order[j] < found.len());
        if order[i] < order[j] {
            assert(from[order[i]] < from[order[j]]);
        } else {
            assert(from[order[j]] < from[order[i]]);
        }
    }
    assert forall|i: int, j: int| 0 <= i < j < places.len() implies {
        let first = score(
            shelf.popularity,
            shelf.config.popularity_weight,
            shelf.apps[among[#[trigger] places[i]]].name,
            query,
        )->0;
        let second = score(
            shelf.popularity,
            shelf.config.popularity_weight,
            shelf.apps[among[#[trigger] places[j]]].name,
            query,
        )->0;
        first > second || first == second && places[i] < places[j]
    } by {
        let a = order[i];
        let b = order[j];
        assert(0 <= a < found.len() && 0 <= b < found.len());
        assert(!outranks(ranks[b], ranks[a]));
        assert(outranks(ranks[a], ranks[b]) || a < b);
        assert(ranks[a].weight == scores[a] && ranks[b].weight == scores[b]);
        assert(scores[a] == shelf.score_of(found[a], query)->0);
        assert(scores[b] == shelf.score_of(found[b], query)->0);
        assert(found[a] == among[from[a]] && found[b] == among[from[b]]);
        assert(ranks[a].stamp =~= ranks[b].stamp);
        lemma_outranks_irreflexive(ranks[a]);
        if a < b {
            assert(from[a] < from[b]);
        }
        if scores[a] == scores[b] {
            assert(ranks[a] == ranks[b]);
        }
    }
    places
}

/// The single pane lists the apps that match the query, each once. An app with
/// a higher score stands before one with a lower score, and of two apps with
/// the same score the one that comes first in the list of all apps.
pub proof fn the_single_pane_lists_matches_by_score(state: State)
    requires
        state.mode == Mode::SinglePane,
        input_text(state.input).len() > 0,
    ensures
        state.listed() == state.visible(),
        state.listed().no_duplicates(),
        forall|i: int| #[trigger]
            state.listed().contains(i) <==> 0 <= i < state.apps.len() && score(
                state.popularity,
                state.config.popularity_weight,
                state.apps[i].name,
                input_text(state.input),
            ) is Some,
        forall|i: int, j: int|
            0 <= i < j < state.listed().len() ==> {
                let a = #[trigger] state.listed()[i];
                let b = #[trigger] state.listed()[j];
                let first = score(
                    state.popularity,
                    state.config.popularity_weight,
                    state.apps[a].name,
                    input_text(state.input),
                )->0;
                let second = score(
                    state.popularity,
                    state.config.popularity_weight,
                    state.apps[b].name,
                    input_text(state.input),
                )->0;
                first > second || first == second && a < b
            },
{
    let all = all_positions(state.apps.len());
    let places = lemma_by_score(state.shelf(), all, input_text(state.input));
    let listed = state.listed();
    assert(listed =~= places) by {
        assert forall|k: int| 0 <= k < places.len() implies listed[k] == places[k] by {
            assert(listed[k] == all[places[k]]);
        }
    }
    assert forall|i: int| #[trigger] listed.contains(i) <==> 0 <= i < state.apps.len() && score(
        state.popularity,
        state.config.popularity_weight,
        state.apps[i].name,
        input_text(state.input),
    ) is Some by {
        if 0 <= i < state.apps.len() {
            assert(all[i] == i);
        }
        if listed.contains(i) {
            let k = choose|k: int| 0 <= k < places.len() && places[k] == i;
            assert(all[places[k]] == i);
        }
    }
    assert forall|i: int, j: int| 0 <= i < j < listed.len() implies {
        let a = #[trigger] listed[i];
        let b = #[trigger] listed[j];
        let first = score(
            state.popularity,
            state.config.popularity_weight,
            state.apps[a].name,
            input_text(state.input),
        )->0;
        let second = score(
            state.popularity,
            state.config.popularity_weight,
            state.apps[b].name,
            input_text(state.input),
        )->0;
        first > second || first == second && a < b
    } by {
        assert(all[places[i]] == places[i]);
        assert(all[places[j]] == places[j]);
    }
}

/// The dual pane lists the apps of the chosen category that match the query,
/// each once. An app with a higher score stands before one with a lower score,
/// and of two apps with the same score the one that comes first in the list of
/// all apps. Without a query all apps match alike.
pub proof fn the_dual_pane_lists_matches_by_score(state: State)
    requires
        state.mode == Mode::DualPane,
        0 <= state.selected_category < state.categories.len(),
        state.categories[state.selected_category] != "Recent"@,
    ensures
        state.listed().no_duplicates(),
        forall|i: int| #[trigger]
            state.listed().contains(i) <==> {
                &&& 0 <= i < state.apps.len()
                &&& state.apps[i].category == state.categories[state.selected_category]
                &&& score(
                    state.popularity,
                    state.config.popularity_weight,
                    state.apps[i].name,
                    input_text(state.input),
                ) is Some
            },
        forall|i: int, j: int|
            0 <= i < j < state.listed().len() ==> {
                let a = #[trigger] state.listed()[i];
                let b = #[trigger] state.listed()[j];
                let first = score(
                    state.popularity,
                    state.config.popularity_weight,
                    state.apps[a].name,
                    input_text(state.input),
                )->0;
                let second = score(
                    state.popularity,
                    state.config.popularity_weight,
                    state.apps[b].name,
                    input_text(state.input),
                )->0;
                first > second || first == second && a < b
            },
{
    let query = input_text(state.input);
    let shelf = state.shelf();
    let category = state.categories[state.selected_category];
    let all = all_positions(state.apps.len());
    let keep = shelf.in_category(category);
    let members = kept(all, keep);
    let listed = state.listed();
    lemma_all_positions(state.apps.len());
    lemma_kept(all, keep);
    if query.len() == 0 {
        assert(listed == members);
    } else {
        let places = lemma_by_score(shelf, members, query);
        assert(listed == shelf.by_score(members, query));
        assert forall|i: int, j: int|
            0 <= i < listed.len() && 0 <= j < listed.len() && i != j implies listed[i]
            != listed[j] by {
            assert(listed[i] == members[places[i]] && listed[j] == members[places[j]]);
            if places[i] < places[j] {
                assert(members[places[i]] < members[places[j]]);
            } else {
                assert(members[places[j]] < members[places[i]]);
            }
        }
        assert forall|i: int| #[trigger] listed.contains(i) <==> {
            &&& 0 <= i < state.apps.len()
            &&& state.apps[i].category == category
            &&& score(
                state.popularity,
                state.config.popularity_weight,
                state.apps[i].name,
                query,
            ) is Some
        } by {
            if listed.contains(i) {
                let k = choose|k: int| 0 <= k < listed.len() && listed[k] == i;
                assert(members[places[k]] == i);
                assert(members.contains(i));
            }
            if 0 <= i < state.apps.len() && state.apps[i].category == category && score(
                state.popularity,
                state.config.popularity_weight,
                state.apps[i].name,
                query,
            ) is Some {
                assert(all.contains(i));
                assert(keep(i));
                assert(members.contains(i));
                let a = choose|a: int| 0 <= a < members.len() && members[a] == i;
                let k = choose|k: int| 0 <= k < places.len() && places[k] == a;
                assert(listed[k] == members[places[k]]);
            }
        }
        assert forall|i: int, j: int| 0 <= i < j < listed.len() implies {
            let a = #[trigger] listed[i];
            let b = #[trigger] listed[j];
            let first = score(
                state.popularity,
                state.config.popularity_weight,
                state.apps[a].name,
                query,
            )->0;
            let second = score(
                state.popularity,
                state.config.popularity_weight,
                state.apps[b].name,
                query,
            )->0;
            first > second || first == second && a < b
        } by {
            assert(listed[i] == members[places[i]] && listed[j] == members[places[j]]);
            if places[i] < places[j] {
                assert(members[places[i]] < members[places[j]]);
            }
        }
    }
}

/// The recent apps stand for the first app of each recent name.
proof fn lemma_entries_named(apps: Seq<Entry>, names: Seq<Seq<char>>) -> (places: Seq<int>)
    ensures
        places.len() == entries_named(apps, names).len(),
        increasing(places),
        within(places, names.len()),
        forall|k: int|
            0 <= k < places.len() ==> is_first_named(
                apps,
                names[#[trigger] places[k]],
                entries_named(apps, names)[k],
            ),
        forall|a: int, i: int|
            0 <= a < names.len() && #[trigger] is_first_named(apps, names[a], i)
                ==> places.contains(a),
    decreases names.len(),
{
    if names.len() == 0 {
        Seq::empty()
    } else {
        let rest = names.drop_last();
        let before = lemma_entries_named(apps, rest);
        let last = names.len() - 1;
        lemma_first_named(apps, names.last());
        let all = entries_named(apps, names);
        if first_named(apps, names.last()) is Some {
            let places = before.push(last);
            assert forall|i: int, j: int| 0 <= i < j < places.len() implies #[trigger] places[i]
                < #[trigger] places[j] by {
                assert(places[i] == before[i]);
                if j < before.len() {
                    assert(places[j] == before[j]);
                }
            }
            assert forall|k: int| 0 <= k < places.len() implies is_first_named(
                apps,
                names[#[trigger] places[k]],
                all[k],
            ) by {
                if k < before.len() {
                    assert(places[k] == before[k]);
                    assert(rest[before[k]] == names[places[k]]);
                    assert(all[k] == entries_named(apps, rest)[k]);
                }
            }
            assert forall|a: int, i: int|
                0 <= a < names.len() && #[trigger] is_first_named(
                    apps,
                    names[a],
                    i,
                ) implies places.contains(a) by {
                if a < last {
                    assert(rest[a] == names[a]);
                    assert(is_first_named(apps, rest[a], i));
                    let k = choose|k: int| 0 <= k < before.len() && before[k] == a;
                    assert(places[k] == a);
                } else {
                    assert(places[before.len() as int] == a);
                }
            }
            places
        } else {
            assert forall|k: int| 0 <= k < before.len() implies is_first_named(
                apps,
                names[#[trigger] before[k]],
                all[k],
            ) by {
                assert(rest[before[k]] == names[before[k]]);
            }
            assert forall|a: int, i: int|
                0 <= a < names.len() && #[trigger] is_first_named(
                    apps,
                    names[a],
                    i,
                ) implies before.contains(a) by {
                if a < last {
                    assert(rest[a] == names[a]);
                    assert(is_first_named(apps, rest[a], i));
                }
            }
            before
        }
    }
}

/// Whether an app is the first one with a name.
pub open spec fn is_first_named(apps: Seq<Entry>, name: Seq<char>, i: int) -> bool {
    &&& 0 <= i < apps.len()
    &&& apps[i].name == name
    &&& forall|j: int| 0 <= j < i ==> (#[trigger] apps[j]).name != name
}

/// The first app with a name is the one that is found.
proof fn lemma_first_named(apps: Seq<Entry>, name: Seq<char>)
    ensures
        first_named(apps, name) is Some ==> is_first_named(apps, name, first_named(apps, name)->0),
        first_named(apps, name) is None ==> forall|i: int|
            0 <= i < apps.len() ==> (#[trigger] apps[i]).name != name,
    decreases apps.len(),
{
    if apps.len() > 0 {
        let rest = apps.drop_last();
        lemma_first_named(rest, name);
        match first_named(rest, name) {
            Some(i) => {
                assert(rest[i] == apps[i]);
                assert forall|j: int| 0 <= j < i implies (#[trigger] apps[j]).name != name by {
                    assert(rest[j] == apps[j]);
                }
            },
            None => {
                assert forall|j: int| 0 <= j < rest.len() implies (#[trigger] apps[j]).name
                    != name by {
                    assert(rest[j] == apps[j]);
                }
            },
        }
    }
}

/// Among the recent apps, the dual pane lists the first app of each recent name
/// that matches the query, and no others. An app with a higher score stands
/// before one with a lower score, and of two apps with the same score the one
/// that was used later. Without a query all apps match alike.
pub proof fn recent_apps_are_listed_by_score(state: State)
    requires
        state.mode == Mode::DualPane,
        0 <= state.selected_category < state.categories.len(),
        state.categories[state.selected_category] == "Recent"@,
    ensures
        forall|i: int| #[trigger]
            state.listed().contains(i) <==> score(
                state.popularity,
                state.config.popularity_weight,
                state.apps[i].name,
                input_text(state.input),
            ) is Some && exists|a: int|
                0 <= a < state.recent_apps.len() && is_first_named(
                    state.apps,
                    #[trigger] state.recent_apps[a],
                    i,
                ),
        forall|i: int, j: int|
            0 <= i < j < state.listed().len() ==> {
                let a = #[trigger] state.listed()[i];
                let b = #[trigger] state.listed()[j];
                let first = score(
                    state.popularity,
                    state.config.popularity_weight,
                    state.apps[a].name,
                    input_text(state.input),
                )->0;
                let second = score(
                    state.popularity,
                    state.config.popularity_weight,
                    state.apps[b].name,
                    input_text(state.input),
                )->0;
                first > second || first == second && exists|x: int, y: int|
                    0 <= x < y < state.recent_apps.len() && #[trigger] state.recent_apps[x]
                        == state.apps[a].name && #[trigger] state.recent_apps[y]
                        == state.apps[b].name
            },
{
    let query = input_text(state.input);
    let shelf = state.shelf();
    let recents = shelf.recents();
    let from = lemma_entries_named(state.apps, state.recent_apps);
    let listed = state.listed();
    let places = if query.len() == 0 {
        assert(listed == recents);
        all_positions(recents.len())
    } else {
        assert(listed == shelf.by_score(recents, query));
        lemma_by_score(shelf, recents, query)
    };
    lemma_all_positions(recents.len());
    assert forall|k: int| 0 <= k < listed.len() implies 0 <= places[k] < recents.len()
        && #[trigger] listed[k] == recents[places[k]] by {}
    assert forall|i: int| #[trigger] listed.contains(i) <==> score(
        state.popularity,
        state.config.popularity_weight,
        state.apps[i].name,
        query,
    ) is Some && exists|a: int|
        0 <= a < state.recent_apps.len() && is_first_named(
            state.apps,
            #[trigger] state.recent_apps[a],
            i,
        ) by {
        if listed.contains(i) {
            let k = choose|k: int| 0 <= k < listed.len() && listed[k] == i;
            let a = from[places[k]];
            assert(recents[places[k]] == i);
            assert(is_first_named(state.apps, state.recent_apps[a], i));
        }
        if score(
            state.popularity,
            state.config.popularity_weight,
            state.apps[i].name,
            query,
        ) is Some && (exists|a: int|
            0 <= a < state.recent_apps.len() && is_first_named(
                state.apps,
                #[trigger] state.recent_apps[a],
                i,
            )) {
            let a = choose|a: int|
                0 <= a < state.recent_apps.len() && is_first_named(
                    state.apps,
                    #[trigger] state.recent_apps[a],
                    i,
                );
            let m = choose|m: int| 0 <= m < from.len() && from[m] == a;
            assert(is_first_named(state.apps, state.recent_apps[from[m]], recents[m]));
            let found = recents[m];
            assert(found == i) by {
                if found < i {
                    assert(state.apps[found].name != state.recent_apps[a]);
                } else if i < found {
                    assert(state.apps[i].name != state.recent_apps[a]);
                }
            }
            assert(places.contains(m));
            let k = choose|k: int| 0 <= k < places.len() && places[k] == m;
            assert(listed[k] == i);
        }
    }
    assert forall|i: int, j: int| 0 <= i < j < listed.len() implies {
        let a = #[trigger] listed[i];
        let b = #[trigger] listed[j];
        let first = score(
            state.popularity,
            state.config.popularity_weight,
            state.apps[a].name,
            query,
        )->0;
        let second = score(
            state.popularity,
            state.config.popularity_weight,
            state.apps[b].name,
            query,
        )->0;
        first > second || first == second && exists|x: int, y: int|
            0 <= x < y < state.recent_apps.len() && #[trigger] state.recent_apps[x]
                == state.apps[a].name && #[trigger] state.recent_apps[y] == state.apps[b].name
    } by {
        assert(listed[i] == recents[places[i]] && listed[j] == recents[places[j]]);
        if places[i] < places[j] {
            let x = from[places[i]];
            let y = from[places[j]];
            assert(x < y);
            assert(is_first_named(state.apps, state.recent_apps[x], listed[i]));
            assert(is_first_named(state.apps, state.recent_apps[y], listed[j]));
            assert(state.recent_apps[x] == state.apps[listed[i]].name);
            assert(state.recent_apps[y] == state.apps[listed[j]].name);
        }
    }
}

/// In a search, apps whose names begin with the query, character by character
/// and whatever the case, stand before all others, in the single pane and in
/// every category of the dual pane.
pub proof fn names_that_begin_with_the_query_stand_first(state: State, i: int, j: int)
    requires
        input_text(state.input).len() > 0,
        0 <= i < j < state.listed().len(),
        ({
            let n = lowercase(state.apps[state.listed()[j]].name);
            let q = lowercase(input_text(state.input));
            q.len() <= n.len() && forall|k: int| 0 <= k < q.len() ==> n[k] == #[trigger] q[k]
        }),
    ensures
        ({
            let n = lowercase(state.apps[state.listed()[i]].name);
            let q = lowercase(input_text(state.input));
            q.len() <= n.len() && forall|k: int| 0 <= k < q.len() ==> n[k] == #[trigger] q[k]
        }),
{
    let query = input_text(state.input);
    let first = state.apps[state.listed()[i]].name;
    let second = state.apps[state.listed()[j]].name;
    a_beginning_is_found_by_its_characters(lowercase(first), lowercase(query));
    a_beginning_is_found_by_its_characters(lowercase(second), lowercase(query));
    match state.mode {
        Mode::SinglePane => {
            the_single_pane_lists_matches_by_score(state);
        },
        Mode::DualPane => {
            assert(state.selected_category < state.categories.len());
            let shelf = state.shelf();
            let members = shelf.members(state.categories[state.selected_category]);
            let places = lemma_by_score(shelf, members, query);
            assert(state.listed() == shelf.by_score(members, query));
            assert(state.listed()[i] == members[places[i]]);
            assert(state.listed()[j] == members[places[j]]);
        },
    }
    if !begins_query(first, query) {
        prefix_matches_rank_above_others(
            state.popularity,
            state.config.popularity_weight,
            second,
            first,
            query,
        );
        if state.mode == Mode::SinglePane {
            assert(state.listed().contains(state.listed()[i]));
            assert(state.listed().contains(state.listed()[j]));
        }
    }
}

/// Whether an app belongs to a category: it has it, or it is the first app of a
/// recent name where the category is that of the recent apps.
pub open spec fn belongs(state: State, i: int, category: Seq<char>) -> bool {
    if category == "Recent"@ {
        exists|a: int|
            0 <= a < state.recent_apps.len() && is_first_named(
                state.apps,
                #[trigger] state.recent_apps[a],
                i,
            )
    } else {
        0 <= i < state.apps.len() && state.apps[i].category == category
    }
}

/// The apps of a category are those that belong to it.
pub proof fn lemma_members(state: State, category: Seq<char>)
    ensures
        forall|i: int| #[trigger]
            state.shelf().members(category).contains(i) <==> belongs(state, i, category),
{
    let members = state.shelf().members(category);
    let all = all_positions(state.apps.len());
    lemma_all_positions(state.apps.len());
    lemma_kept(all, state.shelf().in_category(category));
    let from = lemma_entries_named(state.apps, state.recent_apps);
    if category == "Recent"@ {
        assert forall|i: int| #[trigger] members.contains(i) <==> belongs(
            state,
            i,
            category,
        ) by {
            if members.contains(i) {
                let k = choose|k: int| 0 <= k < members.len() && members[k] == i;
                assert(is_first_named(state.apps, state.recent_apps[from[k]], i));
            }
            if belongs(state, i, category) {
                let a = choose|a: int|
                    0 <= a < state.recent_apps.len() && is_first_named(
                        state.apps,
                        #[trigger] state.recent_apps[a],
                        i,
                    );
                let m = choose|m: int| 0 <= m < from.len() && from[m] == a;
                assert(is_first_named(state.apps, state.recent_apps[from[m]], members[m]));
                let found = members[m];
                if found < i {
                    assert(state.apps[found].name != state.recent_apps[a]);
                } else if i < found {
                    assert(state.apps[i].name != state.recent_apps[a]);
                }
                assert(members[m] == i);
            }
        }
    } else {
        assert forall|i: int| #[trigger] members.contains(i) <==> belongs(
            state,
            i,
            category,
        ) by {
            assert(all.contains(i) <==> 0 <= i < state.apps.len());
        }
    }
}

/// Without a query all categories are listed, and else those with an app that
/// matches the query, whatever its case; each once and in their order.
pub proof fn categories_with_a_match_are_listed(state: State)
    ensures
        increasing(state.listed_categories()),
        forall|c: int| #[trigger]
            state.listed_categories().contains(c) <==> 0 <= c < state.categories.len() && (
            input_text(state.input).len() == 0 || exists|i: int| #[trigger]
                belongs(state, i, state.categories[c]) && score(
                    state.popularity,
                    state.config.popularity_weight,
                    state.apps[i].name,
                    lowercase(input_text(state.input)),
                ) is Some),
{
    let query = input_text(state.input);
    let shelf = state.shelf();
    let all = all_positions(state.categories.len());
    let keep = shelf.has_match(lowercase(query));
    let listed = state.listed_categories();
    lemma_all_positions(state.categories.len());
    lemma_kept(all, keep);
    if query.len() > 0 {
        assert forall|c: int| 0 <= c < state.categories.len() implies (#[trigger] keep(c)
            <==> exists|i: int| #[trigger]
            belongs(state, i, state.categories[c]) && score(
                state.popularity,
                state.config.popularity_weight,
                state.apps[i].name,
                lowercase(query),
            ) is Some) by {
            let members = shelf.members(state.categories[c]);
            let matches = shelf.matches(lowercase(query));
            let found = kept(members, matches);
            lemma_members(state, state.categories[c]);
            lemma_kept(members, matches);
            if found.len() > 0 {
                let i = found[0];
                assert(found.contains(i));
                assert(members.contains(i) && matches(i));
                assert(belongs(state, i, state.categories[c]));
            }
            if exists|i: int| #[trigger]
                belongs(state, i, state.categories[c]) && score(
                    state.popularity,
                    state.config.popularity_weight,
                    state.apps[i].name,
                    lowercase(query),
                ) is Some {
                let i = choose|i: int| #[trigger]
                    belongs(state, i, state.categories[c]) && score(
                        state.popularity,
                        state.config.popularity_weight,
                        state.apps[i].name,
                        lowercase(query),
                    ) is Some;
                assert(members.contains(i));
                assert(matches(i));
                assert(found.contains(i));
            }
        }
        assert forall|c: int| #[trigger] listed.contains(c) <==> 0 <= c < state.categories.len()
            && (exists|i: int| #[trigger]
            belongs(state, i, state.categories[c]) && score(
                state.popularity,
                state.config.popularity_weight,
                state.apps[i].name,
                lowercase(query),
            ) is Some) by {
            assert(all.contains(c) <==> 0 <= c < state.categories.len());
            if 0 <= c < state.categories.len() {
                assert(keep(c) <==> listed.contains(c));
            }
        }
    }
}

/// The enter key launches the app in the chosen row of the list and quits, and
/// does neither where the list has no such row.
pub proof fn enter_launches_the_chosen_row(
    state: State,
    key: KeyEvent,
    executables: Seq<Seq<char>>,
    tick: u64,
)
    requires
        key.code is Enter,
        0 <= state.selected_app,
    ensures
        state.selected_app < state.listed().len() ==> {
            let after = state.after_key(key, executables, tick);
            &&& after.1
            &&& after.0.should_quit
            &&& after.0.app_to_launch == Some(
                state.apps[state.listed()[state.selected_app]].exec_line,
            )
        },
        state.selected_app >= state.listed().len() ==> {
            let after = state.after_key(key, executables, tick);
            &&& !after.1
            &&& after.0.should_quit == state.should_quit
            &&& after.0.app_to_launch == state.app_to_launch
        },
{
}

/// Without a query the single pane lists the apps in their order. Where it is
/// asked for and apps have been launched, those that were launched most often
/// come first, as many as are asked for and at least one: of two apps in those
/// first rows, or one there and another that was launched, the one behind was
/// not launched more often, and with as many launches its name in lower case
/// does not come first.
pub proof fn frequent_apps_fill_the_first_rows(state: State)
    requires
        input_text(state.input).len() == 0,
    ensures
        !state.config.recent_first || state.popularity == Map::<Seq<char>, u32>::empty()
            ==> state.visible() == Seq::new(state.apps.len(), |i: int| i),
        state.config.recent_first && state.popularity != Map::<Seq<char>, u32>::empty() ==> {
            let rows = state.visible();
            let first_rows = if state.config.top_recent_count < 1 {
                1
            } else {
                state.config.top_recent_count as int
            };
            &&& forall|i: int, j: int|
                0 <= i < j < rows.len() && i < first_rows && state.popularity.contains_key(
                    state.apps[#[trigger] rows[j]].name,
                ) ==> {
                    let a = state.apps[#[trigger] rows[i]].name;
                    let b = state.apps[rows[j]].name;
                    &&& state.popularity.contains_key(a)
                    &&& state.popularity[a] > state.popularity[b] || state.popularity[a]
                        == state.popularity[b] && !lex_less(lowercase(b), lowercase(a))
                }
            &&& forall|i: int, j: int|
                0 <= i < j < rows.len() && (i >= first_rows || !state.popularity.contains_key(
                    state.apps[#[trigger] rows[i]].name,
                )) ==> rows[i] < #[trigger] rows[j]
        },
{
    let shelf = state.shelf();
    let all = all_positions(state.apps.len());
    assert(all =~= Seq::new(state.apps.len(), |i: int| i));
    if state.config.recent_first && state.popularity != Map::<Seq<char>, u32>::empty() {
        lemma_top(shelf);
        let top = shelf.top();
        let sorted = shelf.by_launches();
        let names = shelf.names(top);
        let keep = shelf.named_otherwise(names);
        let rest = kept(all, keep);
        let rows = state.visible();
        let first_rows = if state.config.top_recent_count < 1 {
            1
        } else {
            state.config.top_recent_count as int
        };
        lemma_all_positions(state.apps.len());
        lemma_kept(all, keep);
        assert(rows == top + rest);
        let found = kept(all, shelf.has_launches());
        let ranks = shelf.launch_ranks(found);
        let order = ranked(ranks);
        lemma_kept(all, shelf.has_launches());
        ranking_is_a_stable_sort(ranks);
        assert forall|i: int, j: int|
            0 <= i < j < rows.len() && i < first_rows && state.popularity.contains_key(
                state.apps[#[trigger] rows[j]].name,
            ) implies {
            let a = state.apps[#[trigger] rows[i]].name;
            let b = state.apps[rows[j]].name;
            &&& state.popularity.contains_key(a)
            &&& state.popularity[a] > state.popularity[b] || state.popularity[a]
                == state.popularity[b] && !lex_less(lowercase(b), lowercase(a))
        } by {
            assert(rows[j] == if j < top.len() {
                top[j]
            } else {
                rest[j - top.len()]
            });
            if j >= top.len() {
                assert(rest.contains(rest[j - top.len()]));
                assert(all.contains(rows[j]));
            } else {
                assert(sorted.contains(sorted[j]));
            }
            assert(sorted.contains(rows[j]));
            let m = choose|m: int| 0 <= m < sorted.len() && sorted[m] == rows[j];
            if i >= top.len() {
                assert(top.len() == sorted.len());
                assert(top[m] == rows[j]);
                assert(names[m] == state.apps[rows[j]].name);
                assert(names.contains(state.apps[rows[j]].name));
                assert(!keep(rows[j]));
                assert(false);
            }
            assert(rows[i] == sorted[i]);
            if m <= i {
                assert(m < top.len());
                assert(top[m] == rows[j]);
                assert(names[m] == state.apps[rows[j]].name);
                if j < top.len() {
                    assert(sorted[j] == sorted[m]);
                    assert(j == m);
                } else {
                    assert(names.contains(state.apps[rows[j]].name));
                    assert(!keep(rows[j]));
                }
                assert(false);
            }
            assert(sorted.contains(sorted[i]));
            assert(sorted[i] == found[order[i]] && sorted[m] == found[order[m]]);
            assert(!outranks(ranks[order[m]], ranks[order[i]]));
            assert(ranks[order[i]] == shelf.launch_rank(sorted[i]));
            assert(ranks[order[m]] == shelf.launch_rank(sorted[m]));
        }
        assert forall|i: int, j: int|
            0 <= i < j < rows.len() && (i >= first_rows || !state.popularity.contains_key(
                state.apps[#[trigger] rows[i]].name,
            )) implies rows[i] < #[trigger] rows[j] by {
            if i < top.len() {
                assert(rows[i] == sorted[i]);
                assert(sorted.contains(sorted[i]));
                assert(false);
            }
            assert(rows[i] == rest[i - top.len()] && rows[j] == rest[j - top.len()]);
        }
    }
}

} // verus!
