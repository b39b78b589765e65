//! The launcher's state.

use tui_input::Input;
use vstd::prelude::*;

use crate::catalog::{
    all_positions, by_name, category_list, load_desktop_apps, load_for_mode, number_ranks, picked,
    single_pane_source, within,
};
use crate::clock::{in_calendar, stamp, DAY};
use crate::config::BstlConfig;
use crate::input::{fresh_input, input_text, new_input, value};
use crate::keys::Rect;
use crate::menu::menu_names;
use crate::ranking::{positions, rank, ranked, ranking_is_a_stable_sort, ranks_of, Rank, RankKey};
use crate::search::{
    begins_query, bonus, can_score, has_upper, is_scorable, launches_of_name, match_score,
    most_added, most_earned, score, score_in, skim_score, threaded, PREFIX_SCORE,
};
use crate::storage::{at_most, counts_since, entries_of, Storage, Tables};
use crate::table::TextMap;
use crate::text::{
    chars_of, contains, holds, lemma_texts_push, lowercase, occurs, same_text, texts, to_lowercase,
    without,
};

verus! {

/// The part of the screen that the keys act on.
#[derive(Debug, Clone, Copy, PartialEq, Eq, Structural)]
pub enum Focus {
    Search,
    Categories,
    Apps,
}

/// One list, or categories beside their apps.
#[derive(Debug, Clone, Copy, PartialEq, Eq, Structural)]
pub enum Mode {
    SinglePane,
    DualPane,
}

/// What the single pane lists.
#[derive(Debug, Clone, Copy, PartialEq, Eq, Structural)]
pub enum SinglePaneMode {
    /// The executables of a directory.
    Dmenu,
    /// The installed desktop apps.
    DesktopApps,
}

/// One entry of the launcher.
#[derive(Debug)]
pub struct AppEntry {
    pub name: String,
    pub category: String,
    pub exec_line: String,
    pub terminal: bool,
    pub comment: String,
}

/// What an entry says.
#[verifier::ext_equal]
pub struct Entry {
    pub name: Seq<char>,
    pub category: Seq<char>,
    pub exec_line: Seq<char>,
    pub terminal: bool,
    pub comment: Seq<char>,
}

impl View for AppEntry {
    type V = Entry;

    open spec fn view(&self) -> Entry {
        Entry {
            name: self.name@,
            category: self.category@,
            exec_line: self.exec_line@,
            terminal: self.terminal,
            comment: self.comment@,
        }
    }
}

impl Clone for AppEntry {
    fn clone(&self) -> (r: Self)
        ensures
            r == *self,
    {
        AppEntry {
            name: self.name.clone(),
            category: self.category.clone(),
            exec_line: self.exec_line.clone(),
            terminal: self.terminal,
            comment: self.comment.clone(),
        }
    }
}

impl Entry {
    /// Whether the entry looks like one that runs in a terminal.
    pub open spec fn wants_terminal(self) -> bool {
        ||| self.category == "CLI"@
        ||| occurs(self.exec_line, "bash"@)
        ||| occurs(self.exec_line, "sh "@)
        ||| occurs(self.exec_line, "python"@)
        ||| occurs(self.exec_line, "cargo"@)
        ||| occurs(self.exec_line, "make"@)
        ||| occurs(self.exec_line, "npm"@)
    }
}

impl AppEntry {
    /// Whether the entry looks like one that runs in a terminal.
    pub fn needs_terminal(&self) -> (r: bool)
        ensures
            r == self@.wants_terminal(),
    {
        let line = self.exec_line.as_str();
        same_text(self.category.as_str(), "CLI") || contains(line, "bash") || contains(line, "sh ")
            || contains(line, "python") || contains(line, "cargo") || contains(line, "make")
            || contains(line, "npm")
    }
}

/// The launcher.
#[derive(Debug)]
pub struct App {
    pub mode: Mode,
    pub single_pane_mode: SinglePaneMode,
    pub should_quit: bool,
    pub input: Input,
    pub cursor_visible: bool,
    /// When the cursor was last shown or hidden, in nanoseconds.
    pub cursor_last_toggle: u64,
    pub categories: Vec<String>,
    pub apps: Vec<AppEntry>,
    pub recent_apps: Vec<String>,
    pub selected_category: usize,
    pub selected_app: usize,
    pub focus: Focus,
    pub app_to_launch: Option<String>,
    pub config: BstlConfig,
    pub popularity: TextMap<u32>,
    pub storage: Storage,
    pub category_overrides: TextMap<String>,
    /// The first row of the list of apps that is on the screen.
    pub apps_offset: usize,
    /// The first row of the list of categories that is on the screen.
    pub categories_offset: usize,
    pub apps_rect: Option<Rect>,
    pub categories_rect: Option<Rect>,
    pub search_rect: Option<Rect>,
}

/// What the launcher holds.
#[verifier::ext_equal]
pub struct State {
    pub mode: Mode,
    pub single_pane_mode: SinglePaneMode,
    pub should_quit: bool,
    pub input: Input,
    pub cursor_visible: bool,
    pub cursor_last_toggle: u64,
    pub categories: Seq<Seq<char>>,
    pub apps: Seq<Entry>,
    pub recent_apps: Seq<Seq<char>>,
    pub selected_category: int,
    pub selected_app: int,
    pub focus: Focus,
    pub app_to_launch: Option<Seq<char>>,
    pub config: BstlConfig,
    pub popularity: Map<Seq<char>, u32>,
    pub storage: Tables,
    pub category_overrides: Map<Seq<char>, Seq<char>>,
    pub apps_offset: int,
    pub categories_offset: int,
    pub apps_rect: Option<Rect>,
    pub categories_rect: Option<Rect>,
    pub search_rect: Option<Rect>,
}

impl View for App {
    type V = State;

    open spec fn view(&self) -> State {
        State {
            mode: self.mode,
            single_pane_mode: self.single_pane_mode,
            should_quit: self.should_quit,
            input: self.input,
            cursor_visible: self.cursor_visible,
            cursor_last_toggle: self.cursor_last_toggle,
            categories: texts(self.categories@),
            apps: entries_of(self.apps@),
            recent_apps: texts(self.recent_apps@),
            selected_category: self.selected_category as int,
            selected_app: self.selected_app as int,
            focus: self.focus,
            app_to_launch: match self.app_to_launch {
                Some(line) => Some(line@),
                None => None,
            },
            config: self.config,
            popularity: self.popularity@,
            storage: self.storage@,
            category_overrides: menu_names(self.category_overrides@),
            apps_offset: self.apps_offset as int,
            categories_offset: self.categories_offset as int,
            apps_rect: self.apps_rect,
            categories_rect: self.categories_rect,
            search_rect: self.search_rect,
        }
    }
}

/// Those of some positions that are kept.
pub open spec fn kept(among: Seq<int>, keep: spec_fn(int) -> bool) -> Seq<int>
    decreases among.len(),
{
    if among.len() == 0 {
        Seq::empty()
    } else {
        let before = kept(among.drop_last(), keep);
        if keep(among.last()) {
            before.push(among.last())
        } else {
            before
        }
    }
}

/// The greater of a number and 1.
pub open spec fn at_least_one(n: int) -> int {
    if n < 1 {
        1
    } else {
        n
    }
}

/// What the launcher lists from.
#[verifier::ext_equal]
pub struct Shelf {
    pub apps: Seq<Entry>,
    pub categories: Seq<Seq<char>>,
    pub recent_apps: Seq<Seq<char>>,
    pub popularity: Map<Seq<char>, u32>,
    pub config: BstlConfig,
}

impl Shelf {
    /// The score of an app for a query.
    pub open spec fn score_of(self, app: int, query: Seq<char>) -> Option<int> {
        score(self.popularity, self.config.popularity_weight, self.apps[app].name, query)
    }

    /// Whether the scores of all apps for a query can be computed.
    pub open spec fn can_search(self, query: Seq<char>) -> bool {
        forall|i: int|
            0 <= i < self.apps.len() ==> can_score(
                self.popularity,
                self.config.popularity_weight,
                (#[trigger] self.apps[i]).name,
                query,
            )
    }

    /// Whether the score of an app for a query can be computed.
    pub open spec fn can_score_app(self, app: int, query: Seq<char>) -> bool {
        can_score(
            self.popularity,
            self.config.popularity_weight,
            self.apps[app].name,
            query,
        )
    }

    /// Whether the scores of some apps for a query can be computed.
    pub open spec fn can_rank(self, among: Seq<int>, query: Seq<char>) -> bool {
        forall|k: int| 0 <= k < among.len() ==> self.can_score_app(#[trigger] among[k], query)
    }

    /// Which apps match a query.
    pub open spec fn matches(self, query: Seq<char>) -> spec_fn(int) -> bool {
        |i: int| self.score_of(i, query) is Some
    }

    /// The scores of some apps that match a query.
    pub open spec fn scores(self, among: Seq<int>, query: Seq<char>) -> Seq<int> {
        among.map_values(|i: int| self.score_of(i, query)->0)
    }

    /// Those of some apps that match a query, the best match first.
    pub open spec fn by_score(self, among: Seq<int>, query: Seq<char>) -> Seq<int> {
        let found = kept(among, self.matches(query));
        picked(found, ranked(number_ranks(self.scores(found, query))))
    }

    /// Which apps have been launched.
    pub open spec fn has_launches(self) -> spec_fn(int) -> bool {
        |i: int| self.popularity.contains_key(self.apps[i].name)
    }

    /// The rank of an app by its launches, then by its name in lower case.
    pub open spec fn launch_rank(self, app: int) -> Rank {
        Rank {
            weight: launches_of_name(self.popularity, self.apps[app].name),
            stamp: Seq::empty(),
            text: lowercase(self.apps[app].name),
        }
    }

    /// The ranks of some apps by their launches.
    pub open spec fn launch_ranks(self, among: Seq<int>) -> Seq<Rank> {
        among.map_values(|i: int| self.launch_rank(i))
    }

    /// The apps that have been launched, the one launched most often first.
    pub open spec fn by_launches(self) -> Seq<int> {
        let launched = kept(all_positions(self.apps.len()), self.has_launches());
        picked(launched, ranked(self.launch_ranks(launched)))
    }

    /// The apps that are launched most often.
    pub open spec fn top(self) -> Seq<int> {
        at_most(self.by_launches(), at_least_one(self.config.top_recent_count as int))
    }

    /// The names of some apps.
    pub open spec fn names(self, apps: Seq<int>) -> Seq<Seq<char>> {
        apps.map_values(|i: int| self.apps[i].name)
    }

    /// Which apps have another name than some.
    pub open spec fn named_otherwise(self, names: Seq<Seq<char>>) -> spec_fn(int) -> bool {
        |i: int| !names.contains(self.apps[i].name)
    }

    /// The apps that are launched most often, and then all others.
    pub open spec fn frequent_first(self) -> Seq<int> {
        self.top() + kept(
            all_positions(self.apps.len()),
            self.named_otherwise(self.names(self.top())),
        )
    }

    /// The apps without a query: all of them, where it is asked for with those
    /// first that are launched most often.
    pub open spec fn default_view(self) -> Seq<int> {
        if self.config.recent_first && self.popularity != Map::<Seq<char>, u32>::empty() {
            self.frequent_first()
        } else {
            all_positions(self.apps.len())
        }
    }

    /// The apps that the single pane shows.
    pub open spec fn visible(self, query: Seq<char>) -> Seq<int> {
        if query.len() == 0 {
            self.default_view()
        } else {
            self.by_score(all_positions(self.apps.len()), query)
        }
    }
}

impl State {
    /// What the launcher lists from.
    pub open spec fn shelf(self) -> Shelf {
        Shelf {
            apps: self.apps,
            categories: self.categories,
            recent_apps: self.recent_apps,
            popularity: self.popularity,
            config: self.config,
        }
    }

    /// The search query.
    pub open spec fn query(self) -> Seq<char> {
        input_text(self.input)
    }

    /// Whether the scores of all apps for a query can be computed.
    pub open spec fn can_search(self, query: Seq<char>) -> bool {
        self.shelf().can_search(query)
    }

    /// The apps that the single pane shows.
    pub open spec fn visible(self) -> Seq<int> {
        self.shelf().visible(self.query())
    }
}

/// Lists of positions grow as what they say does.
pub proof fn lemma_positions_push(s: Seq<usize>, i: usize)
    ensures
        positions(s.push(i)) == positions(s).push(i as int),
{
    assert(positions(s.push(i)) =~= positions(s).push(i as int));
}

/// Kept positions lie where the positions that they are kept from lie.
pub proof fn lemma_kept_within(among: Seq<int>, keep: spec_fn(int) -> bool, length: nat)
    requires
        within(among, length),
    ensures
        within(kept(among, keep), length),
    decreases among.len(),
{
    if among.len() > 0 {
        let rest = among.drop_last();
        assert(within(rest, length)) by {
            assert forall|i: int| 0 <= i < rest.len() implies 0 <= #[trigger] rest[i] < length by {
                assert(rest[i] == among[i]);
            }
        }
        lemma_kept_within(rest, keep, length);
        assert(0 <= among[among.len() - 1] < length);
        let before = kept(rest, keep);
        let all = kept(among, keep);
        assert forall|i: int| 0 <= i < all.len() implies 0 <= #[trigger] all[i] < length by {
            if i < before.len() {
                assert(all[i] == before[i]);
            }
        }
    }
}

/// Positions that are picked by a ranking lie where they lay before.
pub proof fn lemma_picked_within(found: Seq<int>, ranks: Seq<Rank>, length: nat)
    requires
        within(found, length),
        ranks.len() == found.len(),
    ensures
        within(picked(found, ranked(ranks)), length),
        within(ranked(ranks), found.len()),
        picked(found, ranked(ranks)).len() == found.len(),
{
    ranking_is_a_stable_sort(ranks);
    let order = ranked(ranks);
    let out = picked(found, order);
    assert forall|i: int| 0 <= i < out.len() implies 0 <= #[trigger] out[i] < length by {
        assert(0 <= order[i] < found.len());
        assert(out[i] == found[order[i]]);
    }
}

/// The positions at some places of a list of positions.
fn pick_positions(found: &Vec<usize>, order: &Vec<usize>) -> (r: Vec<usize>)
    requires
        within(positions(order@), found@.len()),
    ensures
        positions(r@) == picked(positions(found@), positions(order@)),
{
    let mut r: Vec<usize> = Vec::new();
    let ghost places = positions(order@);
    let ghost target = picked(positions(found@), places);
    assert(positions(r@) =~= target.take(0));
    for k in 0..order.len()
        invariant
            places == positions(order@),
            within(places, found@.len()),
            target == picked(positions(found@), places),
            positions(r@) == target.take(k as int),
    {
        assert(places[k as int] == order@[k as int]);
        let i = found[order[k]];
        proof {
            lemma_positions_push(r@, i);
            assert(target.take(k + 1) =~= target.take(k as int).push(i as int));
        }
        r.push(i);
    }
    assert(target.take(target.len() as int) == target);
    r
}

/// The positions below a number.
fn positions_below(length: usize) -> (r: Vec<usize>)
    ensures
        positions(r@) == all_positions(length as nat),
{
    let mut r: Vec<usize> = Vec::new();
    assert(positions(r@) =~= all_positions(0));
    for i in 0..length
        invariant
            positions(r@) == all_positions(i as nat),
    {
        proof {
            lemma_positions_push(r@, i);
            assert(all_positions((i + 1) as nat) =~= all_positions(i as nat).push(i as int));
        }
        r.push(i);
    }
    r
}

impl App {
    /// The search query.
    pub fn query(&self) -> (r: String)
        ensures
            r@ == self@.query(),
    {
        value(&self.input).to_owned()
    }

    /// The score of a name for a query, if it matches: names that begin with
    /// the query come first, then other matches, and frequent launches raise
    /// the score.
    pub fn matches_search(&self, app_name: &str, query: &str) -> (r: Option<i64>)
        requires
            can_score(self@.popularity, self@.config.popularity_weight, app_name@, query@),
        ensures
            score_in(r) == score(
                self@.popularity,
                self@.config.popularity_weight,
                app_name@,
                query@,
            ),
            r is Some <==> query@.len() == 0 || begins_query(app_name@, query@) || threaded(
                lowercase(app_name@),
                lowercase(query@),
                has_upper(lowercase(query@)),
            ),
            r is Some && query@.len() > 0 && !begins_query(app_name@, query@) && most_earned(
                lowercase(query@).len() as int,
            ) + most_added(self@.config.popularity_weight) < PREFIX_SCORE ==> r->0 == skim_score(
                lowercase(app_name@),
                lowercase(query@),
            )->0 + bonus(self@.popularity, self@.config.popularity_weight, app_name@),
    {
        match_score(&self.popularity, self.config.popularity_weight, app_name, query)
    }

    /// The score of a name for a query; nothing where it cannot be computed.
    pub fn try_matches_search(&self, app_name: &str, query: &str) -> (r: Option<Option<i64>>)
        ensures
            r is Some <==> can_score(
                self@.popularity,
                self@.config.popularity_weight,
                app_name@,
                query@,
            ),
            r is Some ==> score_in(r->0) == score(
                self@.popularity,
                self@.config.popularity_weight,
                app_name@,
                query@,
            ),
    {
        if is_scorable(&self.popularity, self.config.popularity_weight, app_name, query) {
            Some(self.matches_search(app_name, query))
        } else {
            None
        }
    }

    /// Whether the scores of all apps for a query can be computed.
    pub fn is_searchable(&self, query: &str) -> (r: bool)
        ensures
            r == self@.can_search(query@),
    {
        for i in 0..self.apps.len()
            invariant
                forall|j: int|
                    0 <= j < i ==> can_score(
                        self@.popularity,
                        self@.config.popularity_weight,
                        (#[trigger] self@.apps[j]).name,
                        query@,
                    ),
        {
            assert(self@.apps[i as int] == self.apps@[i as int]@);
            if !is_scorable(
                &self.popularity,
                self.config.popularity_weight,
                self.apps[i].name.as_str(),
                query,
            ) {
                assert(self@.shelf().apps[i as int] == self@.apps[i as int]);
                return false;
            }
        }
        true
    }

    /// Whether the score of an app for a query can be computed.
    pub(crate) fn is_app_scorable(&self, app: usize, query: &str) -> (r: bool)
        requires
            app < self@.apps.len(),
        ensures
            r == self@.shelf().can_score_app(app as int, query@),
    {
        assert(self@.apps[app as int] == self.apps@[app as int]@);
        is_scorable(
            &self.popularity,
            self.config.popularity_weight,
            self.apps[app].name.as_str(),
            query,
        )
    }

    /// Whether the scores of some apps for a query can be computed.
    pub fn is_rankable(&self, among: &Vec<usize>, query: &str) -> (r: bool)
        requires
            within(positions(among@), self@.apps.len()),
        ensures
            r == self@.shelf().can_rank(positions(among@), query@),
    {
        let ghost all = positions(among@);
        for k in 0..among.len()
            invariant
                all == positions(among@),
                within(all, self@.apps.len()),
                self@.shelf().can_rank(all.take(k as int), query@),
        {
            assert(all[k as int] == among@[k as int]);
            if !self.is_app_scorable(among[k], query) {
                return false;
            }
            assert forall|j: int| 0 <= j < k + 1 implies self@.shelf().can_score_app(
                #[trigger] all.take(k + 1)[j],
                query@,
            ) by {
                if j < k {
                    assert(all.take(k as int)[j] == all[j]);
                }
            }
        }
        assert(all.take(all.len() as int) == all);
        true
    }

    /// Those of some apps that match a query, the best match first; of equal
    /// matches the one that comes first stays first.
    pub fn sorted_by_score(&self, among: &Vec<usize>, query: &str) -> (r: Vec<usize>)
        requires
            within(positions(among@), self@.apps.len()),
            self@.shelf().can_rank(positions(among@), query@),
        ensures
            positions(r@) == self@.shelf().by_score(positions(among@), query@),
            within(positions(r@), self@.apps.len()),
    {
        let ghost all = positions(among@);
        let ghost keep = self@.shelf().matches(query@);
        let mut found: Vec<usize> = Vec::new();
        let mut keys: Vec<RankKey> = Vec::new();
        assert(positions(found@) =~= kept(all.take(0), keep));
        assert(ranks_of(keys@) =~= number_ranks(self@.shelf().scores(positions(found@), query@)));
        for k in 0..among.len()
            invariant
                all == positions(among@),
                keep == self@.shelf().matches(query@),
                within(all, self@.apps.len()),
                self@.shelf().can_rank(all, query@),
                positions(found@) == kept(all.take(k as int), keep),
                ranks_of(keys@) == number_ranks(self@.shelf().scores(positions(found@), query@)),
        {
            let i = among[k];
            assert(all[k as int] == i);
            assert(self@.apps[i as int] == self.apps@[i as int]@);
            assert(all.take(k + 1).drop_last() =~= all.take(k as int));
            assert(all.take(k + 1).last() == i);
            if let Some(s) = self.matches_search(self.apps[i].name.as_str(), query) {
                let key = RankKey { weight: s, stamp: Vec::new(), text: Vec::new() };
                proof {
                    assert(key.stamp@ =~= Seq::<char>::empty());
                    assert(key.text@ =~= Seq::<char>::empty());
                    lemma_positions_push(found@, i);
                    assert(ranks_of(keys@.push(key)) =~= ranks_of(keys@).push(key@));
                    let before = positions(found@);
                    assert(number_ranks(self@.shelf().scores(before.push(i as int), query@))
                        =~= number_ranks(self@.shelf().scores(before, query@)).push(key@));
                }
                found.push(i);
                keys.push(key);
            }
        }
        assert(all.take(all.len() as int) == all);
        proof {
            lemma_kept_within(all, keep, self@.apps.len());
            lemma_picked_within(positions(found@), ranks_of(keys@), self@.apps.len());
        }
        let order = rank(&keys);
        pick_positions(&found, &order)
    }

    /// The apps that have been launched, the one launched most often first.
    fn sorted_by_launches(&self) -> (r: Vec<usize>)
        ensures
            positions(r@) == self@.shelf().by_launches(),
            within(positions(r@), self@.apps.len()),
    {
        let ghost all = all_positions(self@.apps.len());
        let ghost keep = self@.shelf().has_launches();
        let mut found: Vec<usize> = Vec::new();
        let mut keys: Vec<RankKey> = Vec::new();
        assert(positions(found@) =~= kept(all.take(0), keep));
        assert(ranks_of(keys@) =~= self@.shelf().launch_ranks(positions(found@)));
        for i in 0..self.apps.len()
            invariant
                all == all_positions(self@.apps.len()),
                keep == self@.shelf().has_launches(),
                positions(found@) == kept(all.take(i as int), keep),
                ranks_of(keys@) == self@.shelf().launch_ranks(positions(found@)),
        {
            assert(self@.apps[i as int] == self.apps@[i as int]@);
            assert(all.take(i + 1).drop_last() =~= all.take(i as int));
            assert(all.take(i + 1).last() == i);
            if let Some(count) = self.popularity.get(self.apps[i].name.as_str()) {
                let lower = to_lowercase(self.apps[i].name.as_str());
                let key = RankKey {
                    weight: *count as i64,
                    stamp: Vec::new(),
                    text: chars_of(lower.as_str()),
                };
                proof {
                    assert(key.stamp@ =~= Seq::<char>::empty());
                    assert(key@ == self@.shelf().launch_rank(i as int));
                    lemma_positions_push(found@, i);
                    assert(ranks_of(keys@.push(key)) =~= ranks_of(keys@).push(key@));
                    assert(self@.shelf().launch_ranks(positions(found@).push(i as int))
                        =~= self@.shelf().launch_ranks(positions(found@)).push(key@));
                }
                found.push(i);
                keys.push(key);
            }
        }
        assert(all.take(all.len() as int) == all);
        proof {
            lemma_kept_within(all, keep, self@.apps.len());
            lemma_picked_within(positions(found@), ranks_of(keys@), self@.apps.len());
        }
        let order = rank(&keys);
        pick_positions(&found, &order)
    }

    /// The names of some apps.
    fn names_at(&self, apps: &Vec<usize>) -> (r: Vec<String>)
        requires
            within(positions(apps@), self@.apps.len()),
        ensures
            texts(r@) == self@.shelf().names(positions(apps@)),
    {
        let mut r: Vec<String> = Vec::new();
        let ghost target = self@.shelf().names(positions(apps@));
        assert(texts(r@) =~= target.take(0));
        for k in 0..apps.len()
            invariant
                within(positions(apps@), self@.apps.len()),
                target == self@.shelf().names(positions(apps@)),
                texts(r@) == target.take(k as int),
        {
            assert(positions(apps@)[k as int] == apps@[k as int]);
            assert(self@.apps[apps@[k as int] as int] == self.apps@[apps@[k as int] as int]@);
            let name = self.apps[apps[k]].name.clone();
            proof {
                lemma_texts_push(r@, name);
                assert(target.take(k + 1) =~= target.take(k as int).push(name@));
            }
            r.push(name);
        }
        assert(target.take(target.len() as int) == target);
        r
    }

    /// The apps that are launched most often, and then all others.
    fn frequent_first(&self) -> (r: Vec<usize>)
        ensures
            positions(r@) == self@.shelf().frequent_first(),
            within(positions(r@), self@.apps.len()),
    {
        let mut r = self.sorted_by_launches();
        let most = if self.config.top_recent_count < 1 {
            1
        } else {
            self.config.top_recent_count
        };
        let ghost whole = r@;
        if r.len() > most {
            r.truncate(most);
            assert(positions(r@) =~= positions(whole).take(most as int));
        }
        assert(positions(r@) =~= self@.shelf().top());
        assert(within(positions(r@), self@.apps.len())) by {
            assert forall|i: int| 0 <= i < r@.len() implies 0 <= #[trigger] positions(r@)[i]
                < self@.apps.len() by {
                assert(positions(r@)[i] == positions(whole)[i]);
            }
        }
        let names = self.names_at(&r);
        let ghost all = all_positions(self@.apps.len());
        let ghost keep = self@.shelf().named_otherwise(self@.shelf().names(self@.shelf().top()));
        assert(positions(r@) =~= self@.shelf().top() + kept(all.take(0), keep));
        for i in 0..self.apps.len()
            invariant
                all == all_positions(self@.apps.len()),
                texts(names@) == self@.shelf().names(self@.shelf().top()),
                keep == self@.shelf().named_otherwise(self@.shelf().names(self@.shelf().top())),
                positions(r@) == self@.shelf().top() + kept(all.take(i as int), keep),
                within(positions(r@), self@.apps.len()),
        {
            assert(self@.apps[i as int] == self.apps@[i as int]@);
            assert(all.take(i + 1).drop_last() =~= all.take(i as int));
            assert(all.take(i + 1).last() == i);
            if !holds(&names, self.apps[i].name.as_str()) {
                let ghost before = r@;
                proof {
                    lemma_positions_push(r@, i);
                }
                r.push(i);
                assert(positions(r@) =~= self@.shelf().top() + kept(all.take(i + 1), keep));
                assert forall|j: int| 0 <= j < r@.len() implies 0 <= #[trigger] positions(r@)[j]
                    < self@.apps.len() by {
                    if j < before.len() {
                        assert(positions(r@)[j] == positions(before)[j]);
                    }
                }
            }
        }
        assert(all.take(all.len() as int) == all);
        r
    }

    /// The positions of the apps that the single pane shows.
    pub fn visible_positions(&self) -> (r: Vec<usize>)
        requires
            self@.can_search(self@.query()),
        ensures
            positions(r@) == self@.visible(),
            within(positions(r@), self@.apps.len()),
    {
        let query = self.query();
        if query.as_str().is_empty() {
            if self.config.recent_first && !self.popularity.is_empty() {
                self.frequent_first()
            } else {
                positions_below(self.apps.len())
            }
        } else {
            let all = positions_below(self.apps.len());
            proof {
                let shelf = self@.shelf();
                let order = positions(all@);
                assert forall|k: int| 0 <= k < order.len() implies shelf.can_score_app(
                    #[trigger] order[k],
                    query@,
                ) by {
                    assert(order[k] == k);
                    assert(shelf.apps[k] == self@.apps[k]);
                }
            }
            self.sorted_by_score(&all, query.as_str())
        }
    }

    /// The apps at some positions.
    fn apps_at(&self, order: &Vec<usize>) -> (r: Vec<&AppEntry>)
        requires
            within(positions(order@), self@.apps.len()),
        ensures
            entries_shown(r@) == picked(self@.apps, positions(order@)),
    {
        let mut r: Vec<&AppEntry> = Vec::new();
        let ghost target = picked(self@.apps, positions(order@));
        assert(entries_shown(r@) =~= target.take(0));
        for k in 0..order.len()
            invariant
                within(positions(order@), self@.apps.len()),
                target == picked(self@.apps, positions(order@)),
                entries_shown(r@) == target.take(k as int),
        {
            assert(positions(order@)[k as int] == order@[k as int]);
            let entry = &self.apps[order[k]];
            proof {
                assert(entries_shown(r@.push(entry)) =~= entries_shown(r@).push(entry@));
                assert(target.take(k + 1) =~= target.take(k as int).push(entry@));
            }
            r.push(entry);
        }
        assert(target.take(target.len() as int) == target);
        r
    }

    /// The apps that the single pane shows. With a query these are the matches,
    /// the best one first. Without one these are all apps, where it is asked
    /// for with those first that are launched most often.
    pub fn visible_apps(&self) -> (r: Vec<&AppEntry>)
        requires
            self@.can_search(self@.query()),
        ensures
            entries_shown(r@) == picked(self@.apps, self@.visible()),
    {
        let order = self.visible_positions();
        self.apps_at(&order)
    }

    /// The apps that the single pane shows; nothing where a score cannot be
    /// computed.
    pub fn try_visible_apps(&self) -> (r: Option<Vec<&AppEntry>>)
        ensures
            r is Some <==> self@.can_search(self@.query()),
            r is Some ==> entries_shown(r->0@) == picked(self@.apps, self@.visible()),
    {
        let query = self.query();
        if self.is_searchable(query.as_str()) {
            Some(self.visible_apps())
        } else {
            None
        }
    }
}

/// What a list of references to entries says.
pub open spec fn entries_shown(s: Seq<&AppEntry>) -> Seq<Entry> {
    s.map_values(|e: &AppEntry| e@)
}

impl State {
    /// The launcher at its start.
    pub open spec fn start(
        single_pane_mode: SinglePaneMode,
        start_mode: Mode,
        config: BstlConfig,
        storage: Tables,
        category_overrides: Map<Seq<char>, Seq<char>>,
        executables: Seq<Seq<char>>,
        now: int,
        tick: u64,
    ) -> State {
        let blank = State {
            mode: start_mode,
            single_pane_mode,
            should_quit: false,
            input: fresh_input(Seq::empty()),
            cursor_visible: true,
            cursor_last_toggle: tick,
            categories: Seq::empty(),
            apps: Seq::empty(),
            recent_apps: at_most(
                storage.recent(),
                at_least_one(config.max_recent_apps as int),
            ),
            selected_category: 0,
            selected_app: 0,
            focus: Focus::Apps,
            app_to_launch: None,
            config,
            popularity: counts_since(
                storage.launches,
                stamp(now - DAY * config.history_window_days),
            ),
            storage,
            category_overrides,
            apps_offset: 0,
            categories_offset: 0,
            apps_rect: None,
            categories_rect: None,
            search_rect: None,
        };
        match start_mode {
            Mode::SinglePane => blank.in_single_pane(executables),
            Mode::DualPane => blank.in_dual_pane(),
        }
    }

    /// The entries of the cached apps.
    pub open spec fn cached(self) -> Seq<Entry> {
        self.storage.entries(self.category_overrides)
    }

    /// The launcher with the categories beside the apps, from the top.
    pub open spec fn in_dual_pane(self) -> State {
        State {
            mode: Mode::DualPane,
            categories: category_list(self.cached()),
            apps: self.cached(),
            selected_category: 0,
            selected_app: 0,
            focus: Focus::Categories,
            ..self
        }
    }

    /// The launcher with one list, from the top.
    pub open spec fn in_single_pane(self, executables: Seq<Seq<char>>) -> State {
        let source = single_pane_source(self.single_pane_mode, executables, self.cached());
        State {
            mode: Mode::SinglePane,
            categories: source.0,
            apps: by_name(source.1),
            selected_category: 0,
            selected_app: 0,
            focus: Focus::Apps,
            ..self
        }
    }

    /// The launcher with the other number of panes.
    pub open spec fn toggled(self, executables: Seq<Seq<char>>) -> State {
        match self.mode {
            Mode::SinglePane => self.in_dual_pane(),
            Mode::DualPane => self.in_single_pane(executables),
        }
    }

    /// The launcher with one list of what the single pane did not list.
    pub open spec fn dmenu_toggled(self, executables: Seq<Seq<char>>) -> State {
        State {
            single_pane_mode: match self.single_pane_mode {
                SinglePaneMode::Dmenu => SinglePaneMode::DesktopApps,
                SinglePaneMode::DesktopApps => SinglePaneMode::Dmenu,
            },
            ..self
        }.in_single_pane(executables)
    }

    /// The launcher after a launch.
    pub open spec fn launched(self, name: Seq<char>, now: int) -> State {
        State {
            storage: self.storage.launched(stamp(now), name),
            recent_apps: at_most(
                seq![name] + without(self.recent_apps, name),
                at_least_one(self.config.max_recent_apps as int),
            ),
            popularity: self.popularity.insert(
                name,
                (launches_of_name(self.popularity, name) + 1) as u32,
            ),
            ..self
        }
    }

    /// The launcher with the cursor just shown.
    pub open spec fn cursor_shown(self, tick: u64) -> State {
        State { cursor_visible: true, cursor_last_toggle: tick, ..self }
    }

    /// The launcher with the cursor as it should be. With an interval of 0
    /// it is always shown, and else it is shown and hidden in turn.
    pub open spec fn blinked(self, tick: u64) -> State {
        let interval = self.config.colors.cursor_blink_interval;
        if interval == 0 {
            State { cursor_visible: true, ..self }
        } else if tick >= self.cursor_last_toggle && tick - self.cursor_last_toggle >= interval
            * 1_000_000 {
            State { cursor_visible: !self.cursor_visible, cursor_last_toggle: tick, ..self }
        } else {
            self
        }
    }
}

/// A list of texts without one of them.
fn drop_text(list: &Vec<String>, text: &str) -> (r: Vec<String>)
    ensures
        texts(r@) == without(texts(list@), text@),
{
    let mut r: Vec<String> = Vec::new();
    let ghost all = texts(list@);
    assert(texts(r@) =~= without(all.take(0), text@));
    for i in 0..list.len()
        invariant
            all == texts(list@),
            texts(r@) == without(all.take(i as int), text@),
    {
        assert(all.take(i + 1).drop_last() =~= all.take(i as int));
        assert(all.take(i + 1).last() == list@[i as int]@);
        if !same_text(list[i].as_str(), text) {
            let item = list[i].clone();
            proof {
                lemma_texts_push(r@, item);
            }
            r.push(item);
        }
    }
    assert(all.take(all.len() as int) == all);
    r
}

/// A copy of a list of texts.
fn copy_texts(list: &Vec<String>) -> (r: Vec<String>)
    ensures
        r@ == list@,
{
    let mut r: Vec<String> = Vec::new();
    for i in 0..list.len()
        invariant
            r@ == list@.take(i as int),
    {
        assert(list@.take(i + 1) =~= list@.take(i as int).push(list@[i as int]));
        r.push(list[i].clone());
    }
    assert(list@.take(list@.len() as int) == list@);
    r
}

/// The greater of a number and 1.
fn one_or_more(n: usize) -> (r: usize)
    ensures
        r == at_least_one(n as int),
{
    if n < 1 {
        1
    } else {
        n
    }
}

impl App {
    /// The launcher at its start. `executables` are the names of the programs
    /// that the single pane lists in its plainer mode, `now` is the time in
    /// seconds since the start of 1970, and `tick` that of the cursor's clock
    /// in nanoseconds.
    pub fn new(
        single_pane_mode: SinglePaneMode,
        start_mode: Mode,
        config: &BstlConfig,
        storage: Storage,
        category_overrides: TextMap<String>,
        executables: &Vec<String>,
        now: i64,
        tick: u64,
    ) -> (r: App)
        requires
            in_calendar(now as int),
            in_calendar(now - DAY * config.history_window_days),
        ensures
            r@ == State::start(
                single_pane_mode,
                start_mode,
                *config,
                storage@,
                menu_names(category_overrides@),
                texts(executables@),
                now as int,
                tick,
            ),
            r@.query() == Seq::<char>::empty(),
    {
        let (categories, apps, focus) = match start_mode {
            Mode::SinglePane => {
                let (categories, apps) = load_for_mode(
                    single_pane_mode,
                    executables,
                    &storage,
                    &category_overrides,
                );
                (categories, apps, Focus::Apps)
            },
            Mode::DualPane => {
                let (categories, apps) = load_desktop_apps(&storage, &category_overrides);
                (categories, apps, Focus::Categories)
            },
        };
        let popularity = storage.popularity_map(config.history_window_days, now);
        let recent_apps = storage.recent_names(one_or_more(config.max_recent_apps));
        let empty = String::new();
        assert(empty@ =~= Seq::<char>::empty());
        App {
            mode: start_mode,
            single_pane_mode,
            should_quit: false,
            input: new_input(empty),
            cursor_visible: true,
            cursor_last_toggle: tick,
            categories,
            apps,
            recent_apps,
            selected_category: 0,
            selected_app: 0,
            focus,
            app_to_launch: None,
            config: config.clone(),
            popularity,
            storage,
            category_overrides,
            apps_offset: 0,
            categories_offset: 0,
            apps_rect: None,
            categories_rect: None,
            search_rect: None,
        }
    }

    /// A copy of the launcher, with the cursor just shown.
    pub fn clone_at(&self, tick: u64) -> (r: App)
        ensures
            r@ == self@.cursor_shown(tick),
    {
        let mut apps: Vec<AppEntry> = Vec::new();
        for i in 0..self.apps.len()
            invariant
                apps@ == self.apps@.take(i as int),
        {
            assert(self.apps@.take(i + 1) =~= self.apps@.take(i as int).push(self.apps@[i as int]));
            apps.push(self.apps[i].clone());
        }
        assert(self.apps@.take(self.apps@.len() as int) == self.apps@);
        App {
            mode: self.mode,
            single_pane_mode: self.single_pane_mode,
            should_quit: self.should_quit,
            input: self.input.clone(),
            cursor_visible: true,
            cursor_last_toggle: tick,
            categories: copy_texts(&self.categories),
            apps,
            recent_apps: copy_texts(&self.recent_apps),
            selected_category: self.selected_category,
            selected_app: self.selected_app,
            focus: self.focus,
            app_to_launch: self.app_to_launch.clone(),
            config: self.config.clone(),
            popularity: self.popularity.copy(),
            storage: self.storage.clone(),
            category_overrides: self.category_overrides.copy(),
            apps_offset: self.apps_offset,
            categories_offset: self.categories_offset,
            apps_rect: self.apps_rect,
            categories_rect: self.categories_rect,
            search_rect: self.search_rect,
        }
    }

    /// Records a launch, and shows it in the recent apps and in the counts.
    pub fn add_to_recent(&mut self, app_name: String, now: i64)
        requires
            in_calendar(now as int),
            launches_of_name(old(self)@.popularity, app_name@) < u32::MAX,
        ensures
            final(self)@ == old(self)@.launched(app_name@, now as int),
    {
        let ghost before = self@;
        self.storage.record_launch(app_name.as_str(), now);
        let others = drop_text(&self.recent_apps, app_name.as_str());
        let most = one_or_more(self.config.max_recent_apps);
        let mut recent: Vec<String> = Vec::new();
        recent.push(app_name.clone());
        let ghost target = seq![app_name@] + without(before.recent_apps, app_name@);
        assert(texts(recent@) =~= target.take(1));
        let mut i: usize = 0;
        while i < others.len() && i + 1 < most
            invariant
                i <= others@.len(),
                1 <= most,
                i + 1 <= most,
                target == seq![app_name@] + texts(others@),
                texts(recent@) == target.take(i + 1),
            decreases others@.len() - i,
        {
            let item = others[i].clone();
            proof {
                lemma_texts_push(recent@, item);
                assert(target.take(i + 2) =~= target.take(i + 1).push(item@));
            }
            recent.push(item);
            i = i + 1;
        }
        assert(target.take(target.len() as int) =~= target);
        assert(texts(recent@) == at_most(target, most as int));
        self.recent_apps = recent;
        let count = match self.popularity.get(app_name.as_str()) {
            Some(n) => *n,
            None => 0,
        };
        self.popularity.insert(app_name, count + 1);
    }

    /// Shows or hides the cursor when it is time to.
    pub fn update_cursor_blink(&mut self, tick: u64)
        ensures
            final(self)@ == old(self)@.blinked(tick),
    {
        let interval = self.config.colors.cursor_blink_interval;
        if interval == 0 {
            self.cursor_visible = true;
            return;
        }
        if tick >= self.cursor_last_toggle && (tick - self.cursor_last_toggle) as u128 >= interval
            as u128 * 1_000_000 {
            self.cursor_visible = !self.cursor_visible;
            self.cursor_last_toggle = tick;
        }
    }

    /// Shows the cursor from now on.
    pub fn reset_cursor_blink(&mut self, tick: u64)
        ensures
            final(self)@ == old(self)@.cursor_shown(tick),
    {
        self.cursor_visible = true;
        self.cursor_last_toggle = tick;
    }

    /// Changes between one list and categories beside their apps.
    pub fn toggle_mode(&mut self, executables: &Vec<String>)
        ensures
            final(self)@ == old(self)@.toggled(texts(executables@)),
    {
        match self.mode {
            Mode::SinglePane => {
                let (categories, apps) = load_desktop_apps(
                    &self.storage,
                    &self.category_overrides,
                );
                self.categories = categories;
                self.apps = apps;
                self.mode = Mode::DualPane;
                self.focus = Focus::Categories;
            },
            Mode::DualPane => {
                let (categories, apps) = load_for_mode(
                    self.single_pane_mode,
                    executables,
                    &self.storage,
                    &self.category_overrides,
                );
                self.categories = categories;
                self.apps = apps;
                self.mode = Mode::SinglePane;
                self.focus = Focus::Apps;
            },
        }
        self.selected_category = 0;
        self.selected_app = 0;
    }

    /// Changes what the single pane lists, and shows it.
    pub fn toggle_dmenu_mode(&mut self, executables: &Vec<String>)
        ensures
            final(self)@ == old(self)@.dmenu_toggled(texts(executables@)),
    {
        self.single_pane_mode = match self.single_pane_mode {
            SinglePaneMode::Dmenu => SinglePaneMode::DesktopApps,
            SinglePaneMode::DesktopApps => SinglePaneMode::Dmenu,
        };
        self.mode = Mode::SinglePane;
        let (categories, apps) = load_for_mode(
            self.single_pane_mode,
            executables,
            &self.storage,
            &self.category_overrides,
        );
        self.categories = categories;
        self.apps = apps;
        self.selected_app = 0;
        self.selected_category = 0;
        self.focus = Focus::Apps;
    }
}

} // verus!
