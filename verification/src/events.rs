//! What keys and the mouse do.

use tui_input::Input;
use vstd::prelude::*;
use vstd::utf8::{decode_utf8, encode_utf8, encode_utf8_decode_utf8, is_char_boundary};

use crate::app::{
    kept, lemma_kept_within, lemma_positions_push, App, AppEntry, Entry, Focus, Mode, Shelf,
    SinglePaneMode, State,
};
use crate::catalog::{all_positions, within};
use crate::input::{
    after_event, after_request, cursor, edited, fresh_input, handle, handle_event, input_cursor,
    input_text, keyed, new_input, value, EditRequest,
};
use crate::keys::{
    click_row_in_list, rect_contains, rect_fits, KeyCode, KeyEvent, MouseEvent, MouseKind, Rect,
};
use crate::ranking::positions;
use crate::storage::entries_of;
use crate::text::{lowercase, same_text, texts, to_lowercase};

verus! {

/// The first of some entries with a name.
pub open spec fn first_named(apps: Seq<Entry>, name: Seq<char>) -> Option<int>
    decreases apps.len(),
{
    if apps.len() == 0 {
        None
    } else {
        match first_named(apps.drop_last(), name) {
            Some(i) => Some(i),
            None => if apps.last().name == name {
                Some(apps.len() - 1)
            } else {
                None
            },
        }
    }
}

/// The entries with some names: for each name the first one that has it.
pub open spec fn entries_named(apps: Seq<Entry>, names: Seq<Seq<char>>) -> Seq<int>
    decreases names.len(),
{
    if names.len() == 0 {
        Seq::empty()
    } else {
        let before = entries_named(apps, names.drop_last());
        match first_named(apps, names.last()) {
            Some(i) => before.push(i),
            None => before,
        }
    }
}

/// The first place of a number in a list.
pub open spec fn place_of(s: Seq<int>, n: int) -> Option<int>
    decreases s.len(),
{
    if s.len() == 0 {
        None
    } else {
        match place_of(s.drop_last(), n) {
            Some(i) => Some(i),
            None => if s.last() == n {
                Some(s.len() - 1)
            } else {
                None
            },
        }
    }
}

impl Shelf {
    /// The recent apps.
    pub open spec fn recents(self) -> Seq<int> {
        entries_named(self.apps, self.recent_apps)
    }

    /// Which apps have a category.
    pub open spec fn in_category(self, category: Seq<char>) -> spec_fn(int) -> bool {
        |i: int| self.apps[i].category == category
    }

    /// The apps of a category.
    pub open spec fn members(self, category: Seq<char>) -> Seq<int> {
        if category == "Recent"@ {
            self.recents()
        } else {
            kept(all_positions(self.apps.len()), self.in_category(category))
        }
    }

    /// The apps that are listed for a category, with a query only the matches
    /// and the best one first.
    pub open spec fn listed_in(self, category: int, query: Seq<char>) -> Seq<int> {
        if category >= self.categories.len() {
            Seq::empty()
        } else if query.len() == 0 {
            self.members(self.categories[category])
        } else {
            self.by_score(self.members(self.categories[category]), query)
        }
    }

    /// Whether the apps that are listed for a category can be computed: with a
    /// query, the scores of the apps of the category.
    pub open spec fn can_list_in(self, category: int, query: Seq<char>) -> bool {
        category < self.categories.len() && query.len() > 0 ==> self.can_rank(
            self.members(self.categories[category]),
            query,
        )
    }

    /// Whether a match can be looked for among some apps: the scores can be
    /// computed up to that of the first match.
    pub open spec fn can_find(self, among: Seq<int>, query: Seq<char>) -> bool {
        forall|k: int|
            0 <= k < among.len() && kept(among.take(k), self.matches(query)).len() == 0
                ==> self.can_score_app(#[trigger] among[k], query)
    }

    /// Whether the listed categories can be computed: with a query, a match can
    /// be looked for in each category.
    pub open spec fn can_list_categories(self, query: Seq<char>) -> bool {
        query.len() > 0 ==> forall|c: int|
            0 <= c < self.categories.len() ==> self.can_find(
                self.members(#[trigger] self.categories[c]),
                lowercase(query),
            )
    }

    /// Which categories have an app that matches a query.
    pub open spec fn has_match(self, query: Seq<char>) -> spec_fn(int) -> bool {
        |c: int| kept(self.members(self.categories[c]), self.matches(query)).len() > 0
    }

    /// The categories that are listed: all of them, with a query only those
    /// with a match.
    pub open spec fn listed_categories(self, query: Seq<char>) -> Seq<int> {
        let all = all_positions(self.categories.len());
        if query.len() == 0 {
            all
        } else {
            kept(all, self.has_match(lowercase(query)))
        }
    }
}

impl State {
    /// The apps that are listed: those of the single pane, or those of the
    /// chosen category.
    pub open spec fn listed(self) -> Seq<int> {
        match self.mode {
            Mode::SinglePane => self.visible(),
            Mode::DualPane => self.shelf().listed_in(self.selected_category, self.query()),
        }
    }

    /// The chosen app.
    pub open spec fn selected(self) -> Option<int> {
        if self.selected_app < self.listed().len() {
            Some(self.listed()[self.selected_app])
        } else {
            None
        }
    }

    /// The categories that are listed.
    pub open spec fn listed_categories(self) -> Seq<int> {
        self.shelf().listed_categories(self.query())
    }

    /// Whether the listed apps can be computed.
    pub open spec fn can_list(self) -> bool {
        match self.mode {
            Mode::SinglePane => self.can_search(self.query()),
            Mode::DualPane => self.shelf().can_list_in(self.selected_category, self.query()),
        }
    }

    /// Whether the listed categories can be computed.
    pub open spec fn can_list_categories(self) -> bool {
        self.shelf().can_list_categories(self.query())
    }

    /// The launcher with another search line.
    pub open spec fn with_input(self, input: Input) -> State {
        State { input, ..self }
    }

    /// The launcher with another app chosen.
    pub open spec fn at_app(self, app: int) -> State {
        State { selected_app: app, ..self }
    }

    /// The launcher with a category chosen, at its first app.
    pub open spec fn at_category(self, category: int) -> State {
        State { selected_category: category, selected_app: 0, ..self }
    }

    /// The launcher with the app before the chosen one.
    pub open spec fn app_up(self) -> State {
        if self.selected_app > 0 {
            self.at_app(self.selected_app - 1)
        } else {
            self
        }
    }

    /// The launcher with the app behind the chosen one.
    pub open spec fn app_down(self) -> State {
        if self.selected_app + 1 < self.listed().len() {
            self.at_app(self.selected_app + 1)
        } else {
            self
        }
    }

    /// The launcher with the category before the chosen one; with `wrap` the
    /// last one comes before the first.
    pub open spec fn category_up(self, wrap: bool) -> State {
        let listed = self.listed_categories();
        match place_of(listed, self.selected_category) {
            Some(at) => if at > 0 {
                self.at_category(listed[at - 1])
            } else if wrap {
                self.at_category(listed.last())
            } else {
                self
            },
            None => self,
        }
    }

    /// The launcher with the category behind the chosen one; with `wrap` the
    /// first one comes behind the last.
    pub open spec fn category_down(self, wrap: bool) -> State {
        let listed = self.listed_categories();
        match place_of(listed, self.selected_category) {
            Some(at) => if at + 1 < listed.len() {
                self.at_category(listed[at + 1])
            } else if wrap {
                self.at_category(listed[0])
            } else {
                self
            },
            None => self,
        }
    }

    /// Whether the up and down keys go through the categories.
    pub open spec fn in_categories(self) -> bool {
        self.mode == Mode::DualPane && self.focus == Focus::Categories
    }

    /// The launcher after the up key.
    pub open spec fn up(self) -> State {
        if self.in_categories() {
            self.category_up(true)
        } else {
            self.app_up()
        }
    }

    /// The launcher after the down key.
    pub open spec fn down(self) -> State {
        if self.in_categories() {
            self.category_down(true)
        } else {
            self.app_down()
        }
    }

    /// The launcher after the left key.
    pub open spec fn left(self) -> State {
        if self.mode == Mode::DualPane && self.focus == Focus::Apps {
            State { focus: Focus::Categories, ..self }
        } else {
            self
        }
    }

    /// The launcher after the right key.
    pub open spec fn right(self) -> State {
        if self.mode == Mode::DualPane && self.focus == Focus::Categories {
            State { focus: Focus::Apps, ..self }
        } else {
            self
        }
    }

    /// The launcher with what is chosen after its query has changed.
    pub open spec fn reselected(self) -> State {
        if self.query().len() == 0 {
            self.at_category(0)
        } else {
            match self.mode {
                Mode::SinglePane => self.at_app(0),
                Mode::DualPane => if self.listed_categories().len() > 0 {
                    self.at_category(self.listed_categories()[0])
                } else {
                    self
                },
            }
        }
    }

    /// The launcher that quits to launch an app.
    pub open spec fn launching(self, app: int) -> State {
        State {
            app_to_launch: Some(self.apps[app].exec_line),
            should_quit: true,
            ..self
        }
    }
}

/// The first of some entries with a name.
fn find_named(apps: &Vec<AppEntry>, name: &str) -> (r: Option<usize>)
    ensures
        match r {
            Some(i) => i < apps@.len() && first_named(
                entries_of(apps@),
                name@,
            ) == Some(i as int),
            None => first_named(entries_of(apps@), name@) is None,
        },
{
    let ghost all = entries_of(apps@);
    for i in 0..apps.len()
        invariant
            all == entries_of(apps@),
            first_named(all.take(i as int), name@) is None,
    {
        assert(all.take(i + 1).drop_last() =~= all.take(i as int));
        assert(all.take(i + 1).last() == apps@[i as int]@);
        if same_text(apps[i].name.as_str(), name) {
            proof {
                lemma_first_named_extends(all, name@, i + 1);
            }
            return Some(i);
        }
    }
    assert(all.take(all.len() as int) == all);
    None
}

/// An entry that is found in the first part of a list is found in the list.
proof fn lemma_first_named_extends(apps: Seq<Entry>, name: Seq<char>, n: int)
    requires
        0 <= n <= apps.len(),
        first_named(apps.take(n), name) is Some,
    ensures
        first_named(apps, name) == first_named(apps.take(n), name),
    decreases apps.len(),
{
    if n < apps.len() {
        assert(apps.drop_last().take(n) =~= apps.take(n));
        lemma_first_named_extends(apps.drop_last(), name, n);
    } else {
        assert(apps.take(n) =~= apps);
    }
}

/// A number that is found in the first part of a list is found in the list.
proof fn lemma_place_extends(s: Seq<int>, number: int, n: int)
    requires
        0 <= n <= s.len(),
        place_of(s.take(n), number) is Some,
    ensures
        place_of(s, number) == place_of(s.take(n), number),
    decreases s.len(),
{
    if n < s.len() {
        assert(s.drop_last().take(n) =~= s.take(n));
        lemma_place_extends(s.drop_last(), number, n);
    } else {
        assert(s.take(n) =~= s);
    }
}

/// The first place of a number in a list.
fn find_place(list: &Vec<usize>, n: usize) -> (r: Option<usize>)
    ensures
        match r {
            Some(i) => i < list@.len() && place_of(positions(list@), n as int) == Some(i as int),
            None => place_of(positions(list@), n as int) is None,
        },
{
    let ghost all = positions(list@);
    for i in 0..list.len()
        invariant
            all == positions(list@),
            place_of(all.take(i as int), n as int) is None,
    {
        assert(all.take(i + 1).drop_last() =~= all.take(i as int));
        assert(all.take(i + 1).last() == list@[i as int]);
        if list[i] == n {
            proof {
                lemma_place_extends(all, n as int, i + 1);
            }
            return Some(i);
        }
    }
    assert(all.take(all.len() as int) == all);
    None
}

/// The recent apps.
fn recent_positions(app: &App) -> (r: Vec<usize>)
    ensures
        positions(r@) == app@.shelf().recents(),
        within(positions(r@), app@.apps.len()),
{
    let mut r: Vec<usize> = Vec::new();
    let ghost names = app@.recent_apps;
    assert(positions(r@) =~= entries_named(app@.apps, names.take(0)));
    for k in 0..app.recent_apps.len()
        invariant
            names == app@.recent_apps,
            positions(r@) == entries_named(app@.apps, names.take(k as int)),
            within(positions(r@), app@.apps.len()),
    {
        assert(names.take(k + 1).drop_last() =~= names.take(k as int));
        assert(names.take(k + 1).last() == app.recent_apps@[k as int]@);
        if let Some(i) = find_named(&app.apps, app.recent_apps[k].as_str()) {
            let ghost before = r@;
            proof {
                lemma_positions_push(r@, i);
            }
            r.push(i);
            assert forall|j: int| 0 <= j < r@.len() implies 0 <= #[trigger] positions(r@)[j]
                < app@.apps.len() by {
                if j < before.len() {
                    assert(positions(r@)[j] == positions(before)[j]);
                }
            }
        }
    }
    assert(names.take(names.len() as int) == names);
    r
}

/// The apps of a category.
fn member_positions(app: &App, category: &str) -> (r: Vec<usize>)
    ensures
        positions(r@) == app@.shelf().members(category@),
        within(positions(r@), app@.apps.len()),
{
    if same_text(category, "Recent") {
        return recent_positions(app);
    }
    let ghost all = all_positions(app@.apps.len());
    let ghost keep = app@.shelf().in_category(category@);
    let mut r: Vec<usize> = Vec::new();
    assert(positions(r@) =~= kept(all.take(0), keep));
    for i in 0..app.apps.len()
        invariant
            all == all_positions(app@.apps.len()),
            keep == app@.shelf().in_category(category@),
            positions(r@) == kept(all.take(i as int), keep),
    {
        assert(app@.apps[i as int] == app.apps@[i as int]@);
        assert(all.take(i + 1).drop_last() =~= all.take(i as int));
        assert(all.take(i + 1).last() == i);
        if same_text(app.apps[i].category.as_str(), category) {
            proof {
                lemma_positions_push(r@, i);
            }
            r.push(i);
        }
    }
    assert(all.take(all.len() as int) == all);
    proof {
        lemma_kept_within(all, keep, app@.apps.len());
    }
    r
}

/// The apps that are listed.
pub fn listed_positions(app: &App) -> (r: Vec<usize>)
    requires
        app@.can_list(),
    ensures
        positions(r@) == app@.listed(),
        within(positions(r@), app@.apps.len()),
{
    match app.mode {
        Mode::SinglePane => app.visible_positions(),
        Mode::DualPane => {
            if app.selected_category >= app.categories.len() {
                let r: Vec<usize> = Vec::new();
                assert(positions(r@) =~= Seq::<int>::empty());
                return r;
            }
            let members = member_positions(app, app.categories[app.selected_category].as_str());
            let query = app.query();
            if query.as_str().is_empty() {
                members
            } else {
                app.sorted_by_score(&members, query.as_str())
            }
        },
    }
}

/// The chosen app.
pub fn get_selected_app(app: &App) -> (r: Option<&AppEntry>)
    requires
        app@.can_list(),
    ensures
        match r {
            Some(entry) => app@.selected() is Some && entry@ == app@.apps[app@.selected()->0],
            None => app@.selected() is None,
        },
{
    let listed = listed_positions(app);
    if app.selected_app < listed.len() {
        assert(positions(listed@)[app.selected_app as int] == listed@[app.selected_app as int]);
        Some(&app.apps[listed[app.selected_app]])
    } else {
        None
    }
}

/// How many apps are listed.
pub fn count_filtered_apps_in_current_category(app: &App) -> (r: usize)
    requires
        app@.can_list(),
    ensures
        r == app@.listed().len(),
{
    listed_positions(app).len()
}

/// Whether one of some apps matches a query.
fn any_matches(app: &App, among: &Vec<usize>, query: &str) -> (r: bool)
    requires
        within(positions(among@), app@.apps.len()),
        app@.shelf().can_find(positions(among@), query@),
    ensures
        r == (kept(positions(among@), app@.shelf().matches(query@)).len() > 0),
{
    let ghost all = positions(among@);
    let ghost keep = app@.shelf().matches(query@);
    for k in 0..among.len()
        invariant
            all == positions(among@),
            keep == app@.shelf().matches(query@),
            within(all, app@.apps.len()),
            app@.shelf().can_find(all, query@),
            kept(all.take(k as int), keep).len() == 0,
    {
        let i = among[k];
        assert(all[k as int] == i);
        assert(app@.apps[i as int] == app.apps@[i as int]@);
        assert(all.take(k + 1).drop_last() =~= all.take(k as int));
        assert(all.take(k + 1).last() == i);
        if app.matches_search(app.apps[i].name.as_str(), query).is_some() {
            proof {
                lemma_kept_grows(all, keep, k + 1);
            }
            return true;
        }
    }
    assert(all.take(all.len() as int) == all);
    false
}

/// Whether a match can be looked for among some apps.
fn is_findable(app: &App, among: &Vec<usize>, query: &str) -> (r: bool)
    requires
        within(positions(among@), app@.apps.len()),
    ensures
        r == app@.shelf().can_find(positions(among@), query@),
{
    let ghost all = positions(among@);
    let ghost keep = app@.shelf().matches(query@);
    for k in 0..among.len()
        invariant
            all == positions(among@),
            keep == app@.shelf().matches(query@),
            within(all, app@.apps.len()),
            forall|j: int| 0 <= j < k ==> app@.shelf().can_score_app(#[trigger] all[j], query@),
            kept(all.take(k as int), keep).len() == 0,
    {
        let i = among[k];
        assert(all[k as int] == i);
        assert(app@.apps[i as int] == app.apps@[i as int]@);
        assert(all.take(k + 1).drop_last() =~= all.take(k as int));
        assert(all.take(k + 1).last() == i);
        if !app.is_app_scorable(i, query) {
            return false;
        }
        if app.matches_search(app.apps[i].name.as_str(), query).is_some() {
            proof {
                assert forall|j: int|
                    0 <= j < all.len() && kept(
                        all.take(j),
                        app@.shelf().matches(query@),
                    ).len() == 0 implies app@.shelf().can_score_app(#[trigger] all[j], query@) by {
                    if j > k {
                        assert(all.take(j).take(k + 1) =~= all.take(k + 1));
                        lemma_kept_grows(all.take(j), keep, k + 1);
                    }
                }
            }
            return true;
        }
    }
    true
}

/// What is kept of the first part of a list is kept of the list.
proof fn lemma_kept_grows(among: Seq<int>, keep: spec_fn(int) -> bool, n: int)
    requires
        0 <= n <= among.len(),
    ensures
        kept(among.take(n), keep).len() <= kept(among, keep).len(),
    decreases among.len(),
{
    if n < among.len() {
        assert(among.drop_last().take(n) =~= among.take(n));
        lemma_kept_grows(among.drop_last(), keep, n);
    } else {
        assert(among.take(n) =~= among);
    }
}

/// The categories that are listed.
pub fn get_matching_category_indices(app: &App) -> (r: Vec<usize>)
    requires
        app@.can_list_categories(),
    ensures
        positions(r@) == app@.listed_categories(),
        within(positions(r@), app@.categories.len()),
{
    let query = app.query();
    let searching = !query.as_str().is_empty();
    let lower = to_lowercase(query.as_str());
    let ghost all = all_positions(app@.categories.len());
    let ghost keep = app@.shelf().has_match(lower@);
    let mut r: Vec<usize> = Vec::new();
    assert(positions(r@) =~= kept(all.take(0), keep));
    assert(positions(r@) =~= all.take(0));
    for c in 0..app.categories.len()
        invariant
            all == all_positions(app@.categories.len()),
            lower@ == lowercase(app@.query()),
            keep == app@.shelf().has_match(lower@),
            searching == (app@.query().len() > 0),
            app@.can_list_categories(),
            searching ==> positions(r@) == kept(all.take(c as int), keep),
            !searching ==> positions(r@) == all.take(c as int),
    {
        assert(app@.categories[c as int] == app.categories@[c as int]@);
        assert(all.take(c + 1).drop_last() =~= all.take(c as int));
        assert(all.take(c + 1).last() == c);
        let shown = if searching {
            let members = member_positions(app, app.categories[c].as_str());
            any_matches(app, &members, lower.as_str())
        } else {
            true
        };
        if shown {
            proof {
                lemma_positions_push(r@, c);
                assert(all.take(c + 1) =~= all.take(c as int).push(c as int));
            }
            r.push(c);
        }
    }
    assert(all.take(all.len() as int) == all);
    proof {
        lemma_kept_within(all, keep, app@.categories.len());
    }
    r
}

/// Chooses the app before the chosen one.
fn navigate_up_apps(app: &mut App)
    ensures
        final(app)@ == old(app)@.app_up(),
{
    if app.selected_app > 0 {
        app.selected_app = app.selected_app - 1;
    }
}

/// Chooses the app behind the chosen one.
fn navigate_down_apps(app: &mut App)
    requires
        old(app)@.can_list(),
    ensures
        final(app)@ == old(app)@.app_down(),
{
    let count = count_filtered_apps_in_current_category(app);
    if count > 0 && app.selected_app < count - 1 {
        app.selected_app = app.selected_app + 1;
    }
}

/// Chooses a category, at its first app.
fn choose_category(app: &mut App, category: usize)
    ensures
        final(app)@ == old(app)@.at_category(category as int),
{
    app.selected_category = category;
    app.selected_app = 0;
}

/// Chooses the category before the chosen one.
fn navigate_up_categories(app: &mut App, wrap: bool)
    requires
        old(app)@.can_list_categories(),
    ensures
        final(app)@ == old(app)@.category_up(wrap),
{
    let listed = get_matching_category_indices(app);
    if let Some(at) = find_place(&listed, app.selected_category) {
        if at > 0 {
            choose_category(app, listed[at - 1]);
        } else if wrap {
            choose_category(app, listed[listed.len() - 1]);
        }
    }
}

/// Chooses the category behind the chosen one.
fn navigate_down_categories(app: &mut App, wrap: bool)
    requires
        old(app)@.can_list_categories(),
    ensures
        final(app)@ == old(app)@.category_down(wrap),
{
    let listed = get_matching_category_indices(app);
    if let Some(at) = find_place(&listed, app.selected_category) {
        if at < listed.len() - 1 {
            choose_category(app, listed[at + 1]);
        } else if wrap {
            choose_category(app, listed[0]);
        }
    }
}

/// The up key: the app before the chosen one, or the category before the
/// chosen one, and before the first the last.
pub fn navigate_up(app: &mut App)
    requires
        old(app)@.can_go_up(),
    ensures
        final(app)@ == old(app)@.up(),
{
    if app.mode == Mode::DualPane && app.focus == Focus::Categories {
        navigate_up_categories(app, true);
    } else {
        navigate_up_apps(app);
    }
}

/// The down key: the app behind the chosen one, or the category behind the
/// chosen one, and behind the last the first.
pub fn navigate_down(app: &mut App)
    requires
        old(app)@.can_go_down(),
    ensures
        final(app)@ == old(app)@.down(),
{
    if app.mode == Mode::DualPane && app.focus == Focus::Categories {
        navigate_down_categories(app, true);
    } else {
        navigate_down_apps(app);
    }
}

/// The left key: from the apps to the categories.
pub fn navigate_left(app: &mut App)
    ensures
        final(app)@ == old(app)@.left(),
{
    if app.mode == Mode::DualPane && app.focus == Focus::Apps {
        app.focus = Focus::Categories;
    }
}

/// The right key: from the categories to the apps.
pub fn navigate_right(app: &mut App)
    ensures
        final(app)@ == old(app)@.right(),
{
    if app.mode == Mode::DualPane && app.focus == Focus::Categories {
        app.focus = Focus::Apps;
    }
}

/// Chooses anew after the query has changed: the first category that has a
/// match, and the first app.
pub fn update_selection_after_search(app: &mut App)
    requires
        old(app)@.mode == Mode::DualPane ==> old(app)@.can_list_categories(),
    ensures
        final(app)@ == old(app)@.reselected(),
{
    let query = app.query();
    if query.as_str().is_empty() {
        choose_category(app, 0);
        return;
    }
    match app.mode {
        Mode::DualPane => {
            let listed = get_matching_category_indices(app);
            if listed.len() > 0 {
                choose_category(app, listed[0]);
            }
        },
        Mode::SinglePane => {
            app.selected_app = 0;
        },
    }
}

/// The text from a byte of its UTF-8 form on.
pub open spec fn text_from(text: Seq<char>, at: int) -> Seq<char> {
    let bytes = encode_utf8(text);
    decode_utf8(bytes.subrange(at, bytes.len() as int))
}

/// The text up to a byte of its UTF-8 form.
pub open spec fn text_to(text: Seq<char>, at: int) -> Seq<char> {
    decode_utf8(encode_utf8(text).subrange(0, at))
}

/// The change of the search line that a key stands for.
pub open spec fn request_of(key: KeyEvent) -> Option<EditRequest> {
    if key.is_control('a') {
        Some(EditRequest::GoToStart)
    } else if key.is_control('e') {
        Some(EditRequest::GoToEnd)
    } else if key.is_control('b') {
        Some(EditRequest::GoToPrevChar)
    } else if key.is_control('f') {
        Some(EditRequest::GoToNextChar)
    } else if key.is_control('w') {
        Some(EditRequest::DeletePrevWord)
    } else if key.is_control('d') {
        Some(EditRequest::DeleteNextChar)
    } else if key.is_control('h') {
        Some(EditRequest::DeletePrevChar)
    } else {
        None
    }
}

/// Whether a key cuts off one side of the search line.
pub open spec fn cuts(key: KeyEvent) -> bool {
    key.is_control('u') || key.is_control('k')
}

/// Whether a key quits the launcher.
pub open spec fn quits(key: KeyEvent) -> bool {
    key.code is Esc || key.is_control('c') || key.is_control('g')
}

/// Whether a key changes the number of panes.
pub open spec fn toggles(key: KeyEvent) -> bool {
    key.code is Tab || key.is_control('m') || key.is_control('t')
}

impl State {
    /// Whether a key that cuts off one side of the search line has something
    /// to cut off. The place of the cut is the byte whose number is that of
    /// the characters before the cursor.
    pub open spec fn has_cut(self, key: KeyEvent) -> bool {
        let at = input_cursor(self.input);
        let length = encode_utf8(self.query()).len();
        if key.is_control('u') {
            0 < at <= length
        } else {
            at < length
        }
    }

    /// The search line that a key leaves.
    pub open spec fn edited_line(self, key: KeyEvent) -> Input {
        let at = input_cursor(self.input);
        if key.is_control('u') {
            after_request(fresh_input(text_from(self.query(), at)), EditRequest::GoToStart)
        } else if key.is_control('k') {
            fresh_input(text_to(self.query(), at))
        } else {
            match request_of(key) {
                Some(request) => after_request(self.input, request),
                None => after_event(self.input, key),
            }
        }
    }

    /// Whether a key changes the search line.
    pub open spec fn edits(self, key: KeyEvent) -> bool {
        if cuts(key) {
            self.has_cut(key)
        } else {
            true
        }
    }

    /// The launcher after a key that goes to the search line.
    pub open spec fn after_edit(self, key: KeyEvent, tick: u64) -> State {
        if !self.edits(key) {
            self
        } else {
            let changed = self.with_input(self.edited_line(key));
            if cuts(key) {
                changed.reselected()
            } else {
                changed.cursor_shown(tick).reselected()
            }
        }
    }

    /// The launcher after a key, and whether it quits.
    pub open spec fn after_key(
        self,
        key: KeyEvent,
        executables: Seq<Seq<char>>,
        tick: u64,
    ) -> (State, bool) {
        if quits(key) {
            (self, true)
        } else if toggles(key) {
            (self.toggled(executables), false)
        } else if key.is_control('x') {
            (self.dmenu_toggled(executables), false)
        } else if key.code is Enter && self.selected() is Some {
            (self.launching(self.selected()->0), true)
        } else if key.code is Up {
            (self.up(), false)
        } else if key.code is Down {
            (self.down(), false)
        } else if key.code is Left {
            (self.left(), false)
        } else if key.code is Right {
            (self.right(), false)
        } else {
            (self.after_edit(key, tick), false)
        }
    }

    /// Whether the up key can be taken.
    pub open spec fn can_go_up(self) -> bool {
        self.in_categories() ==> self.can_list_categories()
    }

    /// Whether the down key can be taken.
    pub open spec fn can_go_down(self) -> bool {
        if self.in_categories() {
            self.can_list_categories()
        } else {
            self.can_list()
        }
    }

    /// Whether a key goes to the search line.
    pub open spec fn goes_to_line(self, key: KeyEvent) -> bool {
        &&& !quits(key)
        &&& !toggles(key)
        &&& !key.is_control('x')
        &&& !(key.code is Enter && self.selected() is Some)
        &&& !(key.code is Up || key.code is Down || key.code is Left || key.code is Right)
    }

    /// Whether the launcher can take a key: the scores that it needs can be
    /// computed, before and after the change of the query, and a cut is not in
    /// the middle of a character.
    pub open spec fn takes(self, key: KeyEvent) -> bool {
        &&& key.code is Enter ==> self.can_list()
        &&& key.code is Up ==> self.can_go_up()
        &&& key.code is Down ==> self.can_go_down()
        &&& self.goes_to_line(key) && self.edits(key) ==> {
            &&& cuts(key) ==> is_char_boundary(
                encode_utf8(self.query()),
                input_cursor(self.input),
            )
            &&& self.mode == Mode::DualPane ==> self.shelf().can_list_categories(
                input_text(self.edited_line(key)),
            )
        }
    }

    /// Whether a key shows the executables anew.
    pub open spec fn lists_executables(self, key: KeyEvent) -> bool {
        ||| !quits(key) && toggles(key) && self.mode == Mode::DualPane && self.single_pane_mode
            == SinglePaneMode::Dmenu
        ||| !quits(key) && !toggles(key) && key.is_control('x') && self.single_pane_mode
            == SinglePaneMode::DesktopApps
    }
}

/// Whether a key shows the executables anew, so that their names are needed.
pub fn needs_executables(app: &App, key: KeyEvent) -> (r: bool)
    ensures
        r == app@.lists_executables(key),
{
    if is_quit(key) {
        false
    } else if is_toggle(key) {
        app.mode == Mode::DualPane && app.single_pane_mode == SinglePaneMode::Dmenu
    } else {
        key.control('x') && app.single_pane_mode == SinglePaneMode::DesktopApps
    }
}

/// Whether a key quits the launcher.
fn is_quit(key: KeyEvent) -> (r: bool)
    ensures
        r == quits(key),
{
    key.code == KeyCode::Esc || key.control('c') || key.control('g')
}

/// Whether a key changes the number of panes.
fn is_toggle(key: KeyEvent) -> (r: bool)
    ensures
        r == toggles(key),
{
    key.code == KeyCode::Tab || key.control('m') || key.control('t')
}

/// The change of the search line that a key stands for.
fn edit_request(key: KeyEvent) -> (r: Option<EditRequest>)
    ensures
        r == request_of(key),
{
    if key.control('a') {
        Some(EditRequest::GoToStart)
    } else if key.control('e') {
        Some(EditRequest::GoToEnd)
    } else if key.control('b') {
        Some(EditRequest::GoToPrevChar)
    } else if key.control('f') {
        Some(EditRequest::GoToNextChar)
    } else if key.control('w') {
        Some(EditRequest::DeletePrevWord)
    } else if key.control('d') {
        Some(EditRequest::DeleteNextChar)
    } else if key.control('h') {
        Some(EditRequest::DeletePrevChar)
    } else {
        None
    }
}

/// Whether a key has something to cut off the search line.
fn can_cut(app: &App, key: KeyEvent) -> (r: bool)
    ensures
        r == app@.has_cut(key),
{
    let at = cursor(&app.input);
    let length = value(&app.input).as_bytes().len();
    if key.control('u') {
        0 < at && at <= length
    } else {
        at < length
    }
}

/// What is known of a search line that a key has changed.
pub open spec fn line_changed(before: Input, key: KeyEvent, after: Input) -> bool {
    if key.is_control('u') {
        &&& input_text(after) == text_from(input_text(before), input_cursor(before))
        &&& input_cursor(after) == 0
    } else if key.is_control('k') {
        &&& input_text(after) == text_to(input_text(before), input_cursor(before))
        &&& input_cursor(after) == input_text(after).len()
    } else {
        match request_of(key) {
            Some(request) => edited(before, request, after),
            None => keyed(before, key, after),
        }
    }
}

/// The search line that a key leaves.
fn line_after(app: &App, key: KeyEvent) -> (r: Input)
    requires
        cuts(key) ==> app@.has_cut(key) && is_char_boundary(
            encode_utf8(app@.query()),
            input_cursor(app@.input),
        ),
    ensures
        r == app@.edited_line(key),
        line_changed(app@.input, key, r),
{
    let at = cursor(&app.input);
    let text = value(&app.input);
    if key.control('u') {
        let parts = text.split_at(at);
        proof {
            encode_utf8_decode_utf8(parts.1@);
        }
        let mut line = new_input(parts.1.to_owned());
        handle(&mut line, EditRequest::GoToStart);
        return line;
    }
    if key.control('k') {
        let parts = text.split_at(at);
        proof {
            encode_utf8_decode_utf8(parts.0@);
        }
        return new_input(parts.0.to_owned());
    }
    let mut line = app.input.clone();
    match edit_request(key) {
        Some(request) => {
            handle(&mut line, request);
        },
        None => {
            handle_event(&mut line, key);
        },
    }
    line
}

/// Takes a key that goes to the search line.
fn edit_line(app: &mut App, key: KeyEvent, tick: u64)
    requires
        old(app)@.edits(key) ==> {
            &&& cuts(key) ==> is_char_boundary(
                encode_utf8(old(app)@.query()),
                input_cursor(old(app)@.input),
            )
            &&& old(app)@.mode == Mode::DualPane ==> old(app)@.shelf().can_list_categories(
                input_text(old(app)@.edited_line(key)),
            )
        },
    ensures
        final(app)@ == old(app)@.after_edit(key, tick),
        old(app)@.edits(key) ==> line_changed(old(app)@.input, key, final(app)@.input),
{
    if key.control('u') || key.control('k') {
        if can_cut(app, key) {
            app.input = line_after(app, key);
            update_selection_after_search(app);
        }
        return;
    }
    app.input = line_after(app, key);
    app.reset_cursor_blink(tick);
    update_selection_after_search(app);
}

/// Takes a key, and says whether the launcher quits. A key with no other use
/// goes to the search line. `executables` are the names that are shown where
/// the key shows the executables, and `tick` is the time of the cursor's clock
/// in nanoseconds.
pub fn handle_key(app: &mut App, key: KeyEvent, executables: &Vec<String>, tick: u64) -> (r: bool)
    requires
        old(app)@.takes(key),
    ensures
        (final(app)@, r) == old(app)@.after_key(key, texts(executables@), tick),
        old(app)@.goes_to_line(key) && old(app)@.edits(key) ==> line_changed(
            old(app)@.input,
            key,
            final(app)@.input,
        ),
{
    if is_quit(key) {
        return true;
    }
    if is_toggle(key) {
        app.toggle_mode(executables);
        return false;
    }
    if key.control('x') {
        app.toggle_dmenu_mode(executables);
        return false;
    }
    match key.code {
        KeyCode::Enter => {
            let line = match get_selected_app(app) {
                Some(entry) => Some(entry.exec_line.clone()),
                None => None,
            };
            if let Some(line) = line {
                app.app_to_launch = Some(line);
                app.should_quit = true;
                return true;
            }
        },
        KeyCode::Up => {
            navigate_up(app);
            return false;
        },
        KeyCode::Down => {
            navigate_down(app);
            return false;
        },
        KeyCode::Left => {
            navigate_left(app);
            return false;
        },
        KeyCode::Right => {
            navigate_right(app);
            return false;
        },
        _ => {},
    }
    edit_line(app, key, tick);
    false
}

/// Whether the listed apps can be computed.
pub fn is_listable(app: &App) -> (r: bool)
    ensures
        r == app@.can_list(),
{
    let query = app.query();
    match app.mode {
        Mode::SinglePane => app.is_searchable(query.as_str()),
        Mode::DualPane => {
            if app.selected_category >= app.categories.len() || query.as_str().is_empty() {
                return true;
            }
            let members = member_positions(app, app.categories[app.selected_category].as_str());
            app.is_rankable(&members, query.as_str())
        },
    }
}

/// Whether the categories that are listed for a query can be computed.
fn are_listable_for(app: &App, query: &str) -> (r: bool)
    ensures
        r == app@.shelf().can_list_categories(query@),
{
    if query.is_empty() {
        return true;
    }
    let lower = to_lowercase(query);
    for c in 0..app.categories.len()
        invariant
            query@.len() > 0,
            lower@ == lowercase(query@),
            forall|j: int|
                0 <= j < c ==> app@.shelf().can_find(
                    app@.shelf().members(#[trigger] app@.shelf().categories[j]),
                    lower@,
                ),
    {
        assert(app@.shelf().categories[c as int] == app.categories@[c as int]@);
        let members = member_positions(app, app.categories[c].as_str());
        if !is_findable(app, &members, lower.as_str()) {
            return false;
        }
    }
    true
}

/// Whether the listed categories can be computed.
pub fn are_categories_listable(app: &App) -> (r: bool)
    ensures
        r == app@.can_list_categories(),
{
    let query = app.query();
    are_listable_for(app, query.as_str())
}

/// Whether the launcher can take a key.
pub fn can_take(app: &App, key: KeyEvent) -> (r: bool)
    ensures
        r == app@.takes(key),
{
    let walks = app.mode == Mode::DualPane && app.focus == Focus::Categories;
    match key.code {
        KeyCode::Enter => {
            if !is_listable(app) {
                return false;
            }
            if get_selected_app(app).is_some() {
                return true;
            }
        },
        KeyCode::Up => {
            return !walks || are_categories_listable(app);
        },
        KeyCode::Down => {
            return if walks {
                are_categories_listable(app)
            } else {
                is_listable(app)
            };
        },
        KeyCode::Left => {
            return true;
        },
        KeyCode::Right => {
            return true;
        },
        _ => {},
    }
    if is_quit(key) || is_toggle(key) || key.control('x') {
        return true;
    }
    if key.control('u') || key.control('k') {
        if !can_cut(app, key) {
            return true;
        }
        if !value(&app.input).is_char_boundary(cursor(&app.input)) {
            return false;
        }
    }
    if app.mode == Mode::SinglePane {
        return true;
    }
    let line = line_after(app, key);
    are_listable_for(app, value(&line))
}

/// Takes a key, and says whether the launcher quits; says nothing, and changes
/// nothing, where the launcher cannot take it.
pub fn try_handle_key(
    app: &mut App,
    key: KeyEvent,
    executables: &Vec<String>,
    tick: u64,
) -> (r: Option<bool>)
    ensures
        r is Some <==> old(app)@.takes(key),
        r is Some ==> (final(app)@, r->0) == old(app)@.after_key(key, texts(executables@), tick),
        r is Some && old(app)@.goes_to_line(key) && old(app)@.edits(key) ==> line_changed(
            old(app)@.input,
            key,
            final(app)@.input,
        ),
        r is None ==> *final(app) == *old(app),
{
    if can_take(app, key) {
        Some(handle_key(app, key, executables, tick))
    } else {
        None
    }
}

impl State {
    /// The launcher after a click on a row of the list of apps, and whether it
    /// quits: a row is chosen, and launched if it was chosen before.
    pub open spec fn after_app_click(self, visible_row: int) -> (State, bool) {
        let target = self.apps_offset + visible_row;
        if target >= self.listed().len() {
            (self, false)
        } else {
            let chosen = State { focus: Focus::Apps, selected_app: target, ..self };
            if self.focus == Focus::Apps && self.selected_app == target {
                (chosen.launching(self.listed()[target]), true)
            } else {
                (chosen, false)
            }
        }
    }

    /// The launcher after a click on a row of the list of categories.
    pub open spec fn after_category_click(self, visible_row: int) -> State {
        let target = self.categories_offset + visible_row;
        if target >= self.listed_categories().len() {
            self
        } else {
            let category = self.listed_categories()[target];
            let focused = State { focus: Focus::Categories, ..self };
            if self.selected_category == category {
                focused
            } else {
                focused.at_category(category)
            }
        }
    }

    /// The launcher some apps further up.
    pub open spec fn apps_up(self, steps: nat) -> State
        decreases steps,
    {
        if steps == 0 {
            self
        } else {
            self.apps_up((steps - 1) as nat).app_up()
        }
    }

    /// The launcher some apps further down.
    pub open spec fn apps_down(self, steps: nat) -> State
        decreases steps,
    {
        if steps == 0 {
            self
        } else {
            self.apps_down((steps - 1) as nat).app_down()
        }
    }

    /// The launcher some categories further up, at most at the first.
    pub open spec fn categories_up(self, steps: nat) -> State
        decreases steps,
    {
        if steps == 0 {
            self
        } else {
            self.categories_up((steps - 1) as nat).category_up(false)
        }
    }

    /// The launcher some categories further down, at most at the last.
    pub open spec fn categories_down(self, steps: nat) -> State
        decreases steps,
    {
        if steps == 0 {
            self
        } else {
            self.categories_down((steps - 1) as nat).category_down(false)
        }
    }

    /// The launcher after the apps were scrolled by some rows, up where the
    /// number is negative.
    pub open spec fn apps_scrolled(self, delta: int) -> State {
        let focused = State { focus: Focus::Apps, ..self };
        if delta < 0 {
            focused.apps_up((-delta) as nat)
        } else {
            focused.apps_down(delta as nat)
        }
    }

    /// The launcher after the categories were scrolled by some rows, up where
    /// the number is negative.
    pub open spec fn categories_scrolled(self, delta: int) -> State {
        if self.mode != Mode::DualPane {
            self
        } else {
            let focused = State { focus: Focus::Categories, ..self };
            if delta < 0 {
                focused.categories_up((-delta) as nat)
            } else {
                focused.categories_down(delta as nat)
            }
        }
    }

    /// The launcher after the mouse was scrolled over a cell.
    pub open spec fn after_scroll(self, column: int, row: int, delta: int) -> State {
        if area_holds(self.categories_rect, column, row) {
            self.categories_scrolled(delta)
        } else if area_holds(self.apps_rect, column, row) {
            self.apps_scrolled(delta)
        } else {
            self
        }
    }

    /// The launcher after a click on a cell, and whether it quits.
    pub open spec fn after_click(self, column: int, row: int) -> (State, bool) {
        if area_holds(self.apps_rect, column, row) {
            match self.apps_rect->0.list_row(column, row) {
                Some(visible_row) => self.after_app_click(visible_row),
                None => (self, false),
            }
        } else if area_holds(self.categories_rect, column, row) {
            match self.categories_rect->0.list_row(column, row) {
                Some(visible_row) => (self.after_category_click(visible_row), false),
                None => (self, false),
            }
        } else if area_holds(self.search_rect, column, row) {
            (State { focus: Focus::Search, ..self }, false)
        } else {
            (self, false)
        }
    }

    /// The launcher after a mouse event, and whether it quits.
    pub open spec fn after_mouse(self, event: MouseEvent) -> (State, bool) {
        let column = event.column as int;
        let row = event.row as int;
        match event.kind {
            MouseKind::LeftDown => self.after_click(column, row),
            MouseKind::ScrollUp => (self.after_scroll(column, row, -3), false),
            MouseKind::ScrollDown => (self.after_scroll(column, row, 3), false),
            MouseKind::Other => (self, false),
        }
    }

    /// Whether the launcher can take a click on a cell: the areas that are
    /// looked at have coordinates, and the list that is clicked on can be
    /// computed.
    pub open spec fn takes_click(self, column: int, row: int) -> bool {
        &&& area_fits(self.apps_rect)
        &&& if area_holds(self.apps_rect, column, row) {
            self.can_list()
        } else {
            &&& area_fits(self.categories_rect)
            &&& if area_holds(self.categories_rect, column, row) {
                self.can_list_categories()
            } else {
                area_fits(self.search_rect)
            }
        }
    }

    /// Whether the launcher can take a scroll over a cell: the areas that are
    /// looked at have coordinates, and the list that is scrolled can be
    /// computed.
    pub open spec fn takes_scroll(self, column: int, row: int) -> bool {
        &&& area_fits(self.categories_rect)
        &&& if area_holds(self.categories_rect, column, row) {
            self.mode == Mode::DualPane ==> self.can_list_categories()
        } else {
            &&& area_fits(self.apps_rect)
            &&& area_holds(self.apps_rect, column, row) ==> self.can_list()
        }
    }

    /// Whether the launcher can take a mouse event.
    pub open spec fn takes_mouse(self, event: MouseEvent) -> bool {
        match event.kind {
            MouseKind::Other => true,
            MouseKind::LeftDown => self.takes_click(event.column as int, event.row as int),
            _ => self.takes_scroll(event.column as int, event.row as int),
        }
    }
}

/// Whether an area is there and holds a cell.
pub open spec fn area_holds(area: Option<Rect>, column: int, row: int) -> bool {
    match area {
        Some(rect) => rect.holds(column, row),
        None => false,
    }
}

/// Whether the far corner of an area, if it is there, has coordinates.
pub open spec fn area_fits(area: Option<Rect>) -> bool {
    match area {
        Some(rect) => rect.fits(),
        None => true,
    }
}

/// Whether an area is there and holds a cell.
fn is_in_area(area: Option<Rect>, col: u16, row: u16) -> (r: bool)
    requires
        area_fits(area),
    ensures
        r == area_holds(area, col as int, row as int),
{
    match area {
        Some(rect) => rect_contains(rect, col, row),
        None => false,
    }
}

/// What a step through the apps leaves as it is.
pub proof fn lemma_apps_step(state: State, steps: nat)
    ensures
        state.apps_up(steps) == state.at_app(state.apps_up(steps).selected_app),
        state.apps_down(steps) == state.at_app(state.apps_down(steps).selected_app),
        state.apps_up(steps).can_list() == state.can_list(),
        state.apps_down(steps).can_list() == state.can_list(),
    decreases steps,
{
    if steps > 0 {
        lemma_apps_step(state, (steps - 1) as nat);
    }
}

/// What steps through the categories leave as it is.
pub proof fn lemma_categories_step(state: State, steps: nat)
    ensures
        state.categories_up(steps).shelf() == state.shelf(),
        state.categories_down(steps).shelf() == state.shelf(),
        state.categories_up(steps).storage == state.storage,
        state.categories_down(steps).storage == state.storage,
        state.categories_up(steps).mode == state.mode,
        state.categories_down(steps).mode == state.mode,
        state.categories_up(steps).input == state.input,
        state.categories_down(steps).input == state.input,
    decreases steps,
{
    if steps > 0 {
        lemma_categories_step(state, (steps - 1) as nat);
        assert(state.categories_up(steps).shelf() =~= state.shelf());
        assert(state.categories_down(steps).shelf() =~= state.shelf());
    }
}

/// Takes a click on a row of the list of apps: a row is chosen, and launched
/// if it was chosen before. Says whether the launcher quits.
pub fn click_apps_list(app: &mut App, rect: Rect, col: u16, row: u16) -> (r: bool)
    requires
        rect.fits(),
        old(app)@.can_list(),
    ensures
        (final(app)@, r) == match rect.list_row(col as int, row as int) {
            Some(visible_row) => old(app)@.after_app_click(visible_row),
            None => (old(app)@, false),
        },
{
    let visible_row = match click_row_in_list(rect, col, row) {
        Some(n) => n,
        None => {
            return false;
        },
    };
    let listed = listed_positions(app);
    if app.apps_offset >= listed.len() || visible_row >= listed.len() - app.apps_offset {
        return false;
    }
    let target = app.apps_offset + visible_row;
    let already_selected = app.focus == Focus::Apps && app.selected_app == target;
    app.focus = Focus::Apps;
    app.selected_app = target;
    if already_selected {
        assert(positions(listed@)[target as int] == listed@[target as int]);
        app.app_to_launch = Some(app.apps[listed[target]].exec_line.clone());
        app.should_quit = true;
        return true;
    }
    false
}

/// Takes a click on a row of the list of categories, which chooses it.
pub fn click_categories_list(app: &mut App, rect: Rect, col: u16, row: u16)
    requires
        rect.fits(),
        old(app)@.can_list_categories(),
    ensures
        final(app)@ == match rect.list_row(col as int, row as int) {
            Some(visible_row) => old(app)@.after_category_click(visible_row),
            None => old(app)@,
        },
{
    let visible_row = match click_row_in_list(rect, col, row) {
        Some(n) => n,
        None => {
            return;
        },
    };
    let listed = get_matching_category_indices(app);
    let offset = app.categories_offset;
    if offset >= listed.len() || visible_row >= listed.len() - offset {
        return;
    }
    let target = offset + visible_row;
    let category = listed[target];
    assert(positions(listed@)[target as int] == category);
    app.focus = Focus::Categories;
    if app.selected_category != category {
        choose_category(app, category);
    }
}

/// Scrolls the apps by some rows, up where the number is negative.
pub fn scroll_in_apps(app: &mut App, delta: i32)
    requires
        delta > i32::MIN,
        old(app)@.can_list(),
    ensures
        final(app)@ == old(app)@.apps_scrolled(delta as int),
{
    app.focus = Focus::Apps;
    let ghost start = app@;
    if delta < 0 {
        let steps = -delta;
        for i in 0..steps
            invariant
                app@ == start.apps_up(i as nat),
        {
            navigate_up_apps(app);
        }
    } else {
        for i in 0..delta
            invariant
                app@ == start.apps_down(i as nat),
                start.can_list(),
        {
            proof {
                lemma_apps_step(start, i as nat);
            }
            navigate_down_apps(app);
        }
    }
}

/// Scrolls the categories by some rows, up where the number is negative.
pub fn scroll_in_categories(app: &mut App, delta: i32)
    requires
        delta > i32::MIN,
        old(app)@.mode == Mode::DualPane ==> old(app)@.can_list_categories(),
    ensures
        final(app)@ == old(app)@.categories_scrolled(delta as int),
{
    if app.mode != Mode::DualPane {
        return;
    }
    app.focus = Focus::Categories;
    let ghost start = app@;
    if delta < 0 {
        let steps = -delta;
        for i in 0..steps
            invariant
                app@ == start.categories_up(i as nat),
                start.can_list_categories(),
        {
            proof {
                lemma_categories_step(start, i as nat);
            }
            navigate_up_categories(app, false);
        }
    } else {
        for i in 0..delta
            invariant
                app@ == start.categories_down(i as nat),
                start.can_list_categories(),
        {
            proof {
                lemma_categories_step(start, i as nat);
            }
            navigate_down_categories(app, false);
        }
    }
}

/// Takes a click on a cell, and says whether the launcher quits.
fn handle_click(app: &mut App, col: u16, row: u16) -> (r: bool)
    requires
        old(app)@.takes_click(col as int, row as int),
    ensures
        (final(app)@, r) == old(app)@.after_click(col as int, row as int),
{
    if let Some(rect) = app.apps_rect {
        if rect_contains(rect, col, row) {
            return click_apps_list(app, rect, col, row);
        }
    }
    if let Some(rect) = app.categories_rect {
        if rect_contains(rect, col, row) {
            click_categories_list(app, rect, col, row);
            return false;
        }
    }
    if is_in_area(app.search_rect, col, row) {
        app.focus = Focus::Search;
    }
    false
}

/// Takes a scroll over a cell.
fn handle_scroll(app: &mut App, col: u16, row: u16, delta: i32)
    requires
        delta > i32::MIN,
        old(app)@.takes_scroll(col as int, row as int),
    ensures
        final(app)@ == old(app)@.after_scroll(col as int, row as int, delta as int),
{
    if is_in_area(app.categories_rect, col, row) {
        scroll_in_categories(app, delta);
    } else if is_in_area(app.apps_rect, col, row) {
        scroll_in_apps(app, delta);
    }
}

/// Takes a mouse event, and says whether the launcher quits.
pub fn handle_mouse(app: &mut App, ev: MouseEvent) -> (r: bool)
    requires
        old(app)@.takes_mouse(ev),
    ensures
        (final(app)@, r) == old(app)@.after_mouse(ev),
{
    match ev.kind {
        MouseKind::LeftDown => handle_click(app, ev.column, ev.row),
        MouseKind::ScrollUp => {
            handle_scroll(app, ev.column, ev.row, -3);
            false
        },
        MouseKind::ScrollDown => {
            handle_scroll(app, ev.column, ev.row, 3);
            false
        },
        MouseKind::Other => false,
    }
}

/// Whether the far corner of an area, if it is there, has coordinates.
fn does_area_fit(area: Option<Rect>) -> (r: bool)
    ensures
        r == area_fits(area),
{
    match area {
        Some(rect) => rect_fits(rect),
        None => true,
    }
}

/// Whether the launcher can take a click on a cell.
fn can_take_click(app: &App, col: u16, row: u16) -> (r: bool)
    ensures
        r == app@.takes_click(col as int, row as int),
{
    if !does_area_fit(app.apps_rect) {
        return false;
    }
    if is_in_area(app.apps_rect, col, row) {
        return is_listable(app);
    }
    if !does_area_fit(app.categories_rect) {
        return false;
    }
    if is_in_area(app.categories_rect, col, row) {
        return are_categories_listable(app);
    }
    does_area_fit(app.search_rect)
}

/// Whether the launcher can take a scroll over a cell.
fn can_take_scroll(app: &App, col: u16, row: u16) -> (r: bool)
    ensures
        r == app@.takes_scroll(col as int, row as int),
{
    if !does_area_fit(app.categories_rect) {
        return false;
    }
    if is_in_area(app.categories_rect, col, row) {
        return app.mode != Mode::DualPane || are_categories_listable(app);
    }
    if !does_area_fit(app.apps_rect) {
        return false;
    }
    !is_in_area(app.apps_rect, col, row) || is_listable(app)
}

/// Whether the launcher can take a mouse event.
pub fn can_take_mouse(app: &App, ev: MouseEvent) -> (r: bool)
    ensures
        r == app@.takes_mouse(ev),
{
    match ev.kind {
        MouseKind::Other => true,
        MouseKind::LeftDown => can_take_click(app, ev.column, ev.row),
        _ => can_take_scroll(app, ev.column, ev.row),
    }
}

/// Takes a mouse event, and says whether the launcher quits; says nothing, and
/// changes nothing, where the launcher cannot take it.
pub fn try_handle_mouse(app: &mut App, ev: MouseEvent) -> (r: Option<bool>)
    ensures
        r is Some <==> old(app)@.takes_mouse(ev),
        r is Some ==> (final(app)@, r->0) == old(app)@.after_mouse(ev),
        r is None ==> *final(app) == *old(app),
{
    if can_take_mouse(app, ev) {
        Some(handle_mouse(app, ev))
    } else {
        None
    }
}

} // verus!
