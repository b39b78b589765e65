//! What the launcher lists: the cached desktop apps by category, or the
//! executables of a directory.

use vstd::prelude::*;

use crate::app::{AppEntry, Entry, SinglePaneMode};
use crate::menu::menu_names;
use crate::paths::{file_name, file_name_of};
use crate::ranking::{
    outranks, positions, rank, ranked, ranking_is_a_stable_sort, ranks_of, Rank, RankKey,
};
use crate::storage::{entries_of, Storage};
use crate::table::TextMap;
use crate::text::{
    chars_of, holds, lemma_push_contains, lemma_texts_push, lex_less, lowercase, same_text,
    split_whitespace, texts, to_lowercase, words,
};

verus! {

/// The items of a list at some positions.
pub open spec fn picked<T>(s: Seq<T>, order: Seq<int>) -> Seq<T> {
    order.map_values(|i: int| s[i])
}

/// Whether some positions lie in a list.
pub open spec fn within(order: Seq<int>, length: nat) -> bool {
    forall|i: int| 0 <= i < order.len() ==> 0 <= #[trigger] order[i] < length
}

/// The positions of a list.
pub open spec fn all_positions(length: nat) -> Seq<int> {
    Seq::new(length, |i: int| i)
}

/// Ranks by text alone.
pub open spec fn text_ranks(s: Seq<Seq<char>>) -> Seq<Rank> {
    s.map_values(|t: Seq<char>| Rank { weight: 0, stamp: Seq::empty(), text: t })
}

/// Ranks by number alone.
pub open spec fn number_ranks(s: Seq<int>) -> Seq<Rank> {
    s.map_values(|n: int| Rank { weight: n, stamp: Seq::empty(), text: Seq::empty() })
}

/// The lower-case forms of some texts.
pub open spec fn all_lowercase(s: Seq<Seq<char>>) -> Seq<Seq<char>> {
    s.map_values(|t: Seq<char>| lowercase(t))
}

/// The names of some entries.
pub open spec fn names_of(apps: Seq<Entry>) -> Seq<Seq<char>> {
    apps.map_values(|e: Entry| e.name)
}

/// Texts in the order of their lower-case forms.
pub open spec fn by_lowercase(s: Seq<Seq<char>>) -> Seq<Seq<char>> {
    picked(s, ranked(text_ranks(all_lowercase(s))))
}

/// Entries in the order of the lower-case forms of their names.
pub open spec fn by_name(apps: Seq<Entry>) -> Seq<Entry> {
    picked(apps, ranked(text_ranks(all_lowercase(names_of(apps)))))
}

/// The order of texts by their lower-case forms.
fn lowercase_order(list: &Vec<String>) -> (r: Vec<usize>)
    ensures
        positions(r@) == ranked(text_ranks(all_lowercase(texts(list@)))),
        within(positions(r@), list@.len()),
{
    let mut keys: Vec<RankKey> = Vec::new();
    let ghost ranks = text_ranks(all_lowercase(texts(list@)));
    assert(ranks_of(keys@) =~= ranks.take(0));
    for i in 0..list.len()
        invariant
            ranks == text_ranks(all_lowercase(texts(list@))),
            ranks_of(keys@) == ranks.take(i as int),
    {
        let lower = to_lowercase(list[i].as_str());
        let key = RankKey { weight: 0, stamp: Vec::new(), text: chars_of(lower.as_str()) };
        proof {
            assert(key.stamp@ =~= Seq::<char>::empty());
            assert(ranks_of(keys@.push(key)) =~= ranks_of(keys@).push(key@));
            assert(ranks.take(i + 1) =~= ranks.take(i as int).push(key@));
        }
        keys.push(key);
    }
    assert(ranks.take(ranks.len() as int) == ranks);
    proof {
        ranking_is_a_stable_sort(ranks);
    }
    rank(&keys)
}

/// The texts at some positions.
fn pick_texts(list: &Vec<String>, order: &Vec<usize>) -> (r: Vec<String>)
    requires
        within(positions(order@), list@.len()),
    ensures
        texts(r@) == picked(texts(list@), positions(order@)),
{
    let mut r: Vec<String> = Vec::new();
    let ghost places = positions(order@);
    let ghost target = picked(texts(list@), places);
    assert(texts(r@) =~= target.take(0));
    for k in 0..order.len()
        invariant
            places == positions(order@),
            within(places, list@.len()),
            target == picked(texts(list@), places),
            texts(r@) == target.take(k as int),
    {
        assert(places[k as int] == order@[k as int]);
        let item = list[order[k]].clone();
        proof {
            lemma_texts_push(r@, item);
            assert(target.take(k + 1) =~= target.take(k as int).push(item@));
        }
        r.push(item);
    }
    assert(target.take(target.len() as int) == target);
    r
}

/// Lists of entries grow as what they say does.
proof fn lemma_entries_push(s: Seq<AppEntry>, e: AppEntry)
    ensures
        entries_of(s.push(e)) == entries_of(s).push(e@),
{
    assert(entries_of(s.push(e)) =~= entries_of(s).push(e@));
}

/// The entries at some positions.
fn pick_entries(list: &Vec<AppEntry>, order: &Vec<usize>) -> (r: Vec<AppEntry>)
    requires
        within(positions(order@), list@.len()),
    ensures
        entries_of(r@) == picked(entries_of(list@), positions(order@)),
{
    let mut r: Vec<AppEntry> = Vec::new();
    let ghost places = positions(order@);
    let ghost target = picked(entries_of(list@), places);
    assert(entries_of(r@) =~= target.take(0));
    for k in 0..order.len()
        invariant
            places == positions(order@),
            within(places, list@.len()),
            target == picked(entries_of(list@), places),
            entries_of(r@) == target.take(k as int),
    {
        assert(places[k as int] == order@[k as int]);
        let item = list[order[k]].clone();
        proof {
            lemma_entries_push(r@, item);
            assert(target.take(k + 1) =~= target.take(k as int).push(item@));
        }
        r.push(item);
    }
    assert(target.take(target.len() as int) == target);
    r
}

/// The names of some entries.
fn entry_names(list: &Vec<AppEntry>) -> (r: Vec<String>)
    ensures
        texts(r@) == names_of(entries_of(list@)),
{
    let mut r: Vec<String> = Vec::new();
    let ghost target = names_of(entries_of(list@));
    assert(texts(r@) =~= target.take(0));
    for i in 0..list.len()
        invariant
            target == names_of(entries_of(list@)),
            texts(r@) == target.take(i as int),
    {
        let name = list[i].name.clone();
        proof {
            lemma_texts_push(r@, name);
            assert(target.take(i + 1) =~= target.take(i as int).push(name@));
        }
        r.push(name);
    }
    assert(target.take(target.len() as int) == target);
    r
}

/// The categories that come first, in their order.
pub open spec fn known_categories() -> Seq<Seq<char>> {
    seq![
        "Utilities"@,
        "Development"@,
        "Network"@,
        "Audio/Video"@,
        "Graphics"@,
        "System"@,
        "Office"@,
        "Games"@,
        "Education"@,
        "Settings"@,
    ]
}

/// Whether one of some entries has a category.
pub open spec fn has_category(apps: Seq<Entry>, category: Seq<char>) -> bool {
    exists|i: int| 0 <= i < apps.len() && (#[trigger] apps[i]).category == category
}

/// Those of some categories that one of some entries has.
pub open spec fn present(categories: Seq<Seq<char>>, apps: Seq<Entry>) -> Seq<Seq<char>>
    decreases categories.len(),
{
    if categories.len() == 0 {
        Seq::empty()
    } else {
        let before = present(categories.drop_last(), apps);
        if has_category(apps, categories.last()) {
            before.push(categories.last())
        } else {
            before
        }
    }
}

/// The categories of some entries that do not come first, each once, in the
/// order of their first entry.
pub open spec fn extra_categories(apps: Seq<Entry>) -> Seq<Seq<char>>
    decreases apps.len(),
{
    if apps.len() == 0 {
        Seq::empty()
    } else {
        let before = extra_categories(apps.drop_last());
        let category = apps.last().category;
        if known_categories().contains(category) || before.contains(category) {
            before
        } else {
            before.push(category)
        }
    }
}

/// The list of categories for some entries: the recent apps, the categories
/// with a fixed place, and all others in the order of their lower-case forms.
pub open spec fn category_list(apps: Seq<Entry>) -> Seq<Seq<char>> {
    seq!["Recent"@] + present(known_categories(), apps) + by_lowercase(extra_categories(apps))
}

/// Whether one of some entries has a category.
fn any_has_category(apps: &Vec<AppEntry>, category: &str) -> (r: bool)
    ensures
        r == has_category(entries_of(apps@), category@),
{
    let ghost all = entries_of(apps@);
    for i in 0..apps.len()
        invariant
            all == entries_of(apps@),
            forall|j: int| 0 <= j < i ==> (#[trigger] all[j]).category != category@,
    {
        assert(all[i as int] == apps@[i as int]@);
        if same_text(apps[i].category.as_str(), category) {
            return true;
        }
    }
    false
}

/// Appends a category if one of some entries has it.
fn push_present(out: &mut Vec<String>, category: &str, apps: &Vec<AppEntry>)
    ensures
        texts(final(out)@) == if has_category(entries_of(apps@), category@) {
            texts(old(out)@).push(category@)
        } else {
            texts(old(out)@)
        },
{
    if any_has_category(apps, category) {
        let item = category.to_owned();
        proof {
            lemma_texts_push(out@, item);
        }
        out.push(item);
    }
}

/// The categories that come first, in their order.
fn known_list() -> (r: Vec<String>)
    ensures
        texts(r@) == known_categories(),
{
    let r = vec![
        "Utilities".to_owned(),
        "Development".to_owned(),
        "Network".to_owned(),
        "Audio/Video".to_owned(),
        "Graphics".to_owned(),
        "System".to_owned(),
        "Office".to_owned(),
        "Games".to_owned(),
        "Education".to_owned(),
        "Settings".to_owned(),
    ];
    assert(texts(r@) =~= known_categories());
    r
}

/// The categories of some entries that do not come first.
fn extras(apps: &Vec<AppEntry>, known: &Vec<String>) -> (r: Vec<String>)
    requires
        texts(known@) == known_categories(),
    ensures
        texts(r@) == extra_categories(entries_of(apps@)),
{
    let mut r: Vec<String> = Vec::new();
    let ghost all = entries_of(apps@);
    assert(texts(r@) =~= extra_categories(all.take(0)));
    for i in 0..apps.len()
        invariant
            texts(known@) == known_categories(),
            all == entries_of(apps@),
            texts(r@) == extra_categories(all.take(i as int)),
    {
        assert(all.take(i + 1).drop_last() =~= all.take(i as int));
        assert(all.take(i + 1).last() == apps@[i as int]@);
        let category = apps[i].category.as_str();
        if !(holds(known, category) || holds(&r, category)) {
            let item = category.to_owned();
            proof {
                lemma_texts_push(r@, item);
            }
            r.push(item);
        }
    }
    assert(all.take(all.len() as int) == all);
    r
}

/// The list of categories for some entries.
fn list_categories(apps: &Vec<AppEntry>) -> (r: Vec<String>)
    ensures
        texts(r@) == category_list(entries_of(apps@)),
{
    let ghost all = entries_of(apps@);
    let known = known_list();
    let ghost fixed = known_categories();
    let mut r: Vec<String> = Vec::new();
    r.push("Recent".to_owned());
    let ghost first = seq!["Recent"@];
    assert(texts(r@) =~= first + present(fixed.take(0), all));
    for i in 0..known.len()
        invariant
            all == entries_of(apps@),
            texts(known@) == fixed,
            texts(r@) == first + present(fixed.take(i as int), all),
    {
        assert(fixed.take(i + 1).drop_last() =~= fixed.take(i as int));
        assert(fixed.take(i + 1).last() == known@[i as int]@);
        push_present(&mut r, known[i].as_str(), apps);
        assert(texts(r@) =~= first + present(fixed.take(i + 1), all));
    }
    assert(fixed.take(fixed.len() as int) == fixed);
    let more = extras(apps, &known);
    let order = lowercase_order(&more);
    let sorted = pick_texts(&more, &order);
    let ghost upto = texts(r@);
    assert(upto =~= upto + texts(sorted@).take(0));
    for i in 0..sorted.len()
        invariant
            texts(r@) == upto + texts(sorted@).take(i as int),
    {
        let item = sorted[i].clone();
        proof {
            lemma_texts_push(r@, item);
            assert(upto + texts(sorted@).take(i + 1) =~= (upto + texts(sorted@).take(
                i as int,
            )).push(item@));
        }
        r.push(item);
    }
    assert(texts(sorted@).take(sorted@.len() as int) =~= texts(sorted@));
    r
}

/// The cached desktop apps and their categories.
pub fn load_desktop_apps(storage: &Storage, overrides: &TextMap<String>) -> (r: (
    Vec<String>,
    Vec<AppEntry>,
))
    ensures
        entries_of(r.1@) == storage@.entries(menu_names(overrides@)),
        texts(r.0@) == category_list(storage@.entries(menu_names(overrides@))),
{
    let apps = storage.load_apps(overrides);
    let categories = list_categories(&apps);
    (categories, apps)
}

/// The program that an entry without a terminal starts.
pub open spec fn gui_binary(entry: Entry) -> Option<Seq<char>> {
    if entry.terminal || words(entry.exec_line).len() == 0 {
        None
    } else {
        file_name_of(words(entry.exec_line)[0])
    }
}

/// The programs that the entries without a terminal start.
pub open spec fn gui_binaries(apps: Seq<Entry>) -> Seq<Seq<char>>
    decreases apps.len(),
{
    if apps.len() == 0 {
        Seq::empty()
    } else {
        let before = gui_binaries(apps.drop_last());
        match gui_binary(apps.last()) {
            Some(name) => before.push(name),
            None => before,
        }
    }
}

/// The programs that the cached apps without a terminal start.
fn gui_binaries_from_cache(storage: &Storage, overrides: &TextMap<String>) -> (r: Vec<String>)
    ensures
        texts(r@) == gui_binaries(storage@.entries(menu_names(overrides@))),
{
    let apps = storage.load_apps(overrides);
    let mut r: Vec<String> = Vec::new();
    let ghost all = entries_of(apps@);
    assert(texts(r@) =~= gui_binaries(all.take(0)));
    for i in 0..apps.len()
        invariant
            all == entries_of(apps@),
            texts(r@) == gui_binaries(all.take(i as int)),
    {
        assert(all.take(i + 1).drop_last() =~= all.take(i as int));
        assert(all.take(i + 1).last() == apps@[i as int]@);
        if !apps[i].terminal {
            let parts = split_whitespace(apps[i].exec_line.as_str());
            if parts.len() > 0 {
                assert(texts(parts@)[0] == parts@[0]@);
                if let Some(name) = file_name(parts[0].as_str()) {
                    proof {
                        lemma_texts_push(r@, name);
                    }
                    r.push(name);
                }
            }
        }
    }
    assert(all.take(all.len() as int) == all);
    r
}

/// The entry of an executable. It runs in a terminal unless it is a program
/// that a desktop app starts without one.
pub open spec fn path_entry(name: Seq<char>, gui: Seq<Seq<char>>) -> Entry {
    Entry {
        name,
        category: "CLI"@,
        exec_line: name,
        terminal: !gui.contains(name),
        comment: Seq::empty(),
    }
}

/// The entries of some executables.
pub open spec fn path_entries(executables: Seq<Seq<char>>, gui: Seq<Seq<char>>) -> Seq<Entry> {
    executables.map_values(|name: Seq<char>| path_entry(name, gui))
}

/// The entries of some executables, and their one category.
pub fn load_from_path(
    executables: &Vec<String>,
    storage: &Storage,
    overrides: &TextMap<String>,
) -> (r: (Vec<String>, Vec<AppEntry>))
    ensures
        texts(r.0@) == seq!["CLI"@],
        entries_of(r.1@) == path_entries(
            texts(executables@),
            gui_binaries(storage@.entries(menu_names(overrides@))),
        ),
{
    let gui = gui_binaries_from_cache(storage, overrides);
    let mut apps: Vec<AppEntry> = Vec::new();
    let ghost target = path_entries(texts(executables@), texts(gui@));
    assert(entries_of(apps@) =~= target.take(0));
    for i in 0..executables.len()
        invariant
            target == path_entries(texts(executables@), texts(gui@)),
            entries_of(apps@) == target.take(i as int),
    {
        let name = executables[i].as_str();
        let entry = AppEntry {
            name: executables[i].clone(),
            category: "CLI".to_owned(),
            exec_line: executables[i].clone(),
            terminal: !holds(&gui, name),
            comment: String::new(),
        };
        proof {
            assert(entry@.comment =~= Seq::<char>::empty());
            assert(entry@ == path_entry(name@, texts(gui@)));
            lemma_entries_push(apps@, entry);
            assert(target.take(i + 1) =~= target.take(i as int).push(entry@));
        }
        apps.push(entry);
    }
    assert(target.take(target.len() as int) == target);
    let mut categories: Vec<String> = Vec::new();
    categories.push("CLI".to_owned());
    assert(texts(categories@) =~= seq!["CLI"@]);
    (categories, apps)
}

/// What the single pane lists, before it is put in order.
pub open spec fn single_pane_source(
    mode: SinglePaneMode,
    executables: Seq<Seq<char>>,
    entries: Seq<Entry>,
) -> (Seq<Seq<char>>, Seq<Entry>) {
    match mode {
        SinglePaneMode::DesktopApps => (category_list(entries), entries),
        SinglePaneMode::Dmenu => (seq!["CLI"@], path_entries(executables, gui_binaries(entries))),
    }
}

/// What the single pane lists, by name, with its categories.
pub fn load_for_mode(
    mode: SinglePaneMode,
    executables: &Vec<String>,
    storage: &Storage,
    overrides: &TextMap<String>,
) -> (r: (Vec<String>, Vec<AppEntry>))
    ensures
        texts(r.0@) == single_pane_source(
            mode,
            texts(executables@),
            storage@.entries(menu_names(overrides@)),
        ).0,
        entries_of(r.1@) == by_name(
            single_pane_source(
                mode,
                texts(executables@),
                storage@.entries(menu_names(overrides@)),
            ).1,
        ),
{
    let (categories, apps) = match mode {
        SinglePaneMode::DesktopApps => load_desktop_apps(storage, overrides),
        SinglePaneMode::Dmenu => load_from_path(executables, storage, overrides),
    };
    let names = entry_names(&apps);
    let order = lowercase_order(&names);
    let sorted = pick_entries(&apps, &order);
    (categories, sorted)
}

/// The single pane lists each of its entries once, in the order of the
/// lower-case forms of their names, and entries of equal names in their order.
pub proof fn entries_are_listed_by_name(apps: Seq<Entry>)
    ensures
        by_name(apps).len() == apps.len(),
        forall|i: int| 0 <= i < apps.len() ==> by_name(apps).contains(#[trigger] apps[i]),
        forall|i: int, j: int|
            0 <= i < j < apps.len() ==> !lex_less(
                lowercase((#[trigger] by_name(apps)[j]).name),
                lowercase((#[trigger] by_name(apps)[i]).name),
            ),
{
    let ranks = text_ranks(all_lowercase(names_of(apps)));
    let order = ranked(ranks);
    let sorted = by_name(apps);
    ranking_is_a_stable_sort(ranks);
    assert forall|i: int| 0 <= i < apps.len() implies sorted.contains(#[trigger] apps[i]) by {
        assert(order.contains(i));
        let k = choose|k: int| 0 <= k < order.len() && order[k] == i;
        assert(sorted[k] == apps[i]);
    }
    assert forall|i: int, j: int| 0 <= i < j < apps.len() implies !lex_less(
        lowercase((#[trigger] sorted[j]).name),
        lowercase((#[trigger] sorted[i]).name),
    ) by {
        assert(!outranks(ranks[order[j]], ranks[order[i]]));
    }
}

/// Those of some categories that are there are there.
proof fn lemma_present(categories: Seq<Seq<char>>, apps: Seq<Entry>)
    ensures
        forall|c: Seq<char>| #[trigger]
            present(categories, apps).contains(c) <==> categories.contains(c) && has_category(
                apps,
                c,
            ),
    decreases categories.len(),
{
    if categories.len() > 0 {
        let rest = categories.drop_last();
        lemma_present(rest, apps);
        let before = present(rest, apps);
        assert(categories =~= rest.push(categories.last()));
        assert forall|c: Seq<char>| #[trigger]
            present(categories, apps).contains(c) <==> categories.contains(c) && has_category(
                apps,
                c,
            ) by {
            lemma_push_contains(rest, categories.last(), c);
            lemma_push_contains(before, categories.last(), c);
        }
    }
}

/// The other categories are those of the apps that are not among the known
/// ones, each once.
proof fn lemma_extra_categories(apps: Seq<Entry>)
    ensures
        extra_categories(apps).no_duplicates(),
        forall|c: Seq<char>| #[trigger]
            extra_categories(apps).contains(c) <==> !known_categories().contains(c)
                && has_category(apps, c),
    decreases apps.len(),
{
    if apps.len() > 0 {
        let rest = apps.drop_last();
        let last = apps.last().category;
        lemma_extra_categories(rest);
        let before = extra_categories(rest);
        assert forall|c: Seq<char>| #[trigger]
            extra_categories(apps).contains(c) <==> !known_categories().contains(c)
                && has_category(apps, c) by {
            lemma_push_contains(before, last, c);
            if has_category(rest, c) {
                let i = choose|i: int| 0 <= i < rest.len() && (#[trigger] rest[i]).category == c;
                assert(apps[i].category == c);
            }
            if has_category(apps, c) && c != last {
                let i = choose|i: int| 0 <= i < apps.len() && (#[trigger] apps[i]).category == c;
                assert(rest[i].category == c);
            }
            assert(apps[apps.len() - 1].category == last);
        }
    }
}

/// The list of categories begins with the recent apps and goes on with the
/// categories of the apps and no others: first the known ones in their order,
/// then all others by the lower-case forms of their names.
pub proof fn all_categories_are_listed(apps: Seq<Entry>)
    ensures
        category_list(apps)[0] == "Recent"@,
        forall|c: Seq<char>| #[trigger]
            category_list(apps).skip(1).contains(c) <==> has_category(apps, c),
        forall|i: int, j: int|
            present(known_categories(), apps).len() < i < j < category_list(apps).len()
                ==> !lex_less(
                lowercase(#[trigger] category_list(apps)[j]),
                lowercase(#[trigger] category_list(apps)[i]),
            ),
{
    let known = present(known_categories(), apps);
    let extra = extra_categories(apps);
    let ranks = text_ranks(all_lowercase(extra));
    let order = ranked(ranks);
    let sorted = by_lowercase(extra);
    let list = category_list(apps);
    lemma_present(known_categories(), apps);
    lemma_extra_categories(apps);
    ranking_is_a_stable_sort(ranks);
    assert(list.skip(1) =~= known + sorted);
    assert forall|c: Seq<char>| #[trigger] list.skip(1).contains(c) <==> has_category(
        apps,
        c,
    ) by {
        let rest = known + sorted;
        if rest.contains(c) {
            let k = choose|k: int| 0 <= k < rest.len() && rest[k] == c;
            if k < known.len() {
                assert(known.contains(known[k]));
            } else {
                assert(sorted[k - known.len()] == extra[order[k - known.len()]]);
                assert(extra.contains(c));
            }
        }
        if has_category(apps, c) {
            if known_categories().contains(c) {
                assert(known.contains(c));
                let k = choose|k: int| 0 <= k < known.len() && known[k] == c;
                assert(rest[k] == c);
            } else {
                assert(extra.contains(c));
                let m = choose|m: int| 0 <= m < extra.len() && extra[m] == c;
                assert(order.contains(m));
                let k = choose|k: int| 0 <= k < order.len() && order[k] == m;
                assert(sorted[k] == c);
                assert(rest[known.len() + k] == c);
            }
        }
    }
    assert forall|i: int, j: int| known.len() < i < j < list.len() implies !lex_less(
        lowercase(#[trigger] list[j]),
        lowercase(#[trigger] list[i]),
    ) by {
        let a = i - 1 - known.len();
        let b = j - 1 - known.len();
        assert(list[i] == sorted[a] && list[j] == sorted[b]);
        assert(!outranks(ranks[order[b]], ranks[order[a]]));
    }
}

/// The categories with a fixed place stand right behind the recent apps, in
/// this order: utilities, development, network, audio and video, graphics,
/// system, office, games, education and settings. All others stand behind them.
pub proof fn known_categories_keep_their_places(apps: Seq<Entry>, i: int, j: int)
    requires
        0 < i < j < category_list(apps).len(),
    ensures
        ({
            let fixed = seq![
                "Utilities"@,
                "Development"@,
                "Network"@,
                "Audio/Video"@,
                "Graphics"@,
                "System"@,
                "Office"@,
                "Games"@,
                "Education"@,
                "Settings"@,
            ];
            let list = category_list(apps);
            fixed.contains(list[j]) ==> exists|x: int, y: int|
                0 <= x < y < fixed.len() && #[trigger] fixed[x] == list[i] && #[trigger] fixed[y]
                    == list[j]
        }),
{
    let fixed = known_categories();
    let list = category_list(apps);
    let known = present(fixed, apps);
    let extra = extra_categories(apps);
    let sorted = by_lowercase(extra);
    let ranks = text_ranks(all_lowercase(extra));
    let order = ranked(ranks);
    assert(list =~= seq!["Recent"@] + (known + sorted));
    lemma_extra_categories(apps);
    ranking_is_a_stable_sort(ranks);
    if fixed.contains(list[j]) {
        if j - 1 >= known.len() {
            assert(sorted[j - 1 - known.len()] == extra[order[j - 1 - known.len()]]);
            assert(extra.contains(list[j]));
            assert(false);
        }
        let places = lemma_present_places(fixed, apps);
        assert(list[i] == known[i - 1] && list[j] == known[j - 1]);
        let x = places[i - 1];
        let y = places[j - 1];
        assert(x < y);
        assert(fixed[x] == list[i] && fixed[y] == list[j]);
    }
}

/// The places of the categories that are there.
proof fn lemma_present_places(categories: Seq<Seq<char>>, apps: Seq<Entry>) -> (places: Seq<int>)
    ensures
        places.len() == present(categories, apps).len(),
        forall|i: int, j: int| 0 <= i < j < places.len() ==> #[trigger] places[i]
            < #[trigger] places[j],
        forall|i: int|
            0 <= i < places.len() ==> 0 <= #[trigger] places[i] < categories.len()
                && categories[places[i]] == present(categories, apps)[i],
    decreases categories.len(),
{
    if categories.len() == 0 {
        Seq::empty()
    } else {
        let rest = categories.drop_last();
        let before = lemma_present_places(rest, apps);
        if has_category(apps, categories.last()) {
            let places = before.push(categories.len() - 1);
            assert forall|i: int| 0 <= i < places.len() implies 0 <= #[trigger] places[i]
                < categories.len() && categories[places[i]] == present(categories, apps)[i] by {
                if i < before.len() {
                    assert(places[i] == before[i]);
                    assert(rest[before[i]] == categories[places[i]]);
                }
            }
            assert forall|i: int, j: int| 0 <= i < j < places.len() implies #[trigger] places[i]
                < #[trigger] places[j] by {
                assert(places[i] == before[i]);
                if j < before.len() {
                    assert(places[j] == before[j]);
                }
            }
            places
        } else {
            assert forall|i: int| 0 <= i < before.len() implies 0 <= #[trigger] before[i]
                < categories.len() && categories[before[i]] == present(categories, apps)[i] by {
                assert(rest[before[i]] == categories[before[i]]);
            }
            before
        }
    }
}

/// The programs that entries without a terminal start are the file names of the
/// first words of their command lines.
proof fn lemma_gui_binaries(apps: Seq<Entry>)
    ensures
        forall|name: Seq<char>| #[trigger]
            gui_binaries(apps).contains(name) <==> exists|i: int|
                0 <= i < apps.len() && !(#[trigger] apps[i]).terminal && words(
                    apps[i].exec_line,
                ).len() > 0 && file_name_of(words(apps[i].exec_line)[0]) == Some(name),
    decreases apps.len(),
{
    if apps.len() > 0 {
        let rest = apps.drop_last();
        lemma_gui_binaries(rest);
        let before = gui_binaries(rest);
        let last = apps.last();
        assert forall|name: Seq<char>| #[trigger]
            gui_binaries(apps).contains(name) <==> exists|i: int|
                0 <= i < apps.len() && !(#[trigger] apps[i]).terminal && words(
                    apps[i].exec_line,
                ).len() > 0 && file_name_of(words(apps[i].exec_line)[0]) == Some(name) by {
            if let Some(program) = gui_binary(last) {
                lemma_push_contains(before, program, name);
            }
            if before.contains(name) {
                let i = choose|i: int|
                    0 <= i < rest.len() && !(#[trigger] rest[i]).terminal && words(
                        rest[i].exec_line,
                    ).len() > 0 && file_name_of(words(rest[i].exec_line)[0]) == Some(name);
                assert(apps[i] == rest[i]);
            }
            if exists|i: int|
                0 <= i < apps.len() && !(#[trigger] apps[i]).terminal && words(
                    apps[i].exec_line,
                ).len() > 0 && file_name_of(words(apps[i].exec_line)[0]) == Some(name) {
                let i = choose|i: int|
                    0 <= i < apps.len() && !(#[trigger] apps[i]).terminal && words(
                        apps[i].exec_line,
                    ).len() > 0 && file_name_of(words(apps[i].exec_line)[0]) == Some(name);
                if i < rest.len() {
                    assert(rest[i] == apps[i]);
                }
            }
            assert(apps[apps.len() - 1] == last);
        }
    }
}

/// The executables are listed under the category `CLI`, each under its own name
/// and started by it. One runs without a terminal if and only if an installed
/// app that needs none starts a program of that name.
pub proof fn executables_are_listed_by_their_names(
    executables: Seq<Seq<char>>,
    entries: Seq<Entry>,
    i: int,
)
    requires
        0 <= i < executables.len(),
    ensures
        ({
            let listed = single_pane_source(SinglePaneMode::Dmenu, executables, entries);
            &&& listed.0 == seq!["CLI"@]
            &&& listed.1.len() == executables.len()
            &&& listed.1[i].name == executables[i]
            &&& listed.1[i].exec_line == executables[i]
            &&& listed.1[i].category == "CLI"@
            &&& !listed.1[i].terminal <==> exists|k: int|
                0 <= k < entries.len() && !(#[trigger] entries[k]).terminal && words(
                    entries[k].exec_line,
                ).len() > 0 && file_name_of(words(entries[k].exec_line)[0]) == Some(
                    executables[i],
                )
        }),
        single_pane_source(SinglePaneMode::DesktopApps, executables, entries).1 == entries,
{
    lemma_gui_binaries(entries);
}

} // verus!
