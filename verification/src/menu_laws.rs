//! What holds of menu fragments, whatever they hold.

use vstd::prelude::*;

use crate::desktop_laws::{heads, in_own_group};
use crate::menu::{
    a_menu_takes_its_categories, directory_name, first_name, keys_of, merged, shown_menu,
    the_first_key_with_a_menu_decides, with_menu, with_menus, MenuEntry, Naming, OpenMenu, Progress,
    ReadMenu, Token,
};
use crate::storage::{row_entry, Row};
use crate::text::{begins, lowercase, pieces, trimmed};

verus! {

/// An element that holds a text, as it is read.
pub open spec fn element(name: Seq<char>, text: Seq<char>) -> Seq<Token> {
    seq![Token::Start(name), Token::Text(Some(text)), Token::End(name)]
}

/// Some categories, as they are read.
pub open spec fn category_tokens(categories: Seq<Seq<char>>) -> Seq<Token>
    decreases categories.len(),
{
    if categories.len() == 0 {
        Seq::empty()
    } else {
        category_tokens(categories.drop_last()) + element("Category"@, categories.last())
    }
}

/// A menu with a name, the file that names it if there is one, and the
/// categories that it includes, as it is read.
pub open spec fn menu_tokens(
    name: Seq<char>,
    directory: Option<Seq<char>>,
    categories: Seq<Seq<char>>,
) -> Seq<Token> {
    seq![Token::Start("Menu"@)] + element("Name"@, name) + (match directory {
        Some(file) => element("Directory"@, file),
        None => Seq::empty(),
    }) + seq![Token::Start("Include"@)] + category_tokens(categories) + seq![
        Token::End("Include"@),
        Token::End("Menu"@),
    ]
}

/// Reading one list of tokens after another is reading the two as one.
proof fn lemma_tokens_concat(p: Progress, a: Seq<Token>, b: Seq<Token>)
    ensures
        p.after_all(a + b) == p.after_all(a).after_all(b),
    decreases b.len(),
{
    if b.len() == 0 {
        assert(a + b =~= a);
    } else {
        assert((a + b).drop_last() =~= a + b.drop_last());
        lemma_tokens_concat(p, a, b.drop_last());
    }
}

/// Reading one token.
proof fn lemma_one_token(p: Progress, t: Token)
    ensures
        p.after_all(seq![t]) == p.after(t),
{
    let one = seq![t];
    assert(one.drop_last() =~= Seq::<Token>::empty());
    assert(p.after_all(one.drop_last()) == p);
}

/// Reading an element that holds a text.
proof fn lemma_element(p: Progress, name: Seq<char>, text: Seq<char>)
    ensures
        p.after_all(element(name, text)) == p.opened(name).after(Token::Text(Some(text))).closed(
            name,
        ),
{
    let start = seq![Token::Start(name)];
    let middle = seq![Token::Text(Some(text))];
    let end = seq![Token::End(name)];
    assert(element(name, text) =~= start + middle + end);
    lemma_tokens_concat(p, start + middle, end);
    lemma_tokens_concat(p, start, middle);
    lemma_one_token(p, Token::Start(name));
    lemma_one_token(p.opened(name), Token::Text(Some(text)));
    lemma_one_token(p.opened(name).after(Token::Text(Some(text))), Token::End(name));
}

/// The names of elements that menus go by are different texts.
proof fn lemma_names()
    ensures
        "Menu"@ != "Name"@,
        "Menu"@ != "Directory"@,
        "Menu"@ != "Include"@,
        "Menu"@ != "Category"@,
        "Name"@ != "Directory"@,
        "Name"@ != "Include"@,
        "Name"@ != "Category"@,
        "Directory"@ != "Include"@,
        "Directory"@ != "Category"@,
        "Include"@ != "Category"@,
{
    reveal_strlit("Menu");
    reveal_strlit("Name");
    reveal_strlit("Directory");
    reveal_strlit("Include");
    reveal_strlit("Category");
    assert("Menu"@.len() == 4);
    assert("Name"@.len() == 4);
    assert("Directory"@.len() == 9);
    assert("Include"@.len() == 7);
    assert("Category"@.len() == 8);
    assert("Menu"@[0] != "Name"@[0]);
}

/// Categories that are included are taken in, one after another.
proof fn lemma_categories(p: Progress, categories: Seq<Seq<char>>)
    requires
        p.open.len() > 0,
        p.open.last().in_include,
        p.text.len() == 0,
    ensures
        p.after_all(category_tokens(categories)) == p.with_top(
            OpenMenu {
                categories: p.open.last().categories + categories.map_values(
                    |c: Seq<char>| trimmed(c),
                ),
                ..p.open.last()
            },
        ),
    decreases categories.len(),
{
    let top = p.open.last();
    if categories.len() == 0 {
        assert(top.categories + categories.map_values(|c: Seq<char>| trimmed(c))
            =~= top.categories);
        assert(p.open.drop_last().push(top) =~= p.open);
        assert(p.text =~= Seq::<char>::empty());
    } else {
        lemma_names();
        let rest = categories.drop_last();
        let last = categories.last();
        lemma_categories(p, rest);
        let mid = p.after_all(category_tokens(rest));
        lemma_tokens_concat(p, category_tokens(rest), element("Category"@, last));
        lemma_element(mid, "Category"@, last);
        let opened = mid.opened("Category"@);
        assert(opened.path.drop_last() =~= mid.path);
        assert(Seq::<char>::empty() + last =~= last);
        let before = top.categories + rest.map_values(|c: Seq<char>| trimmed(c));
        assert(before.push(trimmed(last)) =~= top.categories + categories.map_values(
            |c: Seq<char>| trimmed(c),
        ));
        assert(mid.open.drop_last() =~= p.open.drop_last());
        let after = p.after_all(category_tokens(categories));
        assert(after.open =~= p.open.drop_last().push(
            OpenMenu { categories: before.push(trimmed(last)), ..top },
        ));
        assert(after.text =~= p.text);
    }
}

/// A menu is read as it was written, without the white space around its name,
/// the name of its file and its categories. One that includes no category is
/// passed over.
pub proof fn a_menu_is_read_as_it_is_written(
    p: Progress,
    name: Seq<char>,
    directory: Option<Seq<char>>,
    categories: Seq<Seq<char>>,
)
    ensures
        p.after_all(menu_tokens(name, directory, categories)) == (Progress {
            text: Seq::empty(),
            menus: if categories.len() == 0 {
                p.menus
            } else {
                p.menus.push(
                    ReadMenu {
                        name: Some(trimmed(name)),
                        directory: match directory {
                            Some(file) => Some(trimmed(file)),
                            None => None,
                        },
                        categories: categories.map_values(|c: Seq<char>| trimmed(c)),
                    },
                )
            },
            ..p
        }),
{
    lemma_names();
    let nothing = Seq::<char>::empty();
    let t1 = seq![Token::Start("Menu"@)];
    let t2 = element("Name"@, name);
    let t3 = match directory {
        Some(file) => element("Directory"@, file),
        None => Seq::empty(),
    };
    let t4 = seq![Token::Start("Include"@)];
    let t5 = category_tokens(categories);
    let t6 = seq![Token::End("Include"@), Token::End("Menu"@)];
    lemma_tokens_concat(p, t1 + t2 + t3 + t4 + t5, t6);
    lemma_tokens_concat(p, t1 + t2 + t3 + t4, t5);
    lemma_tokens_concat(p, t1 + t2 + t3, t4);
    lemma_tokens_concat(p, t1 + t2, t3);
    lemma_tokens_concat(p, t1, t2);
    lemma_one_token(p, Token::Start("Menu"@));
    let p1 = p.after_all(t1);
    let top1 = OpenMenu::blank();
    assert(p1.open.last() == top1);
    lemma_element(p1, "Name"@, name);
    let p2 = p1.after_all(t2);
    let top2 = OpenMenu { name: Some(trimmed(name)), ..top1 };
    assert(nothing + name =~= name);
    assert(p1.opened("Name"@).path.drop_last() =~= p1.path);
    assert(p2.open =~= p.open.push(top2));
    assert(p2.path == p1.path);
    let p3 = p2.after_all(t3);
    let top3 = OpenMenu {
        directory: match directory {
            Some(file) => Some(trimmed(file)),
            None => None,
        },
        ..top2
    };
    if let Some(file) = directory {
        lemma_element(p2, "Directory"@, file);
        assert(nothing + file =~= file);
        assert(p2.opened("Directory"@).path.drop_last() =~= p2.path);
    }
    assert(p3.open =~= p.open.push(top3));
    assert(p3.path == p1.path);
    lemma_one_token(p3, Token::Start("Include"@));
    let p4 = p3.after_all(t4);
    let top4 = OpenMenu { in_include: true, ..top3 };
    assert(p4.open =~= p.open.push(top4));
    lemma_categories(p4, categories);
    let p5 = p4.after_all(t5);
    let taken = categories.map_values(|c: Seq<char>| trimmed(c));
    assert(top4.categories + taken =~= taken);
    let top5 = OpenMenu { categories: taken, ..top4 };
    assert(p5.open =~= p.open.push(top5));
    let e1 = seq![Token::End("Include"@)];
    let e2 = seq![Token::End("Menu"@)];
    assert(t6 =~= e1 + e2);
    lemma_tokens_concat(p5, e1, e2);
    lemma_one_token(p5, Token::End("Include"@));
    let p6 = p5.after_all(e1);
    assert(p6.open =~= p.open.push(OpenMenu { in_include: false, ..top5 }));
    assert(p6.path =~= p1.path);
    lemma_one_token(p6, Token::End("Menu"@));
    let p7 = p6.after_all(e2);
    assert(p7.open =~= p.open);
    assert(p7.path =~= p.path);
    assert(p7.text =~= nothing);
}

/// An element with another name, a category outside of an `Include`, and a name
/// or a file that do not stand right inside a menu say nothing of the menu.
pub proof fn other_elements_say_nothing(p: Progress, name: Seq<char>, text: Seq<char>)
    requires
        name != "Menu"@,
        name != "Include"@,
        name == "Category"@ ==> p.open.len() == 0 || !p.open.last().in_include,
        name == "Name"@ || name == "Directory"@ ==> p.path.len() == 0 || p.path.last() != "Menu"@,
    ensures
        p.after_all(element(name, text)) == (Progress { text: Seq::empty(), ..p }),
{
    lemma_names();
    lemma_element(p, name, text);
    let opened = p.opened(name);
    assert(opened.path.drop_last() =~= p.path);
    if p.open.len() > 0 {
        assert(p.open.drop_last().push(p.open.last()) =~= p.open);
    }
    assert(p.after_all(element(name, text)).open =~= p.open);
}

/// A menu is shown under the name that its file gives, if it has a file that
/// gives one, and else under its own. The categories that it includes then lead
/// to it, whatever their case and white space around them. A menu without a
/// name changes nothing.
pub proof fn a_menu_is_shown_under_the_name_of_its_file(
    m: Map<Seq<char>, Seq<char>>,
    menu: ReadMenu,
    contents: Seq<Option<String>>,
    i: int,
)
    requires
        0 <= i < menu.categories.len(),
        lowercase(trimmed(menu.categories[i])).len() > 0,
    ensures
        ({
            let key = lowercase(trimmed(menu.categories[i]));
            let after = with_menu(m, menu, contents);
            &&& menu.directory is Some && first_name(contents) is Some ==> after.contains_key(key)
                && after[key] == first_name(contents)->0
            &&& (menu.directory is None || first_name(contents) is None) && menu.name is Some
                ==> after.contains_key(key) && after[key] == menu.name->0
            &&& (menu.directory is None || first_name(contents) is None) && menu.name is None
                ==> after == m
        }),
{
    if let Some(shown) = shown_menu(menu, contents) {
        a_menu_takes_its_categories(m, menu.categories, shown);
        assert(lowercase(trimmed(menu.categories[i])).len() > 0);
    }
}

/// Of some files, the first one that can be read and gives a name gives it.
pub proof fn the_first_file_with_a_name_counts(contents: Seq<Option<String>>, at: int)
    requires
        0 <= at <= contents.len(),
        forall|j: int|
            0 <= j < at ==> (#[trigger] contents[j]) is None || directory_name(
                contents[j]->0@,
            ) is None,
    ensures
        at == contents.len() ==> first_name(contents) is None,
        at < contents.len() && contents[at] is Some && directory_name(contents[at]->0@) is Some
            ==> first_name(contents) == directory_name(contents[at]->0@),
    decreases contents.len(),
{
    if at > 0 {
        let rest = contents.drop_first();
        assert(contents[0] is None || directory_name(contents[0]->0@) is None);
        assert forall|j: int| 0 <= j < at - 1 implies (#[trigger] rest[j]) is None
            || directory_name(rest[j]->0@) is None by {
            assert(rest[j] == contents[j + 1]);
        }
        the_first_file_with_a_name_counts(rest, at - 1);
    }
}

/// Whether a line of a directory file's own group gives a name.
pub open spec fn names_menu(lines: Seq<Seq<char>>, k: int) -> bool {
    &&& 0 <= k < lines.len()
    &&& in_own_group(lines, k)
    &&& begins(trimmed(lines[k]), "Name="@)
}

/// What is known after the first lines of a directory file.
spec fn named(lines: Seq<Seq<char>>, n: int) -> Naming {
    Naming { in_entry: false, name: None }.after_all(lines.take(n))
}

/// As long as no line has given a name, the group is that of the last line that
/// began one.
proof fn lemma_group(lines: Seq<Seq<char>>, n: int)
    requires
        0 <= n <= lines.len(),
        forall|j: int| 0 <= j < n ==> !#[trigger] names_menu(lines, j),
    ensures
        named(lines, n).name is None,
        named(lines, n).in_entry <==> in_own_group(lines, n),
    decreases n,
{
    if n == 0 {
        assert(lines.take(0) =~= Seq::<Seq<char>>::empty());
    } else {
        lemma_group(lines, n - 1);
        assert(lines.take(n).drop_last() =~= lines.take(n - 1));
        assert(lines.take(n).last() == lines[n - 1]);
        assert(!names_menu(lines, n - 1));
        reveal_strlit("[Desktop Entry]");
        let line = lines[n - 1];
        if heads(line) {
            if trimmed(line) == "[Desktop Entry]"@ {
                assert(trimmed(lines[n - 1]) == "[Desktop Entry]"@);
            } else if in_own_group(lines, n) {
                let h = choose|h: int|
                    0 <= h < n && trimmed(#[trigger] lines[h]) == "[Desktop Entry]"@ && forall|
                        j: int,
                    |
                        h < j < n ==> !heads(#[trigger] lines[j]);
                assert(h < n - 1);
                assert(!heads(lines[n - 1]));
            }
        } else {
            assert(trimmed(line) == "[Desktop Entry]"@ ==> heads(line));
            if in_own_group(lines, n - 1) {
                let h = choose|h: int|
                    0 <= h < n - 1 && trimmed(#[trigger] lines[h]) == "[Desktop Entry]"@ && forall|
                        j: int,
                    |
                        h < j < n - 1 ==> !heads(#[trigger] lines[j]);
                assert forall|j: int| h < j < n implies !heads(#[trigger] lines[j]) by {}
                assert(in_own_group(lines, n));
            }
            if in_own_group(lines, n) {
                let h = choose|h: int|
                    0 <= h < n && trimmed(#[trigger] lines[h]) == "[Desktop Entry]"@ && forall|
                        j: int,
                    |
                        h < j < n ==> !heads(#[trigger] lines[j]);
                assert(h < n - 1);
                assert(in_own_group(lines, n - 1));
            }
        }
    }
}

/// A name that was found stays.
proof fn lemma_named_stays(lines: Seq<Seq<char>>, n: int, m: int)
    requires
        0 <= n <= m <= lines.len(),
        named(lines, n).name is Some,
    ensures
        named(lines, m).name == named(lines, n).name,
    decreases m - n,
{
    if n < m {
        lemma_named_stays(lines, n, m - 1);
        assert(lines.take(m).drop_last() =~= lines.take(m - 1));
    }
}

/// A directory file gives what stands behind `Name=` in the first such line of
/// its own group, without the white space around it, and nothing without such a
/// line.
pub proof fn the_first_name_line_names_the_menu(content: Seq<char>, at: int, name: Seq<char>)
    requires
        0 <= at <= pieces(content, '\n').len(),
        forall|j: int| 0 <= j < at ==> !#[trigger] names_menu(pieces(content, '\n'), j),
        at < pieces(content, '\n').len() ==> in_own_group(pieces(content, '\n'), at) && trimmed(
            pieces(content, '\n')[at],
        ) == "Name="@ + name,
    ensures
        directory_name(content) == if at < pieces(content, '\n').len() {
            Some(trimmed(name))
        } else {
            None
        },
{
    let lines = pieces(content, '\n');
    let n = lines.len() as int;
    lemma_group(lines, at);
    assert(lines.take(n) =~= lines);
    if at < n {
        reveal_strlit("Name=");
        let line = trimmed(lines[at]);
        assert(lines.take(at + 1).drop_last() =~= lines.take(at));
        assert(lines.take(at + 1).last() == lines[at]);
        assert(line.take("Name="@.len() as int) =~= "Name="@);
        assert(line.skip("Name="@.len() as int) =~= name);
        assert(line[0] == "Name="@[0]);
        assert(named(lines, at + 1).name == Some(trimmed(name)));
        lemma_named_stays(lines, at + 1, n);
    }
}

/// An app is shown under the menu of the first of its tokens that has one,
/// whatever the case of the token and the white space around it, and without
/// such a token under its own category. All else is as the row says.
pub proof fn the_first_token_with_a_menu_routes_the_app(
    row: Row,
    overrides: Map<Seq<char>, Seq<char>>,
    at: int,
)
    requires
        0 <= at <= pieces(row.app.raw_categories, ';').len(),
        forall|j: int|
            0 <= j < at ==> {
                let key = lowercase(trimmed(#[trigger] pieces(row.app.raw_categories, ';')[j]));
                key.len() == 0 || !overrides.contains_key(key)
            },
        at < pieces(row.app.raw_categories, ';').len() ==> {
            let key = lowercase(trimmed(pieces(row.app.raw_categories, ';')[at]));
            key.len() > 0 && overrides.contains_key(key)
        },
    ensures
        row_entry(row, overrides).category == if at < pieces(row.app.raw_categories, ';').len() {
            overrides[lowercase(trimmed(pieces(row.app.raw_categories, ';')[at]))]
        } else {
            row.app.category
        },
        row_entry(row, overrides).name == row.app.name,
        row_entry(row, overrides).exec_line == row.app.exec_line,
        row_entry(row, overrides).terminal == row.app.terminal,
{
    let tokens = pieces(row.app.raw_categories, ';');
    let keys = keys_of(tokens);
    assert forall|j: int| 0 <= j < at implies (#[trigger] keys[j]).len() == 0
        || !overrides.contains_key(keys[j]) by {
        assert(keys[j] == lowercase(trimmed(tokens[j])));
    }
    the_first_key_with_a_menu_decides(keys, overrides, at);
}

/// The menu that is taken in last wins: after all fragments, its categories
/// lead to it.
pub proof fn the_last_menu_wins(
    fragments: Seq<Option<Vec<(MenuEntry, Vec<Option<String>>)>>>,
    menus: Vec<(MenuEntry, Vec<Option<String>>)>,
    i: int,
)
    requires
        fragments.len() > 0,
        fragments.last() == Some(menus),
        menus@.len() > 0,
        menus@.last().0.name is Some,
        menus@.last().0.directory is None,
        0 <= i < menus@.last().0@.categories.len(),
        lowercase(trimmed(menus@.last().0@.categories[i])).len() > 0,
    ensures
        merged(fragments).contains_key(lowercase(trimmed(menus@.last().0@.categories[i]))),
        merged(fragments)[lowercase(trimmed(menus@.last().0@.categories[i]))]
            == menus@.last().0.name->0@,
{
    let before = with_menus(merged(fragments.drop_last()), menus@.drop_last());
    a_menu_is_shown_under_the_name_of_its_file(
        before,
        menus@.last().0@,
        menus@.last().1@,
        i,
    );
}

/// Whether one of some menus includes a category under a key.
pub open spec fn any_includes(
    menus: Seq<(MenuEntry, Vec<Option<String>>)>,
    key: Seq<char>,
) -> bool {
    exists|k: int, i: int|
        0 <= k < menus.len() && 0 <= i < menus[k].0@.categories.len() && lowercase(
            trimmed(#[trigger] menus[k].0@.categories[i]),
        ) == key
}

/// Menus leave where a key leads that none of them includes.
proof fn lemma_menus_leave_others(
    m: Map<Seq<char>, Seq<char>>,
    menus: Seq<(MenuEntry, Vec<Option<String>>)>,
    key: Seq<char>,
)
    requires
        !any_includes(menus, key),
    ensures
        with_menus(m, menus).contains_key(key) <==> m.contains_key(key),
        m.contains_key(key) ==> with_menus(m, menus)[key] == m[key],
    decreases menus.len(),
{
    if menus.len() > 0 {
        let rest = menus.drop_last();
        let last = menus.last();
        if any_includes(rest, key) {
            let (k, i) = choose|k: int, i: int|
                0 <= k < rest.len() && 0 <= i < rest[k].0@.categories.len() && lowercase(
                    trimmed(#[trigger] rest[k].0@.categories[i]),
                ) == key;
            assert(menus[k] == rest[k]);
            assert(lowercase(trimmed(menus[k].0@.categories[i])) == key);
        }
        lemma_menus_leave_others(m, rest, key);
        let before = with_menus(m, rest);
        let categories = last.0@.categories;
        assert forall|i: int| 0 <= i < categories.len() implies lowercase(
            trimmed(#[trigger] categories[i]),
        ) != key by {
            assert(menus[menus.len() - 1].0@.categories[i] == categories[i]);
        }
        if let Some(shown) = shown_menu(last.0@, last.1@) {
            a_menu_takes_its_categories(before, categories, shown);
            assert(with_menu(before, last.0@, last.1@).contains_key(key) <==> before.contains_key(
                key,
            ));
        }
    }
}

/// A further fragment leaves where a key leads that none of its menus includes,
/// and without fragments no key leads anywhere.
pub proof fn a_further_fragment_leaves_other_keys(
    fragments: Seq<Option<Vec<(MenuEntry, Vec<Option<String>>)>>>,
    menus: Vec<(MenuEntry, Vec<Option<String>>)>,
    key: Seq<char>,
)
    requires
        !any_includes(menus@, key),
    ensures
        merged(fragments.push(Some(menus))).contains_key(key) <==> merged(fragments).contains_key(
            key,
        ),
        merged(fragments).contains_key(key) ==> merged(fragments.push(Some(menus)))[key] == merged(
            fragments,
        )[key],
        merged(Seq::<Option<Vec<(MenuEntry, Vec<Option<String>>)>>>::empty()) == Map::<
            Seq<char>,
            Seq<char>,
        >::empty(),
{
    assert(fragments.push(Some(menus)).drop_last() =~= fragments);
    lemma_menus_leave_others(merged(fragments), menus@, key);
}

} // verus!
