//! What holds of desktop files, whatever they say.

use vstd::prelude::*;

use crate::desktop::{
    any_running, bucket, cleaned, desktop_app, field_codes, filled, lemma_code_removed,
    lower_categories, never_before, without_code, without_codes, Said,
};
use crate::text::{first_of, lemma_push_contains, lowercase, pieces, trimmed};
use crate::text_laws::the_first_place_has_the_character;

verus! {

/// Whether a line begins a group.
pub open spec fn heads(line: Seq<char>) -> bool {
    trimmed(line).len() > 0 && trimmed(line)[0] == '['
}

/// Whether a line stands in the desktop entry's own group: the last line before
/// it that begins a group begins that one.
pub open spec fn in_own_group(lines: Seq<Seq<char>>, k: int) -> bool {
    exists|h: int|
        0 <= h < k && trimmed(#[trigger] lines[h]) == "[Desktop Entry]"@ && forall|j: int|
            h < j < k ==> !heads(#[trigger] lines[j])
}

/// Whether a line gives a value to a key at its first `=`, and the key is not
/// given for one language.
pub open spec fn assigns_at(
    line: Seq<char>,
    key: Seq<char>,
    value: Seq<char>,
    at: int,
) -> bool {
    let t = trimmed(line);
    &&& 0 <= at < t.len()
    &&& t[at] == '='
    &&& forall|i: int| 0 <= i < at ==> #[trigger] t[i] != '=' && t[i] != '['
    &&& trimmed(t.take(at)) == key
    &&& trimmed(t.skip(at + 1)) == value
}

/// Whether a line of the desktop entry's own group gives a value to a key.
pub open spec fn gives(
    lines: Seq<Seq<char>>,
    k: int,
    key: Seq<char>,
    value: Seq<char>,
) -> bool {
    &&& 0 <= k < lines.len()
    &&& in_own_group(lines, k)
    &&& exists|at: int| #[trigger] assigns_at(lines[k], key, value, at)
}

/// Whether a value is the last one that some lines give to a key.
pub open spec fn is_last_value(
    lines: Seq<Seq<char>>,
    key: Seq<char>,
    value: Seq<char>,
) -> bool {
    exists|k: int| #[trigger]
        gives(lines, k, key, value) && forall|j: int, other: Seq<char>|
            k < j ==> !#[trigger] gives(lines, j, key, other)
}

/// Whether some lines give no value to a key.
pub open spec fn is_never_given(lines: Seq<Seq<char>>, key: Seq<char>) -> bool {
    forall|j: int, value: Seq<char>| !#[trigger] gives(lines, j, key, value)
}

/// Whether a list of desktops names one of those that are running.
pub open spec fn names_running(list: Seq<char>, running: Seq<Seq<char>>) -> bool {
    exists|i: int|
        0 <= i < pieces(list, ';').len() && trimmed(#[trigger] pieces(list, ';')[i]).len() > 0
            && running.contains(lowercase(trimmed(pieces(list, ';')[i])))
}

/// The last value of a key among the first lines.
spec fn latest(lines: Seq<Seq<char>>, n: int, key: Seq<char>) -> Option<Seq<char>>
    decreases n,
{
    if n <= 0 {
        None
    } else if exists|value: Seq<char>| #[trigger] gives(lines, n - 1, key, value) {
        Some(choose|value: Seq<char>| #[trigger] gives(lines, n - 1, key, value))
    } else {
        latest(lines, n - 1, key)
    }
}

/// The last value of a key, if there is one, is the last one that is given.
proof fn lemma_latest(lines: Seq<Seq<char>>, n: int, key: Seq<char>)
    requires
        0 <= n <= lines.len(),
    ensures
        match latest(lines, n, key) {
            Some(value) => exists|k: int|
                0 <= k < n && #[trigger] gives(lines, k, key, value) && forall|
                    j: int,
                    other: Seq<char>,
                |
                    k < j < n ==> !#[trigger] gives(lines, j, key, other),
            None => forall|j: int, other: Seq<char>|
                0 <= j < n ==> !#[trigger] gives(lines, j, key, other),
        },
    decreases n,
{
    if n > 0 {
        lemma_latest(lines, n - 1, key);
        if exists|value: Seq<char>| #[trigger] gives(lines, n - 1, key, value) {
            let value = latest(lines, n, key)->0;
            assert(gives(lines, n - 1, key, value));
        } else if let Some(value) = latest(lines, n - 1, key) {
            let k = choose|k: int|
                0 <= k < n - 1 && #[trigger] gives(lines, k, key, value) && forall|
                    j: int,
                    other: Seq<char>,
                |
                    k < j < n - 1 ==> !#[trigger] gives(lines, j, key, other);
            assert(0 <= k < n && gives(lines, k, key, value));
        }
    }
}

/// A line gives a key at most one value.
proof fn lemma_one_value(lines: Seq<Seq<char>>, k: int, key: Seq<char>, a: Seq<char>, b: Seq<char>)
    requires
        gives(lines, k, key, a),
        gives(lines, k, key, b),
    ensures
        a == b,
{
    let x = choose|x: int| #[trigger] assigns_at(lines[k], key, a, x);
    let y = choose|y: int| #[trigger] assigns_at(lines[k], key, b, y);
    let t = trimmed(lines[k]);
    if x < y {
        assert(t[x] != '=');
    } else if y < x {
        assert(t[y] != '=');
    }
}

/// The last value of a key is found among all lines.
proof fn lemma_latest_is_last(lines: Seq<Seq<char>>, key: Seq<char>)
    ensures
        forall|value: Seq<char>| #[trigger]
            is_last_value(lines, key, value) <==> latest(lines, lines.len() as int, key) == Some(
                value,
            ),
        is_never_given(lines, key) <==> latest(lines, lines.len() as int, key) is None,
{
    let n = lines.len() as int;
    lemma_latest(lines, n, key);
    if let Some(found) = latest(lines, n, key) {
        let k = choose|k: int|
            0 <= k < n && #[trigger] gives(lines, k, key, found) && forall|
                j: int,
                other: Seq<char>,
            |
                k < j < n ==> !#[trigger] gives(lines, j, key, other);
        assert(is_last_value(lines, key, found)) by {
            assert(gives(lines, k, key, found));
        }
        assert forall|value: Seq<char>| #[trigger]
            is_last_value(lines, key, value) implies value == found by {
            let m = choose|m: int| #[trigger]
                gives(lines, m, key, value) && forall|j: int, other: Seq<char>|
                    m < j ==> !#[trigger] gives(lines, j, key, other);
            if m < k {
                assert(!gives(lines, k, key, found));
            } else if k < m {
                assert(!gives(lines, m, key, value));
            }
            lemma_one_value(lines, k, key, found, value);
        }
    }
}

/// What is known after the first lines.
spec fn known(lines: Seq<Seq<char>>, n: int) -> Said {
    Said::nothing().after_all(lines.take(n))
}

/// What one more line adds.
proof fn lemma_known(lines: Seq<Seq<char>>, n: int)
    requires
        0 < n <= lines.len(),
    ensures
        known(lines, n) == known(lines, n - 1).after(lines[n - 1]),
{
    assert(lines.take(n).drop_last() =~= lines.take(n - 1));
    assert(lines.take(n).last() == lines[n - 1]);
}

/// Whether the lines so far end in the desktop entry's own group.
proof fn lemma_in_entry(lines: Seq<Seq<char>>, n: int)
    requires
        0 <= n <= lines.len(),
    ensures
        known(lines, n).in_entry <==> in_own_group(lines, n),
    decreases n,
{
    if n == 0 {
        assert(lines.take(0) =~= Seq::<Seq<char>>::empty());
    } else {
        lemma_known(lines, n);
        lemma_in_entry(lines, n - 1);
        let line = lines[n - 1];
        reveal_strlit("[Desktop Entry]");
        if heads(line) {
            if trimmed(line) == "[Desktop Entry]"@ {
                assert(in_own_group(lines, n)) by {
                    assert(trimmed(lines[n - 1]) == "[Desktop Entry]"@);
                }
            } else if in_own_group(lines, n) {
                let h = choose|h: int|
                    0 <= h < n && trimmed(#[trigger] lines[h]) == "[Desktop Entry]"@ && forall|
                        j: int,
                    |
                        h < j < n ==> !heads(#[trigger] lines[j]);
                assert(h < n - 1);
                assert(!heads(lines[n - 1]));
            }
        } else {
            assert(trimmed(line) == "[Desktop Entry]"@ ==> heads(line));
            if in_own_group(lines, n - 1) {
                let h = choose|h: int|
                    0 <= h < n - 1 && trimmed(#[trigger] lines[h]) == "[Desktop Entry]"@ && forall|
                        j: int,
                    |
                        h < j < n - 1 ==> !heads(#[trigger] lines[j]);
                assert forall|j: int| h < j < n implies !heads(#[trigger] lines[j]) by {}
                assert(in_own_group(lines, n));
            }
            if in_own_group(lines, n) {
                let h = choose|h: int|
                    0 <= h < n && trimmed(#[trigger] lines[h]) == "[Desktop Entry]"@ && forall|
                        j: int,
                    |
                        h < j < n ==> !heads(#[trigger] lines[j]);
                assert(h < n - 1);
                assert(in_own_group(lines, n - 1));
            }
            the_first_place_has_the_character(trimmed(line), '=');
            assert(known(lines, n).in_entry == known(lines, n - 1).in_entry) by {
                lemma_set_keeps_group(known(lines, n - 1), line);
            }
        }
    }
}

/// A line that begins no group leaves the group.
proof fn lemma_set_keeps_group(said: Said, line: Seq<char>)
    requires
        !heads(line),
    ensures
        said.after(line).in_entry == said.in_entry,
{
}

/// What a line does: if it gives a value to a key, that key is set, and if it
/// gives none, nothing but the group changes.
proof fn lemma_line(lines: Seq<Seq<char>>, n: int) -> (set: Option<(Seq<char>, Seq<char>)>)
    requires
        0 < n <= lines.len(),
    ensures
        match set {
            Some((key, value)) => {
                &&& gives(lines, n - 1, key, value)
                &&& known(lines, n) == known(lines, n - 1).set(key, value)
                &&& forall|other: Seq<char>, w: Seq<char>| #[trigger]
                    gives(lines, n - 1, other, w) ==> other == key && w == value
            },
            None => {
                &&& known(lines, n) == (Said {
                    in_entry: known(lines, n).in_entry,
                    ..known(lines, n - 1)
                })
                &&& forall|other: Seq<char>, w: Seq<char>|
                    !#[trigger] gives(lines, n - 1, other, w)
            },
        },
{
    lemma_known(lines, n);
    lemma_in_entry(lines, n - 1);
    let line = lines[n - 1];
    let t = trimmed(line);
    let at = first_of(t, '=');
    let before = known(lines, n - 1);
    the_first_place_has_the_character(t, '=');
    if heads(line) || !before.in_entry || at == t.len() || t.take(at).contains('[') {
        assert forall|other: Seq<char>, w: Seq<char>|
            !#[trigger] gives(lines, n - 1, other, w) by {
            if gives(lines, n - 1, other, w) {
                let y = choose|y: int| #[trigger] assigns_at(line, other, w, y);
                if at < y {
                    assert(t[at] != '=');
                } else if y < at {
                    assert(t[y] != '=');
                }
                assert(y == at);
                if heads(line) && at > 0 {
                    assert(t[0] != '[');
                }
                if t.take(at).contains('[') {
                    let i = choose|i: int| 0 <= i < at && t.take(at)[i] == '[';
                    assert(t[i] == '[');
                }
            }
        }
        None
    } else {
        let key = trimmed(t.take(at));
        let value = trimmed(t.skip(at + 1));
        assert forall|i: int| 0 <= i < at implies #[trigger] t[i] != '=' && t[i] != '[' by {
            assert(t.take(at)[i] == t[i]);
        }
        assert(assigns_at(line, key, value, at));
        assert(gives(lines, n - 1, key, value));
        assert forall|other: Seq<char>, w: Seq<char>| #[trigger]
            gives(lines, n - 1, other, w) implies other == key && w == value by {
            let y = choose|y: int| #[trigger] assigns_at(line, other, w, y);
            if at < y {
                assert(t[at] != '=');
            } else if y < at {
                assert(t[y] != '=');
            }
        }
        Some((key, value))
    }
}

/// The keys are different texts.
proof fn lemma_keys()
    ensures
        "Name"@ != "GenericName"@,
        "Name"@ != "Exec"@,
        "Name"@ != "Categories"@,
        "Name"@ != "NoDisplay"@,
        "Name"@ != "Hidden"@,
        "Name"@ != "Terminal"@,
        "Name"@ != "OnlyShowIn"@,
        "Name"@ != "NotShowIn"@,
        "GenericName"@ != "Exec"@,
        "GenericName"@ != "Categories"@,
        "GenericName"@ != "NoDisplay"@,
        "GenericName"@ != "Hidden"@,
        "GenericName"@ != "Terminal"@,
        "GenericName"@ != "OnlyShowIn"@,
        "GenericName"@ != "NotShowIn"@,
        "Exec"@ != "Categories"@,
        "Exec"@ != "NoDisplay"@,
        "Exec"@ != "Hidden"@,
        "Exec"@ != "Terminal"@,
        "Exec"@ != "OnlyShowIn"@,
        "Exec"@ != "NotShowIn"@,
        "Categories"@ != "NoDisplay"@,
        "Categories"@ != "Hidden"@,
        "Categories"@ != "Terminal"@,
        "Categories"@ != "OnlyShowIn"@,
        "Categories"@ != "NotShowIn"@,
        "NoDisplay"@ != "Hidden"@,
        "NoDisplay"@ != "Terminal"@,
        "NoDisplay"@ != "OnlyShowIn"@,
        "NoDisplay"@ != "NotShowIn"@,
        "Hidden"@ != "Terminal"@,
        "Hidden"@ != "OnlyShowIn"@,
        "Hidden"@ != "NotShowIn"@,
        "Terminal"@ != "OnlyShowIn"@,
        "Terminal"@ != "NotShowIn"@,
        "OnlyShowIn"@ != "NotShowIn"@,
{
    reveal_strlit("Name");
    reveal_strlit("GenericName");
    reveal_strlit("Exec");
    reveal_strlit("Categories");
    reveal_strlit("NoDisplay");
    reveal_strlit("Hidden");
    reveal_strlit("Terminal");
    reveal_strlit("OnlyShowIn");
    reveal_strlit("NotShowIn");
    assert("Name"@.len() == 4);
    assert("GenericName"@.len() == 11);
    assert("Exec"@.len() == 4);
    assert("Categories"@.len() == 10);
    assert("NoDisplay"@.len() == 9);
    assert("Hidden"@.len() == 6);
    assert("Terminal"@.len() == 8);
    assert("OnlyShowIn"@.len() == 10);
    assert("NotShowIn"@.len() == 9);
    assert("Name"@[0] != "Exec"@[0]);
    assert("Categories"@[0] != "OnlyShowIn"@[0]);
    assert("NoDisplay"@[2] != "NotShowIn"@[2]);
}

/// The desktops in a list, where there is one.
spec fn listed(value: Option<Seq<char>>) -> Option<Seq<Seq<char>>> {
    match value {
        Some(list) => Some(filled(pieces(list, ';'))),
        None => None,
    }
}

/// What is known after some lines is what they give last to each key; a true
/// `Hidden` counts wherever it stands.
proof fn lemma_known_values(lines: Seq<Seq<char>>, n: int)
    requires
        0 <= n <= lines.len(),
    ensures
        known(lines, n).name == latest(lines, n, "Name"@),
        known(lines, n).generic_name == latest(lines, n, "GenericName"@),
        known(lines, n).exec_line == latest(lines, n, "Exec"@),
        known(lines, n).categories == latest(lines, n, "Categories"@),
        known(lines, n).no_display == (latest(lines, n, "NoDisplay"@) == Some("true"@)),
        known(lines, n).terminal == (latest(lines, n, "Terminal"@) == Some("true"@)),
        known(lines, n).only_show_in == listed(latest(lines, n, "OnlyShowIn"@)),
        known(lines, n).not_show_in == listed(latest(lines, n, "NotShowIn"@)),
        known(lines, n).hidden <==> exists|k: int|
            0 <= k < n && #[trigger] gives(lines, k, "Hidden"@, "true"@),
    decreases n,
{
    lemma_keys();
    if n == 0 {
        assert(lines.take(0) =~= Seq::<Seq<char>>::empty());
    } else {
        lemma_known_values(lines, n - 1);
        let set = lemma_line(lines, n);
        if let Some((key, value)) = set {
            assert(latest(lines, n, key) == Some(value));
            assert forall|other: Seq<char>| other != key implies #[trigger] latest(lines, n, other)
                == latest(lines, n - 1, other) by {}
            if key == "Hidden"@ && value == "true"@ {
                assert(gives(lines, n - 1, "Hidden"@, "true"@));
            }
        } else {
            assert forall|other: Seq<char>| #[trigger] latest(lines, n, other) == latest(
                lines,
                n - 1,
                other,
            ) by {}
        }
        if exists|k: int| 0 <= k < n && #[trigger] gives(lines, k, "Hidden"@, "true"@) {
            let k = choose|k: int| 0 <= k < n && #[trigger] gives(lines, k, "Hidden"@, "true"@);
            if k == n - 1 {
                assert(set == Some(("Hidden"@, "true"@)));
            }
        }
    }
}

/// The filled parts of a list are its parts without the white space around
/// them, but for the empty ones.
pub proof fn filled_parts_are_trimmed(parts: Seq<Seq<char>>)
    ensures
        forall|x: Seq<char>| #[trigger]
            filled(parts).contains(x) <==> x.len() > 0 && exists|i: int|
                0 <= i < parts.len() && trimmed(#[trigger] parts[i]) == x,
    decreases parts.len(),
{
    if parts.len() > 0 {
        let rest = parts.drop_last();
        let before = filled(rest);
        let part = trimmed(parts.last());
        filled_parts_are_trimmed(rest);
        assert forall|x: Seq<char>| #[trigger] filled(parts).contains(x) <==> x.len() > 0
            && exists|i: int| 0 <= i < parts.len() && trimmed(#[trigger] parts[i]) == x by {
            lemma_push_contains(before, part, x);
            if x.len() > 0 && exists|i: int|
                0 <= i < rest.len() && trimmed(#[trigger] rest[i]) == x {
                let i = choose|i: int| 0 <= i < rest.len() && trimmed(#[trigger] rest[i]) == x;
                assert(trimmed(parts[i]) == x);
            }
            if exists|i: int| 0 <= i < parts.len() && trimmed(#[trigger] parts[i]) == x {
                let i = choose|i: int| 0 <= i < parts.len() && trimmed(#[trigger] parts[i]) == x;
                if i < rest.len() {
                    assert(trimmed(rest[i]) == x);
                }
            }
            assert(trimmed(parts[parts.len() - 1]) == part);
        }
    }
}

/// A list of desktops names a running one if and only if one of its tokens
/// does.
proof fn lemma_names_running(list: Seq<char>, running: Seq<Seq<char>>)
    ensures
        any_running(filled(pieces(list, ';')), running) <==> names_running(list, running),
{
    let parts = pieces(list, ';');
    let names = filled(parts);
    filled_parts_are_trimmed(parts);
    if any_running(names, running) {
        let i = choose|i: int| 0 <= i < names.len() && running.contains(lowercase(
            #[trigger] names[i],
        ));
        assert(names.contains(names[i]));
        let k = choose|k: int| 0 <= k < parts.len() && trimmed(#[trigger] parts[k]) == names[i];
        assert(running.contains(lowercase(trimmed(parts[k]))));
    }
    if names_running(list, running) {
        let k = choose|k: int|
            0 <= k < parts.len() && trimmed(#[trigger] parts[k]).len() > 0 && running.contains(
                lowercase(trimmed(parts[k])),
            );
        assert(names.contains(trimmed(parts[k])));
        let i = choose|i: int| 0 <= i < names.len() && names[i] == trimmed(parts[k]);
        assert(running.contains(lowercase(names[i])));
    }
}

/// The name of an app is the value of the last `Name` line of the desktop
/// entry's own group, and that of the last `GenericName` line only where no
/// `Name` line is there.
pub proof fn the_last_name_is_the_name(
    content: Seq<char>,
    running: Seq<Seq<char>>,
    value: Seq<char>,
)
    requires
        desktop_app(content, running) is Some,
    ensures
        is_last_value(pieces(content, '\n'), "Name"@, value) ==> desktop_app(
            content,
            running,
        )->0.name == value,
        is_never_given(pieces(content, '\n'), "Name"@) && is_last_value(
            pieces(content, '\n'),
            "GenericName"@,
            value,
        ) ==> desktop_app(content, running)->0.name == value,
{
    let lines = pieces(content, '\n');
    assert(lines.take(lines.len() as int) =~= lines);
    lemma_known_values(lines, lines.len() as int);
    lemma_latest_is_last(lines, "Name"@);
    lemma_latest_is_last(lines, "GenericName"@);
}

/// The command of an app is the value of the last `Exec` line without its field
/// codes. The app runs in a terminal if and only if the last `Terminal` line
/// says `true`. Its category is found from the last `Categories` line, which is
/// kept, and from nothing where there is no such line.
pub proof fn the_last_lines_say_how_an_app_runs(
    content: Seq<char>,
    running: Seq<Seq<char>>,
    value: Seq<char>,
)
    requires
        desktop_app(content, running) is Some,
    ensures
        ({
            let lines = pieces(content, '\n');
            let app = desktop_app(content, running)->0;
            &&& is_last_value(lines, "Exec"@, value) ==> app.exec_line == cleaned(value)
            &&& app.terminal <==> is_last_value(lines, "Terminal"@, "true"@)
            &&& is_last_value(lines, "Categories"@, value) ==> app.raw_categories == value
            &&& is_never_given(lines, "Categories"@) ==> app.raw_categories.len() == 0
            &&& app.category == bucket(lower_categories(app.raw_categories), app.name)
        }),
{
    let lines = pieces(content, '\n');
    assert(lines.take(lines.len() as int) =~= lines);
    lemma_known_values(lines, lines.len() as int);
    lemma_latest_is_last(lines, "Exec"@);
    lemma_latest_is_last(lines, "Terminal"@);
    lemma_latest_is_last(lines, "Categories"@);
}

/// A file gives an app if and only if its desktop entry's own group gives a
/// name and a command, the last `NoDisplay` does not say `true`, no `Hidden`
/// does, the last `OnlyShowIn` names a running desktop if there is one, and the
/// last `NotShowIn` names none.
pub proof fn apps_are_given_unless_kept_back(content: Seq<char>, running: Seq<Seq<char>>)
    ensures
        ({
            let lines = pieces(content, '\n');
            desktop_app(content, running) is Some <==> {
                &&& !is_never_given(lines, "Name"@) || !is_never_given(lines, "GenericName"@)
                &&& !is_never_given(lines, "Exec"@)
                &&& !is_last_value(lines, "NoDisplay"@, "true"@)
                &&& forall|k: int| !#[trigger] gives(lines, k, "Hidden"@, "true"@)
                &&& forall|list: Seq<char>| #[trigger]
                    is_last_value(lines, "OnlyShowIn"@, list) ==> names_running(list, running)
                &&& forall|list: Seq<char>| #[trigger]
                    is_last_value(lines, "NotShowIn"@, list) ==> !names_running(list, running)
            }
        }),
{
    let lines = pieces(content, '\n');
    let n = lines.len() as int;
    assert(lines.take(n) =~= lines);
    lemma_known_values(lines, n);
    lemma_latest_is_last(lines, "Name"@);
    lemma_latest_is_last(lines, "GenericName"@);
    lemma_latest_is_last(lines, "Exec"@);
    lemma_latest_is_last(lines, "NoDisplay"@);
    lemma_latest_is_last(lines, "OnlyShowIn"@);
    lemma_latest_is_last(lines, "NotShowIn"@);
    let said = known(lines, n);
    assert(said == Said::nothing().after_all(lines));
    let only = latest(lines, n, "OnlyShowIn"@);
    let not = latest(lines, n, "NotShowIn"@);
    if only is Some {
        lemma_names_running(only->0, running);
        assert(is_last_value(lines, "OnlyShowIn"@, only->0));
    }
    if not is Some {
        lemma_names_running(not->0, running);
        assert(is_last_value(lines, "NotShowIn"@, not->0));
    }
    assert((exists|k: int| 0 <= k < n && #[trigger] gives(lines, k, "Hidden"@, "true"@))
        <==> !(forall|k: int| !#[trigger] gives(lines, k, "Hidden"@, "true"@)));
}

/// A text without `%` has no field code to lose.
proof fn lemma_no_code(s: Seq<char>, code: char)
    requires
        !s.contains('%'),
    ensures
        without_code(s, code) == s,
    decreases s.len(),
{
    if s.len() > 0 {
        assert(s[0] != '%');
        let rest = s.skip(1);
        assert forall|i: int| 0 <= i < rest.len() implies rest[i] != '%' by {
            assert(rest[i] == s[i + 1]);
        }
        lemma_no_code(rest, code);
        assert(seq![s[0]] + rest =~= s);
    }
}

/// A text without `%` before another text has no field code to lose with it.
proof fn lemma_code_behind(a: Seq<char>, b: Seq<char>, code: char)
    requires
        !a.contains('%'),
    ensures
        without_code(a + b, code) == a + without_code(b, code),
    decreases a.len(),
{
    if a.len() == 0 {
        assert(a + b =~= b);
        assert(a + without_code(b, code) =~= without_code(b, code));
    } else {
        assert(a[0] != '%');
        let rest = a.skip(1);
        assert forall|i: int| 0 <= i < rest.len() implies rest[i] != '%' by {
            assert(rest[i] == a[i + 1]);
        }
        lemma_code_behind(rest, b, code);
        assert((a + b).skip(1) =~= rest + b);
        assert(seq![a[0]] + (rest + without_code(b, code)) =~= a + without_code(b, code));
    }
}

/// Without `%` nothing is lost, whatever codes are taken out.
proof fn lemma_no_codes(s: Seq<char>, codes: Seq<char>)
    requires
        !s.contains('%'),
    ensures
        without_codes(s, codes) == s,
    decreases codes.len(),
{
    if codes.len() > 0 {
        lemma_no_codes(s, codes.drop_last());
        lemma_no_code(s, codes.last());
    }
}

/// A `%` with one more character is lost if and only if it is one of the codes.
proof fn lemma_one_code(a: Seq<char>, c: char, b: Seq<char>, codes: Seq<char>)
    requires
        !a.contains('%'),
        !b.contains('%'),
        c != '%',
    ensures
        codes.contains(c) ==> without_codes(a + seq!['%', c] + b, codes) == a + b,
        !codes.contains(c) ==> without_codes(a + seq!['%', c] + b, codes) == a + seq!['%', c] + b,
    decreases codes.len(),
{
    let s = a + seq!['%', c] + b;
    if codes.len() > 0 {
        let rest = codes.drop_last();
        let code = codes.last();
        lemma_one_code(a, c, b, rest);
        lemma_push_contains(rest, code, c);
        assert(codes =~= rest.push(code));
        if rest.contains(c) {
            assert forall|i: int| 0 <= i < (a + b).len() implies (a + b)[i] != '%' by {
                if i < a.len() {
                    assert(a[i] != '%');
                } else {
                    assert(b[i - a.len()] != '%');
                }
            }
            lemma_no_code(a + b, code);
        } else {
            let tail = seq!['%', c] + b;
            assert(s =~= a + tail);
            lemma_code_behind(a, tail, code);
            lemma_no_code(b, code);
            if c == code {
                assert(tail.skip(2) =~= b);
            } else {
                let behind = seq![c] + b;
                assert(tail.skip(1) =~= behind);
                assert forall|i: int| 0 <= i < behind.len() implies behind[i] != '%' by {
                    if i > 0 {
                        assert(b[i - 1] != '%');
                    }
                }
                lemma_no_code(behind, code);
                assert(seq!['%'] + behind =~= tail);
            }
        }
    }
}

/// A command keeps all but its field codes: without `%` only the white space
/// around it goes, and a `%` with one of the letters `fFuUdDnNickvm` behind it
/// goes from between two such texts, while any other stays.
pub proof fn commands_lose_their_field_codes_alone(a: Seq<char>, c: char, b: Seq<char>)
    requires
        !a.contains('%'),
        !b.contains('%'),
        c != '%',
    ensures
        cleaned(a) == trimmed(a),
        "fFuUdDnNickvm"@.contains(c) ==> cleaned(a + seq!['%', c] + b) == trimmed(a + b),
        !"fFuUdDnNickvm"@.contains(c) ==> cleaned(a + seq!['%', c] + b) == trimmed(
            a + seq!['%', c] + b,
        ),
{
    reveal_strlit("fFuUdDnNickvm");
    assert("fFuUdDnNickvm"@ =~= field_codes());
    lemma_no_codes(a, field_codes());
    lemma_one_code(a, c, b, field_codes());
}

/// Taking out a field code leaves no `%` at the end, if there was none and none
/// stood before another.
proof fn lemma_code_at_the_end(s: Seq<char>, code: char)
    requires
        never_before(s, '%', '%'),
        s.len() > 0 ==> s.last() != '%',
    ensures
        without_code(s, code).len() > 0 ==> without_code(s, code).last() != '%',
        without_code(s, code).len() == 0 && s.len() > 0 ==> s[0] == '%',
    decreases s.len(),
{
    if s.len() >= 2 && s[0] == '%' && s[1] == code {
        let rest = s.skip(2);
        lemma_behind_never_before(s, 2);
        lemma_code_at_the_end(rest, code);
    } else if s.len() > 0 {
        let rest = s.skip(1);
        lemma_behind_never_before(s, 1);
        lemma_code_at_the_end(rest, code);
        let tail = without_code(rest, code);
        if tail.len() == 0 && rest.len() > 0 {
            assert(rest[0] == s[1]);
            assert(s[0] != '%');
        }
        assert(without_code(s, code) == seq![s[0]] + tail);
    }
}

/// What stands behind in a text has no more pairs of characters than the text.
proof fn lemma_behind_never_before(s: Seq<char>, from: int)
    requires
        0 <= from <= s.len(),
        never_before(s, '%', '%'),
    ensures
        never_before(s.skip(from), '%', '%'),
{
    let part = s.skip(from);
    assert forall|i: int| 0 <= i < part.len() - 1 && #[trigger] part[i] == '%' implies part[i + 1]
        != '%' by {
        assert(s[from + i] == '%');
        assert(s[from + i + 1] == part[i + 1]);
    }
}

/// A field code is taken out of two texts as out of the two as one, if the
/// first one does not end in the middle of a code.
proof fn lemma_code_in_both(a: Seq<char>, b: Seq<char>, code: char)
    requires
        never_before(a, '%', '%'),
        a.len() > 0 ==> a.last() != '%',
    ensures
        without_code(a + b, code) == without_code(a, code) + without_code(b, code),
    decreases a.len(),
{
    let s = a + b;
    if a.len() == 0 {
        assert(s =~= b);
        assert(without_code(a, code) + without_code(b, code) =~= without_code(b, code));
    } else if a.len() >= 2 && a[0] == '%' && a[1] == code {
        lemma_behind_never_before(a, 2);
        lemma_code_in_both(a.skip(2), b, code);
        assert(s.skip(2) =~= a.skip(2) + b);
    } else {
        lemma_behind_never_before(a, 1);
        lemma_code_in_both(a.skip(1), b, code);
        assert(s.skip(1) =~= a.skip(1) + b);
        assert(!(s.len() >= 2 && s[0] == '%' && s[1] == code));
        assert(seq![a[0]] + (without_code(a.skip(1), code) + without_code(b, code)) =~= (seq![a[0]]
            + without_code(a.skip(1), code)) + without_code(b, code));
    }
}

/// Field codes are taken out wherever they stand: out of two texts as out of
/// the two as one, if no `%` of the first one stands before another or at its
/// end.
pub proof fn field_codes_go_wherever_they_stand(a: Seq<char>, b: Seq<char>)
    requires
        never_before(a, '%', '%'),
        a.len() > 0 ==> a.last() != '%',
    ensures
        without_codes(a + b, field_codes()) == without_codes(a, field_codes()) + without_codes(
            b,
            field_codes(),
        ),
        cleaned(a + b) == trimmed(
            without_codes(a, field_codes()) + without_codes(b, field_codes()),
        ),
{
    lemma_codes_in_both(a, b, field_codes());
}

/// Some field codes are taken out of two texts as out of the two as one.
proof fn lemma_codes_in_both(a: Seq<char>, b: Seq<char>, codes: Seq<char>)
    requires
        never_before(a, '%', '%'),
        a.len() > 0 ==> a.last() != '%',
    ensures
        without_codes(a + b, codes) == without_codes(a, codes) + without_codes(b, codes),
        never_before(without_codes(a, codes), '%', '%'),
        without_codes(a, codes).len() > 0 ==> without_codes(a, codes).last() != '%',
    decreases codes.len(),
{
    if codes.len() > 0 {
        let rest = codes.drop_last();
        let code = codes.last();
        lemma_codes_in_both(a, b, rest);
        let x = without_codes(a, rest);
        lemma_code_in_both(x, without_codes(b, rest), code);
        lemma_code_removed(x, code, code);
        lemma_code_at_the_end(x, code);
    }
}

} // verus!
