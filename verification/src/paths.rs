//! Paths as texts, and the directories that the environment names.

use vstd::prelude::*;

use crate::text::{
    begins, chars_of, concat, ends_with, finishes, lemma_push_contains, lemma_texts_push, lowercase,
    pieces, split, starts_with, string_of, texts, to_lowercase, trim, trimmed,
};

verus! {

/// A path below another one; a path from the root stands for itself.
pub open spec fn joined(base: Seq<char>, rest: Seq<char>) -> Seq<char> {
    if begins(rest, "/"@) {
        rest
    } else if base.len() == 0 || base.last() == '/' {
        base + rest
    } else {
        base + "/"@ + rest
    }
}

/// A path below another one.
pub fn join(base: &str, rest: &str) -> (r: String)
    ensures
        r@ == joined(base@, rest@),
{
    let v = chars_of(base);
    if starts_with(rest, "/") {
        rest.to_owned()
    } else if v.len() == 0 || v[v.len() - 1] == '/' {
        concat(base, rest)
    } else {
        let with_slash = concat(base, "/");
        concat(with_slash.as_str(), rest)
    }
}

/// Whether a path's last part ends with `ending` and is longer than that.
pub open spec fn has_ending(path: Seq<char>, ending: Seq<char>) -> bool {
    &&& finishes(path, ending)
    &&& path.len() > ending.len()
    &&& path[path.len() - ending.len() - 1] != '/'
}

/// Whether a path's last part ends with `ending` and is longer than that.
pub fn ends_in(path: &str, ending: &str) -> (r: bool)
    ensures
        r == has_ending(path@, ending@),
{
    let v = chars_of(path);
    let n = chars_of(ending);
    ends_with(path, ending) && v.len() > n.len() && v[v.len() - n.len() - 1] != '/'
}

/// A text without the slashes that it ends with.
pub open spec fn without_slashes(s: Seq<char>) -> Seq<char>
    decreases s.len(),
{
    if s.len() > 0 && s.last() == '/' {
        without_slashes(s.drop_last())
    } else {
        s
    }
}

/// What the paths inside a directory begin with.
pub open spec fn inside(directory: Seq<char>) -> Seq<char> {
    without_slashes(directory) + "/"@
}

/// What the paths inside a directory begin with.
pub fn prefix_inside(directory: &str) -> (r: String)
    ensures
        r@ == inside(directory@),
{
    let v = chars_of(directory);
    let mut to: usize = v.len();
    assert(v@.take(to as int) == v@);
    while to > 0 && v[to - 1] == '/'
        invariant
            to <= v@.len(),
            without_slashes(v@) == without_slashes(v@.take(to as int)),
        decreases to,
    {
        assert(v@.take(to as int).last() == v@[to - 1]);
        assert(v@.take(to as int).drop_last() == v@.take(to - 1));
        to = to - 1;
    }
    assert(to > 0 ==> v@.take(to as int).last() == v@[to - 1]);
    assert(v@.subrange(0, to as int) =~= v@.take(to as int));
    let base = string_of(&v, 0, to);
    concat(base.as_str(), "/")
}

/// The number of characters before the last part of a path.
pub open spec fn last_part_at(s: Seq<char>) -> int
    decreases s.len(),
{
    if s.len() == 0 || s.last() == '/' {
        s.len() as int
    } else {
        last_part_at(s.drop_last())
    }
}

/// The name of the file that a path leads to: its last part, where slashes at
/// the end and parts `.` behind another part do not count. A path that ends in
/// `..`, and one without a part, lead to no file.
pub open spec fn file_name_of(s: Seq<char>) -> Option<Seq<char>>
    decreases s.len(),
{
    if s.len() == 0 {
        None
    } else if s.last() == '/' {
        file_name_of(s.drop_last())
    } else {
        let at = last_part_at(s);
        let part = s.skip(at);
        if part == "."@ && 0 < at < s.len() {
            file_name_of(s.take(at))
        } else if part == "."@ || part == ".."@ {
            None
        } else {
            Some(part)
        }
    }
}

/// The last part begins inside the text.
proof fn lemma_last_part(s: Seq<char>)
    ensures
        0 <= last_part_at(s) <= s.len(),
        last_part_at(s) > 0 ==> s[last_part_at(s) - 1] == '/',
    decreases s.len(),
{
    if s.len() > 0 && s.last() != '/' {
        lemma_last_part(s.drop_last());
    }
}

/// The name of the file that a path leads to.
pub fn file_name(path: &str) -> (r: Option<String>)
    ensures
        match r {
            Some(name) => file_name_of(path@) == Some(name@),
            None => file_name_of(path@) is None,
        },
{
    let v = chars_of(path);
    let mut to: usize = v.len();
    assert(v@.take(to as int) == v@);
    while to > 0
        invariant
            to <= v@.len(),
            v@ == path@,
            file_name_of(path@) == file_name_of(v@.take(to as int)),
        decreases to,
    {
        let ghost s = v@.take(to as int);
        assert(s.last() == v@[to - 1]);
        if v[to - 1] == '/' {
            assert(s.drop_last() == v@.take(to - 1));
            to = to - 1;
            continue;
        }
        let mut at: usize = to;
        while at > 0 && v[at - 1] != '/'
            invariant
                at <= to <= v@.len(),
                s == v@.take(to as int),
                last_part_at(s) == last_part_at(v@.take(at as int)),
            decreases at,
        {
            assert(v@.take(at as int).last() == v@[at - 1]);
            assert(v@.take(at as int).drop_last() == v@.take(at - 1));
            at = at - 1;
        }
        assert(at > 0 ==> v@.take(at as int).last() == v@[at - 1]);
        assert(last_part_at(s) == at);
        assert(at < to);
        let ghost part = s.skip(at as int);
        assert(v@.subrange(at as int, to as int) =~= part);
        proof {
            reveal_strlit(".");
            reveal_strlit("..");
        }
        if to - at == 1 && v[at] == '.' {
            assert(part =~= "."@);
            if at > 0 {
                assert(s.take(at as int) =~= v@.take(at as int));
                to = at;
                continue;
            }
            return None;
        }
        assert(part == "."@ ==> part.len() == 1 && part[0] == '.');
        if to - at == 2 && v[at] == '.' && v[at + 1] == '.' {
            assert(part =~= ".."@);
            return None;
        }
        assert(part == ".."@ ==> part.len() == 2 && part[0] == '.' && part[1] == '.');
        return Some(string_of(&v, at, to));
    }
    None
}

/// A value that is there and not empty.
pub open spec fn set_to(value: Option<String>) -> Option<Seq<char>> {
    match value {
        Some(v) => if v@.len() == 0 {
            None
        } else {
            Some(v@)
        },
        None => None,
    }
}

/// The first directory of a list: below the directory that the environment
/// names, or else below the user's home.
pub open spec fn home_directory(
    named: Option<String>,
    home: Option<String>,
    below_named: Seq<char>,
    below_home: Seq<char>,
) -> Seq<Seq<char>> {
    match (set_to(named), home) {
        (Some(n), _) => seq![joined(n, below_named)],
        (None, Some(h)) => seq![joined(h@, below_home)],
        (None, None) => Seq::empty(),
    }
}

/// Whether a value is there and not empty.
fn is_set(value: &Option<String>) -> (r: bool)
    ensures
        r == (set_to(*value) is Some),
{
    match value {
        Some(v) => !v.as_str().is_empty(),
        None => false,
    }
}

/// The directories with the user's menu fragments.
pub fn xdg_menu_dirs(config_home: &Option<String>, home: &Option<String>) -> (r: Vec<String>)
    ensures
        texts(r@) == home_directory(
            *config_home,
            *home,
            "menus/applications-merged"@,
            ".config/menus/applications-merged"@,
        ),
{
    let mut out: Vec<String> = Vec::new();
    if is_set(config_home) {
        if let Some(named) = config_home {
            out.push(join(named.as_str(), "menus/applications-merged"));
        }
    } else if let Some(home) = home {
        out.push(join(home.as_str(), ".config/menus/applications-merged"));
    }
    assert(texts(out@) =~= home_directory(
        *config_home,
        *home,
        "menus/applications-merged"@,
        ".config/menus/applications-merged"@,
    ));
    out
}

/// The non-empty parts of a list of directories, each with `rest` joined to
/// it.
pub open spec fn each_joined(parts: Seq<Seq<char>>, rest: Seq<char>) -> Seq<Seq<char>>
    decreases parts.len(),
{
    if parts.len() == 0 {
        Seq::empty()
    } else if parts.last().len() == 0 {
        each_joined(parts.drop_last(), rest)
    } else {
        each_joined(parts.drop_last(), rest).push(joined(parts.last(), rest))
    }
}

/// The system's directories: below those that the environment names, or else
/// the usual ones.
pub open spec fn system_directories(
    named: Option<String>,
    rest: Seq<char>,
    usual: Seq<Seq<char>>,
) -> Seq<Seq<char>> {
    match set_to(named) {
        Some(dirs) => each_joined(pieces(dirs, ':'), rest),
        None => usual,
    }
}

/// The directories with the names of menus.
pub open spec fn directory_entry_dirs(
    data_home: Option<String>,
    home: Option<String>,
    data_dirs: Option<String>,
) -> Seq<Seq<char>> {
    home_directory(data_home, home, "desktop-directories"@, ".local/share/desktop-directories"@)
        + system_directories(
        data_dirs,
        "desktop-directories"@,
        seq!["/usr/local/share/desktop-directories"@, "/usr/share/desktop-directories"@],
    )
}

/// The directories with the names of menus, the user's own one first.
pub fn xdg_directory_entry_dirs(
    data_home: &Option<String>,
    home: &Option<String>,
    data_dirs: &Option<String>,
) -> (r: Vec<String>)
    ensures
        texts(r@) == directory_entry_dirs(*data_home, *home, *data_dirs),
{
    let mut out: Vec<String> = Vec::new();
    if is_set(data_home) {
        if let Some(named) = data_home {
            out.push(join(named.as_str(), "desktop-directories"));
        }
    } else if let Some(home) = home {
        out.push(join(home.as_str(), ".local/share/desktop-directories"));
    }
    let ghost first = texts(out@);
    assert(first =~= home_directory(
        *data_home,
        *home,
        "desktop-directories"@,
        ".local/share/desktop-directories"@,
    ));
    if is_set(data_dirs) {
        if let Some(dirs) = data_dirs {
            let parts = split(dirs.as_str(), ':');
            let ghost all = texts(parts@);
            assert(texts(out@) =~= first + each_joined(all.take(0), "desktop-directories"@));
            for i in 0..parts.len()
                invariant
                    all == texts(parts@),
                    texts(out@) == first + each_joined(all.take(i as int), "desktop-directories"@),
            {
                assert(all.take(i + 1).drop_last() =~= all.take(i as int));
                assert(all.take(i + 1).last() == parts@[i as int]@);
                if !parts[i].as_str().is_empty() {
                    let path = join(parts[i].as_str(), "desktop-directories");
                    proof {
                        lemma_texts_push(out@, path);
                    }
                    out.push(path);
                    assert(texts(out@) =~= first + each_joined(
                        all.take(i + 1),
                        "desktop-directories"@,
                    ));
                }
            }
            assert(all.take(all.len() as int) == all);
        }
    } else {
        out.push("/usr/local/share/desktop-directories".to_owned());
        out.push("/usr/share/desktop-directories".to_owned());
        assert(texts(out@) =~= first + seq![
            "/usr/local/share/desktop-directories"@,
            "/usr/share/desktop-directories"@,
        ]);
    }
    out
}

/// The non-empty parts of a list of directories, each with `/applications`
/// behind it.
pub open spec fn each_with_applications(parts: Seq<Seq<char>>) -> Seq<Seq<char>>
    decreases parts.len(),
{
    if parts.len() == 0 {
        Seq::empty()
    } else if parts.last().len() == 0 {
        each_with_applications(parts.drop_last())
    } else {
        each_with_applications(parts.drop_last()).push(parts.last() + "/applications"@)
    }
}

/// The user's own directory with desktop files.
pub open spec fn own_application_dir(
    data_home: Option<String>,
    home: Option<String>,
) -> Seq<Seq<char>> {
    match (set_to(data_home), home) {
        (Some(d), _) => seq![d + "/applications"@],
        (None, Some(h)) => seq![h@ + "/.local/share/applications"@],
        (None, None) => Seq::empty(),
    }
}

/// The directories with desktop files.
pub open spec fn application_dirs(
    data_home: Option<String>,
    home: Option<String>,
    data_dirs: Option<String>,
) -> Seq<Seq<char>> {
    own_application_dir(data_home, home) + match set_to(data_dirs) {
        Some(dirs) => each_with_applications(pieces(dirs, ':')),
        None => seq!["/usr/local/share/applications"@, "/usr/share/applications"@],
    }
}

/// The directories with desktop files, the user's own one first.
pub fn xdg_application_dirs(
    data_home: &Option<String>,
    home: &Option<String>,
    data_dirs: &Option<String>,
) -> (r: Vec<String>)
    ensures
        texts(r@) == application_dirs(*data_home, *home, *data_dirs),
{
    let mut out: Vec<String> = Vec::new();
    let ghost own = own_application_dir(*data_home, *home);
    if is_set(data_home) {
        if let Some(named) = data_home {
            out.push(concat(named.as_str(), "/applications"));
        }
    } else if let Some(home) = home {
        out.push(concat(home.as_str(), "/.local/share/applications"));
    }
    assert(texts(out@) =~= own);
    if is_set(data_dirs) {
        if let Some(dirs) = data_dirs {
            let parts = split(dirs.as_str(), ':');
            let ghost all = texts(parts@);
            assert(texts(out@) =~= own + each_with_applications(all.take(0)));
            for i in 0..parts.len()
                invariant
                    all == texts(parts@),
                    texts(out@) == own + each_with_applications(all.take(i as int)),
            {
                assert(all.take(i + 1).drop_last() =~= all.take(i as int));
                assert(all.take(i + 1).last() == parts@[i as int]@);
                if !parts[i].as_str().is_empty() {
                    let path = concat(parts[i].as_str(), "/applications");
                    proof {
                        lemma_texts_push(out@, path);
                    }
                    out.push(path);
                    assert(texts(out@) =~= own + each_with_applications(all.take(i + 1)));
                }
            }
            assert(all.take(all.len() as int) == all);
        }
    } else {
        out.push("/usr/local/share/applications".to_owned());
        out.push("/usr/share/applications".to_owned());
        assert(texts(out@) =~= own + seq![
            "/usr/local/share/applications"@,
            "/usr/share/applications"@,
        ]);
    }
    out
}

/// The parts in lower case, without those that are empty then.
pub open spec fn lowered(parts: Seq<Seq<char>>) -> Seq<Seq<char>>
    decreases parts.len(),
{
    if parts.len() == 0 {
        Seq::empty()
    } else {
        let before = lowered(parts.drop_last());
        let part = lowercase(trimmed(parts.last()));
        if part.len() == 0 {
            before
        } else {
            before.push(part)
        }
    }
}

/// The names of the running desktops, in lower case: those of the current
/// desktop, or else of the session.
pub fn current_desktops(
    current_desktop: &Option<String>,
    session: &Option<String>,
) -> (r: Vec<String>)
    ensures
        texts(r@) == lowered(
            pieces(
                match (*current_desktop, *session) {
                    (Some(c), _) => c@,
                    (None, Some(s)) => s@,
                    (None, None) => Seq::empty(),
                },
                ':',
            ),
        ),
{
    let names = match (current_desktop, session) {
        (Some(c), _) => c.clone(),
        (None, Some(s)) => s.clone(),
        (None, None) => String::new(),
    };
    let parts = split(names.as_str(), ':');
    let ghost all = texts(parts@);
    let mut out: Vec<String> = Vec::new();
    assert(texts(out@) =~= lowered(all.take(0)));
    for i in 0..parts.len()
        invariant
            all == texts(parts@),
            texts(out@) == lowered(all.take(i as int)),
    {
        assert(all.take(i + 1).drop_last() =~= all.take(i as int));
        assert(all.take(i + 1).last() == parts@[i as int]@);
        let part = trim(parts[i].as_str());
        let lower = to_lowercase(part.as_str());
        if !lower.as_str().is_empty() {
            proof {
                lemma_texts_push(out@, lower);
            }
            out.push(lower);
        }
    }
    assert(all.take(all.len() as int) == all);
    out
}

/// What paths inside a directory begin with is the directory with all but one
/// of the slashes at its end, or with one where it has none.
pub proof fn a_directory_ends_in_one_slash(name: Seq<char>, slashes: nat)
    requires
        name.len() > 0 ==> name.last() != '/',
    ensures
        inside(name + Seq::new(slashes, |i: int| '/')) == name.push('/'),
    decreases slashes,
{
    let s = name + Seq::new(slashes, |i: int| '/');
    reveal_strlit("/");
    assert("/"@ =~= seq!['/']);
    lemma_without_slashes(name, slashes);
    assert(inside(s) =~= name.push('/'));
}

/// Slashes at the end are taken off.
proof fn lemma_without_slashes(name: Seq<char>, slashes: nat)
    requires
        name.len() > 0 ==> name.last() != '/',
    ensures
        without_slashes(name + Seq::new(slashes, |i: int| '/')) == name,
    decreases slashes,
{
    let s = name + Seq::new(slashes, |i: int| '/');
    if slashes == 0 {
        assert(s =~= name);
    } else {
        let fewer = (slashes - 1) as nat;
        assert(s.drop_last() =~= name + Seq::new(fewer, |i: int| '/'));
        assert(s.last() == '/');
        lemma_without_slashes(name, fewer);
    }
}

/// A path has an ending if and only if it is a path that does not end in a
/// slash, and is not empty, with the ending behind it.
pub proof fn an_ending_follows_a_name(stem: Seq<char>, ending: Seq<char>, path: Seq<char>)
    ensures
        has_ending(stem + ending, ending) <==> stem.len() > 0 && stem.last() != '/',
        has_ending(path, ending) ==> path.len() > ending.len() && path == path.take(
            path.len() - ending.len(),
        ) + ending,
{
    let s = stem + ending;
    assert(s.skip(stem.len() as int) =~= ending);
    if stem.len() > 0 {
        assert(s[stem.len() - 1] == stem.last());
    }
    if has_ending(path, ending) {
        assert(path =~= path.take(path.len() - ending.len()) + path.skip(
            path.len() - ending.len(),
        ));
    }
}

/// A path below a directory is the directory, a slash and the path, with one
/// slash between them; a path from the root stands for itself.
pub proof fn paths_are_joined_with_one_slash(base: Seq<char>, rest: Seq<char>)
    requires
        base.len() > 0,
        base.last() != '/',
    ensures
        rest.len() > 0 && rest[0] == '/' ==> joined(base, rest) == rest,
        !(rest.len() > 0 && rest[0] == '/') ==> joined(base, rest) == base.push('/') + rest
            && joined(base.push('/'), rest) == base.push('/') + rest,
{
    reveal_strlit("/");
    assert("/"@ =~= seq!['/']);
    if rest.len() > 0 {
        assert(rest.take(1) =~= seq![rest[0]]);
        assert(seq!['/'][0] == '/');
        assert(rest.take(1)[0] == rest[0]);
    }
    assert(base + "/"@ + rest =~= base.push('/') + rest);
}

/// The name of a file is what stands behind the last slash of its path, and
/// slashes behind it do not count.
pub proof fn the_last_part_names_the_file(before: Seq<char>, name: Seq<char>, slashes: nat)
    requires
        before.len() > 0 ==> before.last() == '/',
        name.len() > 0,
        !name.contains('/'),
        name != "."@,
        name != ".."@,
    ensures
        file_name_of(before + name + Seq::new(slashes, |i: int| '/')) == Some(name),
    decreases slashes,
{
    let s = before + name + Seq::new(slashes, |i: int| '/');
    if slashes == 0 {
        assert(s =~= before + name);
        assert(s.last() == name.last());
        assert(name[name.len() - 1] != '/');
        lemma_last_part_behind(before, name);
        assert(s.skip(before.len() as int) =~= name);
    } else {
        let fewer = (slashes - 1) as nat;
        assert(s.drop_last() =~= before + name + Seq::new(fewer, |i: int| '/'));
        assert(s.last() == '/');
        the_last_part_names_the_file(before, name, fewer);
    }
}

/// The last part of a path begins behind its last slash.
proof fn lemma_last_part_behind(before: Seq<char>, name: Seq<char>)
    requires
        before.len() > 0 ==> before.last() == '/',
        !name.contains('/'),
    ensures
        last_part_at(before + name) == before.len(),
    decreases name.len(),
{
    let s = before + name;
    if name.len() == 0 {
        assert(s =~= before);
    } else {
        let rest = name.drop_last();
        assert(name[name.len() - 1] != '/');
        assert forall|i: int| 0 <= i < rest.len() implies rest[i] != '/' by {
            assert(rest[i] == name[i]);
        }
        assert(s.drop_last() =~= before + rest);
        lemma_last_part_behind(before, rest);
    }
}

/// The directories with desktop files are, in this order: the one below the
/// user's data directory, or below `.local/share` of the user's home where the
/// environment names none; and those below the system's data directories that
/// the environment names, or the two usual ones.
pub proof fn desktop_files_are_looked_for_in_order(
    data_home: Option<String>,
    home: Option<String>,
    data_dirs: Option<String>,
)
    ensures
        ({
            let dirs = application_dirs(data_home, home, data_dirs);
            let own = if data_home is Some && data_home->0@.len() > 0 || home is Some {
                1int
            } else {
                0
            };
            &&& dirs.len() >= own
            &&& data_home is Some && data_home->0@.len() > 0 ==> dirs[0] == data_home->0@
                + "/applications"@
            &&& !(data_home is Some && data_home->0@.len() > 0) && home is Some ==> dirs[0]
                == home->0@ + "/.local/share/applications"@
            &&& !(data_dirs is Some && data_dirs->0@.len() > 0) ==> dirs.skip(own) == seq![
                "/usr/local/share/applications"@,
                "/usr/share/applications"@,
            ]
            &&& data_dirs is Some && data_dirs->0@.len() > 0 ==> forall|d: Seq<char>| #[trigger]
                dirs.skip(own).contains(d) <==> exists|i: int|
                    0 <= i < pieces(data_dirs->0@, ':').len() && (#[trigger] pieces(
                        data_dirs->0@,
                        ':',
                    )[i]).len() > 0 && d == pieces(data_dirs->0@, ':')[i] + "/applications"@
        }),
{
    let own = own_application_dir(data_home, home);
    let dirs = application_dirs(data_home, home, data_dirs);
    if data_dirs is Some && data_dirs->0@.len() > 0 {
        let parts = pieces(data_dirs->0@, ':');
        lemma_with_applications(parts);
        assert(dirs.skip(own.len() as int) =~= each_with_applications(parts));
    } else {
        assert(dirs.skip(own.len() as int) =~= seq![
            "/usr/local/share/applications"@,
            "/usr/share/applications"@,
        ]);
    }
}

/// Each part that is not empty is there, with `/applications` behind it.
proof fn lemma_with_applications(parts: Seq<Seq<char>>)
    ensures
        forall|d: Seq<char>| #[trigger]
            each_with_applications(parts).contains(d) <==> exists|i: int|
                0 <= i < parts.len() && (#[trigger] parts[i]).len() > 0 && d == parts[i]
                    + "/applications"@,
    decreases parts.len(),
{
    if parts.len() > 0 {
        let rest = parts.drop_last();
        lemma_with_applications(rest);
        let before = each_with_applications(rest);
        let last = parts.last() + "/applications"@;
        assert forall|d: Seq<char>| #[trigger]
            each_with_applications(parts).contains(d) <==> exists|i: int|
                0 <= i < parts.len() && (#[trigger] parts[i]).len() > 0 && d == parts[i]
                    + "/applications"@ by {
            lemma_push_contains(before, last, d);
            if before.contains(d) {
                let i = choose|i: int|
                    0 <= i < rest.len() && (#[trigger] rest[i]).len() > 0 && d == rest[i]
                        + "/applications"@;
                assert(parts[i] == rest[i]);
            }
            if exists|i: int|
                0 <= i < parts.len() && (#[trigger] parts[i]).len() > 0 && d == parts[i]
                    + "/applications"@ {
                let i = choose|i: int|
                    0 <= i < parts.len() && (#[trigger] parts[i]).len() > 0 && d == parts[i]
                        + "/applications"@;
                if i < rest.len() {
                    assert(rest[i] == parts[i]);
                }
            }
            assert(parts[parts.len() - 1] == parts.last());
        }
    }
}

/// The running desktops are the parts of a list, without the white space around
/// them and in lower case, but for the empty ones.
pub proof fn desktops_are_lowered(parts: Seq<Seq<char>>)
    ensures
        forall|d: Seq<char>| #[trigger]
            lowered(parts).contains(d) <==> d.len() > 0 && exists|i: int|
                0 <= i < parts.len() && d == lowercase(trimmed(#[trigger] parts[i])),
    decreases parts.len(),
{
    if parts.len() > 0 {
        let rest = parts.drop_last();
        desktops_are_lowered(rest);
        let before = lowered(rest);
        let last = lowercase(trimmed(parts.last()));
        assert forall|d: Seq<char>| #[trigger] lowered(parts).contains(d) <==> d.len() > 0
            && exists|i: int|
            0 <= i < parts.len() && d == lowercase(trimmed(#[trigger] parts[i])) by {
            lemma_push_contains(before, last, d);
            if before.contains(d) {
                let i = choose|i: int|
                    0 <= i < rest.len() && d == lowercase(trimmed(#[trigger] rest[i]));
                assert(parts[i] == rest[i]);
            }
            if exists|i: int| 0 <= i < parts.len() && d == lowercase(trimmed(
                #[trigger] parts[i],
            )) {
                let i = choose|i: int|
                    0 <= i < parts.len() && d == lowercase(trimmed(#[trigger] parts[i]));
                if i < rest.len() {
                    assert(rest[i] == parts[i]);
                }
            }
            assert(parts[parts.len() - 1] == parts.last());
        }
    }
}

/// The directories with the names of menus are, in this order: the one below
/// the user's data directory, or below `.local/share` of the user's home where
/// the environment names none; and the two usual ones where the environment
/// names no others.
pub proof fn menu_names_are_looked_for_in_order(
    data_home: Option<String>,
    home: Option<String>,
    data_dirs: Option<String>,
)
    requires
        data_home is None || data_home->0@.len() == 0,
        home is Some,
        home->0@.len() > 0,
        home->0@.last() != '/',
        data_dirs is None || data_dirs->0@.len() == 0,
    ensures
        directory_entry_dirs(data_home, home, data_dirs) == seq![
            home->0@.push('/') + ".local/share/desktop-directories"@,
            "/usr/local/share/desktop-directories"@,
            "/usr/share/desktop-directories"@,
        ],
{
    reveal_strlit(".local/share/desktop-directories");
    paths_are_joined_with_one_slash(home->0@, ".local/share/desktop-directories"@);
    assert(directory_entry_dirs(data_home, home, data_dirs) =~= seq![
        home->0@.push('/') + ".local/share/desktop-directories"@,
        "/usr/local/share/desktop-directories"@,
        "/usr/share/desktop-directories"@,
    ]);
}

/// A directory of the user lies below the one that the environment names, if it
/// names one, and else below the user's home; without both there is none.
pub proof fn users_directories_lie_below_their_home(
    named: Option<String>,
    home: Option<String>,
    below_named: Seq<char>,
    below_home: Seq<char>,
)
    requires
        named is Some && named->0@.len() > 0 ==> named->0@.last() != '/',
        home is Some ==> home->0@.len() > 0 && home->0@.last() != '/',
        below_named.len() > 0 && below_named[0] != '/',
        below_home.len() > 0 && below_home[0] != '/',
    ensures
        ({
            let dirs = home_directory(named, home, below_named, below_home);
            &&& named is Some && named->0@.len() > 0 ==> dirs == seq![
                named->0@.push('/') + below_named,
            ]
            &&& !(named is Some && named->0@.len() > 0) && home is Some ==> dirs == seq![
                home->0@.push('/') + below_home,
            ]
            &&& !(named is Some && named->0@.len() > 0) && home is None ==> dirs.len() == 0
        }),
{
    if named is Some && named->0@.len() > 0 {
        paths_are_joined_with_one_slash(named->0@, below_named);
    } else if home is Some {
        paths_are_joined_with_one_slash(home->0@, below_home);
    }
}

/// Of some directories, those that are not empty get a path below them, and no
/// others.
pub proof fn each_directory_gets_the_path(parts: Seq<Seq<char>>, rest: Seq<char>)
    ensures
        forall|d: Seq<char>| #[trigger]
            each_joined(parts, rest).contains(d) <==> exists|i: int|
                0 <= i < parts.len() && (#[trigger] parts[i]).len() > 0 && d == joined(
                    parts[i],
                    rest,
                ),
    decreases parts.len(),
{
    if parts.len() > 0 {
        let fewer = parts.drop_last();
        each_directory_gets_the_path(fewer, rest);
        let before = each_joined(fewer, rest);
        let last = joined(parts.last(), rest);
        assert forall|d: Seq<char>| #[trigger]
            each_joined(parts, rest).contains(d) <==> exists|i: int|
                0 <= i < parts.len() && (#[trigger] parts[i]).len() > 0 && d == joined(
                    parts[i],
                    rest,
                ) by {
            lemma_push_contains(before, last, d);
            if before.contains(d) {
                let i = choose|i: int|
                    0 <= i < fewer.len() && (#[trigger] fewer[i]).len() > 0 && d == joined(
                        fewer[i],
                        rest,
                    );
                assert(parts[i] == fewer[i]);
            }
            if exists|i: int|
                0 <= i < parts.len() && (#[trigger] parts[i]).len() > 0 && d == joined(
                    parts[i],
                    rest,
                ) {
                let i = choose|i: int|
                    0 <= i < parts.len() && (#[trigger] parts[i]).len() > 0 && d == joined(
                        parts[i],
                        rest,
                    );
                if i < fewer.len() {
                    assert(fewer[i] == parts[i]);
                }
            }
            assert(parts[parts.len() - 1] == parts.last());
        }
    }
}

} // verus!
