//! Desktop entries: what a `.desktop` file says of an app, and whether the
//! launcher shows it.

use vstd::prelude::*;
use vstd::utf8::is_ascii_chars;

use crate::text::{
    ascii_lower, ascii_lower_char, chars_of, concat, contains, eq_ignore_ascii_case,
    equal_ignoring_case, first_of, holds, lemma_texts_push, lowercase, occurs, occurs_at, pieces,
    position, same_text, split, string_of, texts, to_ascii_lowercase, to_lowercase, trim, trim_end,
    trim_start, trimmed,
};

verus! {

/// The category that the lower-case `Categories` value of an app stands for.
pub open spec fn bucket(lower: Seq<char>, name: Seq<char>) -> Seq<char> {
    if equal_ignoring_case(name, "claw"@) || equal_ignoring_case(name, "rofi"@) {
        "Utilities"@
    } else if occurs(lower, "game"@) {
        "Games"@
    } else if occurs(lower, "utility"@) {
        "Utilities"@
    } else if occurs(lower, "development"@) {
        "Development"@
    } else if occurs(lower, "network"@) {
        "Network"@
    } else if occurs(lower, "audio"@) || occurs(lower, "video"@) {
        "Audio/Video"@
    } else if occurs(lower, "graphics"@) {
        "Graphics"@
    } else if occurs(lower, "system"@) {
        "System"@
    } else if occurs(lower, "office"@) {
        "Office"@
    } else if occurs(lower, "education"@) {
        "Education"@
    } else if occurs(lower, "settings"@) {
        "Settings"@
    } else {
        "Utilities"@
    }
}

/// The category that a lower-case `Categories` value stands for.
pub fn bucket_of(lower: &str, app_name: &str) -> (r: String)
    ensures
        r@ == bucket(lower@, app_name@),
{
    if eq_ignore_ascii_case(app_name, "claw") || eq_ignore_ascii_case(app_name, "rofi") {
        return "Utilities".to_owned();
    }
    if contains(lower, "game") {
        "Games".to_owned()
    } else if contains(lower, "utility") {
        "Utilities".to_owned()
    } else if contains(lower, "development") {
        "Development".to_owned()
    } else if contains(lower, "network") {
        "Network".to_owned()
    } else if contains(lower, "audio") || contains(lower, "video") {
        "Audio/Video".to_owned()
    } else if contains(lower, "graphics") {
        "Graphics".to_owned()
    } else if contains(lower, "system") {
        "System".to_owned()
    } else if contains(lower, "office") {
        "Office".to_owned()
    } else if contains(lower, "education") {
        "Education".to_owned()
    } else if contains(lower, "settings") {
        "Settings".to_owned()
    } else {
        "Utilities".to_owned()
    }
}

/// Texts one after another, with a separator between them.
pub open spec fn chained(parts: Seq<Seq<char>>, sep: char) -> Seq<char>
    decreases parts.len(),
{
    if parts.len() == 0 {
        Seq::empty()
    } else if parts.len() == 1 {
        parts[0]
    } else {
        chained(parts.drop_last(), sep) + seq![sep] + parts.last()
    }
}

/// The tokens of a `Categories` value in lower case. The letters `A` to `Z` are
/// lowered first, so that their case does not count whatever else a token
/// holds.
pub open spec fn lower_tokens(raw: Seq<char>) -> Seq<Seq<char>> {
    pieces(ascii_lower(raw), ';').map_values(|token: Seq<char>| lowercase(token))
}

/// A `Categories` value in lower case, token by token: no category stands
/// across two tokens.
pub open spec fn lower_categories(raw: Seq<char>) -> Seq<char> {
    chained(lower_tokens(raw), ';')
}

/// A text is chained of its pieces.
pub proof fn lemma_chained_pieces(s: Seq<char>, sep: char)
    ensures
        pieces(s, sep).len() > 0,
        chained(pieces(s, sep), sep) == s,
    decreases s.len(),
{
    if s.len() > 0 {
        let rest = s.drop_last();
        let before = pieces(rest, sep);
        let all = pieces(s, sep);
        lemma_chained_pieces(rest, sep);
        assert(rest.push(s.last()) =~= s);
        if s.last() == sep {
            assert(all.drop_last() =~= before);
            assert(chained(all, sep) =~= s);
        } else {
            assert(all.drop_last() =~= before.drop_last());
            assert(chained(all, sep) =~= chained(before, sep).push(s.last()));
        }
    }
}

/// The pieces of a text of ASCII characters are such texts.
proof fn lemma_ascii_pieces(s: Seq<char>, sep: char, i: int)
    requires
        is_ascii_chars(s),
        0 <= i < pieces(s, sep).len(),
    ensures
        is_ascii_chars(pieces(s, sep)[i]),
    decreases s.len(),
{
    if s.len() > 0 {
        let rest = s.drop_last();
        let before = pieces(rest, sep);
        lemma_chained_pieces(rest, sep);
        assert forall|j: int| 0 <= j < rest.len() implies '\0' <= #[trigger] rest[j]
            <= '\u{7f}' by {
            assert(rest[j] == s[j]);
        }
        assert('\0' <= s[s.len() - 1] <= '\u{7f}');
        if i < before.len() {
            lemma_ascii_pieces(rest, sep, i);
        }
    }
}

/// A `Categories` value in lower case.
fn lowered_categories(raw: &str) -> (r: String)
    ensures
        r@ == lower_categories(raw@),
        is_ascii_chars(raw@) ==> r@ == ascii_lower(raw@),
{
    let plain = to_ascii_lowercase(raw);
    let tokens = split(plain.as_str(), ';');
    let ghost all = lower_tokens(raw@);
    let ghost given = pieces(plain@, ';');
    proof {
        lemma_chained_pieces(plain@, ';');
        assert(given == texts(tokens@));
        if is_ascii_chars(raw@) {
            assert forall|j: int| 0 <= j < plain@.len() implies '\0' <= #[trigger] plain@[j]
                <= '\u{7f}' by {
                assert(plain@[j] == ascii_lower_char(raw@[j]));
                assert('\0' <= raw@[j] <= '\u{7f}');
            }
        }
    }
    let mut r = String::new();
    assert(r@ =~= Seq::<char>::empty());
    for i in 0..tokens.len()
        invariant
            given == texts(tokens@),
            given == pieces(plain@, ';'),
            all == given.map_values(|token: Seq<char>| lowercase(token)),
            is_ascii_chars(raw@) ==> is_ascii_chars(plain@),
            plain@ == ascii_lower(raw@),
            r@ == chained(all.take(i as int), ';'),
            is_ascii_chars(raw@) ==> all.take(i as int) =~= given.take(i as int),
    {
        let token = to_lowercase(tokens[i].as_str());
        proof {
            assert(given[i as int] == tokens@[i as int]@);
            assert(all[i as int] == token@);
            assert(all.take(i + 1).drop_last() =~= all.take(i as int));
            assert(all.take(i + 1).last() == token@);
            if is_ascii_chars(raw@) {
                lemma_ascii_pieces(plain@, ';', i as int);
                lemma_lower_piece_stays(raw@, i as int);
                assert(token@ == given[i as int]);
                assert(all.take(i + 1) =~= given.take(i + 1));
            }
        }
        if i > 0 {
            r.push(';');
        }
        r = concat(r.as_str(), token.as_str());
        assert(r@ =~= chained(all.take(i + 1), ';'));
    }
    assert(all.take(all.len() as int) =~= all);
    assert(given.take(given.len() as int) =~= given);
    r
}

/// The category of an app, from its `Categories` value in any case.
pub fn group_category(raw: &str, app_name: &str) -> (r: String)
    ensures
        r@ == bucket(lower_categories(raw@), app_name@),
        is_ascii_chars(raw@) ==> r@ == bucket(ascii_lower(raw@), app_name@),
{
    let lower = lowered_categories(raw);
    bucket_of(lower.as_str(), app_name)
}

/// The letters that stand behind `%` in a field code.
pub open spec fn field_codes() -> Seq<char> {
    seq!['f', 'F', 'u', 'U', 'd', 'D', 'n', 'N', 'i', 'c', 'k', 'v', 'm']
}

/// A text without the field code `%` and `code`.
pub open spec fn without_code(s: Seq<char>, code: char) -> Seq<char>
    decreases s.len(),
{
    if s.len() >= 2 && s[0] == '%' && s[1] == code {
        without_code(s.skip(2), code)
    } else if s.len() > 0 {
        seq![s[0]] + without_code(s.skip(1), code)
    } else {
        s
    }
}

/// A text without the given field codes, taken out one after another.
pub open spec fn without_codes(s: Seq<char>, codes: Seq<char>) -> Seq<char>
    decreases codes.len(),
{
    if codes.len() == 0 {
        s
    } else {
        without_code(without_codes(s, codes.drop_last()), codes.last())
    }
}

/// An `Exec` value without its field codes.
pub open spec fn cleaned(line: Seq<char>) -> Seq<char> {
    trimmed(without_codes(line, field_codes()))
}

/// The text without the field code `%` and `code`.
fn remove_code(v: &Vec<char>, code: char) -> (r: Vec<char>)
    ensures
        r@ == without_code(v@, code),
{
    let mut out: Vec<char> = Vec::new();
    let mut i: usize = 0;
    assert(v@.skip(0) == v@);
    assert(out@ + without_code(v@, code) =~= without_code(v@, code));
    while i < v.len()
        invariant
            i <= v@.len(),
            out@ + without_code(v@.skip(i as int), code) == without_code(v@, code),
        decreases v@.len() - i,
    {
        let ghost rest = v@.skip(i as int);
        let ghost before = out@;
        assert(rest[0] == v@[i as int]);
        assert(rest.len() > 1 ==> rest[1] == v@[i + 1]);
        assert(rest.skip(1) =~= v@.skip(i + 1));
        if v.len() - i >= 2 && v[i] == '%' && v[i + 1] == code {
            assert(rest.skip(2) =~= v@.skip(i + 2));
            i = i + 2;
        } else {
            out.push(v[i]);
            assert(out@ + without_code(v@.skip(i + 1), code) =~= before + (seq![rest[0]]
                + without_code(rest.skip(1), code)));
            i = i + 1;
        }
    }
    assert(out@ + without_code(v@.skip(i as int), code) =~= out@);
    out
}

/// An `Exec` value without its field codes and the white space around it.
pub fn clean_exec(line: &str) -> (r: String)
    ensures
        r@ == cleaned(line@),
{
    let codes: [char; 13] = ['f', 'F', 'u', 'U', 'd', 'D', 'n', 'N', 'i', 'c', 'k', 'v', 'm'];
    assert(codes@ =~= field_codes());
    let mut v = chars_of(line);
    assert(codes@.take(0) =~= Seq::<char>::empty());
    for i in 0..13usize
        invariant
            codes@ == field_codes(),
            v@ == without_codes(line@, codes@.take(i as int)),
    {
        v = remove_code(&v, codes[i]);
        assert(codes@.take(i + 1).drop_last() =~= codes@.take(i as int));
        assert(codes@.take(i + 1).last() == codes@[i as int]);
    }
    assert(codes@.take(13) =~= codes@);
    assert(v@.subrange(0, v@.len() as int) =~= v@);
    let s = string_of(&v, 0, v.len());
    trim(s.as_str())
}

/// Whether a character never stands right before another.
pub open spec fn never_before(s: Seq<char>, a: char, b: char) -> bool {
    forall|i: int| 0 <= i < s.len() - 1 && #[trigger] s[i] == a ==> s[i + 1] != b
}

/// Part of a text has no more pairs of characters than the text.
proof fn lemma_part_never_before(s: Seq<char>, from: int, to: int, a: char, b: char)
    requires
        0 <= from <= to <= s.len(),
        never_before(s, a, b),
    ensures
        never_before(s.subrange(from, to), a, b),
{
    let part = s.subrange(from, to);
    assert forall|i: int| 0 <= i < part.len() - 1 && #[trigger] part[i] == a implies part[i + 1]
        != b by {
        assert(s[from + i] == a);
        assert(s[from + i + 1] == part[i + 1]);
    }
}

/// A text without a field code does not hold it, and holds no other that it
/// did not hold, if no `%` stands before another.
pub proof fn lemma_code_removed(s: Seq<char>, code: char, other: char)
    requires
        never_before(s, '%', '%'),
    ensures
        never_before(without_code(s, code), '%', '%'),
        never_before(without_code(s, code), '%', code),
        never_before(s, '%', other) ==> never_before(without_code(s, code), '%', other),
        without_code(s, code).len() > 0 && s.len() > 0 && !(s.len() >= 2 && s[0] == '%' && s[1]
            == code) ==> without_code(s, code)[0] == s[0],
    decreases s.len(),
{
    if s.len() >= 2 && s[0] == '%' && s[1] == code {
        let rest = s.skip(2);
        assert(rest =~= s.subrange(2, s.len() as int));
        lemma_part_never_before(s, 2, s.len() as int, '%', '%');
        if never_before(s, '%', other) {
            lemma_part_never_before(s, 2, s.len() as int, '%', other);
        }
        lemma_code_removed(rest, code, other);
    } else if s.len() > 0 {
        let rest = s.skip(1);
        assert(rest =~= s.subrange(1, s.len() as int));
        lemma_part_never_before(s, 1, s.len() as int, '%', '%');
        if never_before(s, '%', other) {
            lemma_part_never_before(s, 1, s.len() as int, '%', other);
        }
        lemma_code_removed(rest, code, other);
        let tail = without_code(rest, code);
        let all = without_code(s, code);
        assert(all == seq![s[0]] + tail);
        assert(s[0] == '%' && tail.len() > 0 && rest.len() > 0 ==> rest[0] == s[1] && s[1] != '%');
        assert(s[0] == '%' && tail.len() > 0 ==> rest.len() > 0 && tail[0] == s[1]);
        assert forall|i: int| 0 <= i < all.len() - 1 && #[trigger] all[i] == '%' implies all[i + 1]
            != '%' && all[i + 1] != code && (never_before(s, '%', other) ==> all[i + 1]
            != other) by {
            if i > 0 {
                assert(all[i] == tail[i - 1]);
                assert(all[i + 1] == tail[i]);
            } else {
                assert(all[1] == tail[0]);
            }
        }
    }
}

/// A text without some field codes holds none of them.
proof fn lemma_codes_removed(s: Seq<char>, codes: Seq<char>, k: int)
    requires
        never_before(s, '%', '%'),
    ensures
        never_before(without_codes(s, codes), '%', '%'),
        0 <= k < codes.len() ==> never_before(without_codes(s, codes), '%', codes[k]),
    decreases codes.len(),
{
    if codes.len() > 0 {
        let before = without_codes(s, codes.drop_last());
        lemma_codes_removed(s, codes.drop_last(), k);
        lemma_code_removed(before, codes.last(), codes[k]);
    }
}

/// What is left of a text without white space at its ends is part of it.
proof fn lemma_trimmed_part(s: Seq<char>, a: char, b: char)
    requires
        never_before(s, a, b),
    ensures
        never_before(trim_start(s), a, b),
        never_before(trim_end(s), a, b),
    decreases s.len(),
{
    if s.len() > 0 {
        let length = s.len() as int;
        assert(s.drop_first() =~= s.subrange(1, length));
        assert(s.drop_last() =~= s.subrange(0, length - 1));
        lemma_part_never_before(s, 1, length, a, b);
        lemma_part_never_before(s, 0, length - 1, a, b);
        lemma_trimmed_part(s.drop_first(), a, b);
        lemma_trimmed_part(s.drop_last(), a, b);
    }
}

/// A cleaned line holds no field code, if no `%` stands before another in the
/// line.
pub proof fn cleaned_lines_hold_no_field_code(line: Seq<char>)
    requires
        never_before(line, '%', '%'),
    ensures
        forall|k: int|
            0 <= k < field_codes().len() ==> never_before(
                cleaned(line),
                '%',
                #[trigger] field_codes()[k],
            ),
{
    let bare = without_codes(line, field_codes());
    assert forall|k: int| 0 <= k < field_codes().len() implies never_before(
        cleaned(line),
        '%',
        #[trigger] field_codes()[k],
    ) by {
        lemma_codes_removed(line, field_codes(), k);
        lemma_trimmed_part(bare, '%', field_codes()[k]);
        lemma_trimmed_part(trim_start(bare), '%', field_codes()[k]);
    }
}

/// The parts of a list that are not of white space alone, without the white
/// space around them.
pub open spec fn filled(parts: Seq<Seq<char>>) -> Seq<Seq<char>>
    decreases parts.len(),
{
    if parts.len() == 0 {
        Seq::empty()
    } else {
        let before = filled(parts.drop_last());
        let part = trimmed(parts.last());
        if part.len() == 0 {
            before
        } else {
            before.push(part)
        }
    }
}

/// The parts of a text between separators, without the empty ones.
pub fn split_filled(s: &str, sep: char) -> (r: Vec<String>)
    ensures
        texts(r@) == filled(pieces(s@, sep)),
{
    let parts = split(s, sep);
    let ghost all = texts(parts@);
    let mut r: Vec<String> = Vec::new();
    assert(texts(r@) =~= filled(all.take(0)));
    for i in 0..parts.len()
        invariant
            all == texts(parts@),
            texts(r@) == filled(all.take(i as int)),
    {
        let part = trim(parts[i].as_str());
        assert(all.take(i + 1).drop_last() =~= all.take(i as int));
        assert(all.take(i + 1).last() == parts@[i as int]@);
        if !part.as_str().is_empty() {
            proof {
                lemma_texts_push(r@, part);
            }
            r.push(part);
        }
    }
    assert(all.take(all.len() as int) == all);
    r
}

/// What the lines of a desktop file have said so far.
#[verifier::ext_equal]
pub struct Said {
    pub in_entry: bool,
    pub name: Option<Seq<char>>,
    pub generic_name: Option<Seq<char>>,
    pub exec_line: Option<Seq<char>>,
    pub categories: Option<Seq<char>>,
    /// Whether the last `NoDisplay` was true.
    pub no_display: bool,
    /// Whether a `Hidden` was true.
    pub hidden: bool,
    pub terminal: bool,
    pub only_show_in: Option<Seq<Seq<char>>>,
    pub not_show_in: Option<Seq<Seq<char>>>,
}

impl Said {
    /// Nothing said yet.
    pub open spec fn nothing() -> Said {
        Said {
            in_entry: false,
            name: None,
            generic_name: None,
            exec_line: None,
            categories: None,
            no_display: false,
            hidden: false,
            terminal: false,
            only_show_in: None,
            not_show_in: None,
        }
    }

    /// What is known once a key has been given a value.
    pub open spec fn set(self, key: Seq<char>, value: Seq<char>) -> Said {
        if key == "Name"@ {
            Said { name: Some(value), ..self }
        } else if key == "GenericName"@ {
            Said { generic_name: Some(value), ..self }
        } else if key == "Exec"@ {
            Said { exec_line: Some(value), ..self }
        } else if key == "Categories"@ {
            Said { categories: Some(value), ..self }
        } else if key == "NoDisplay"@ {
            Said { no_display: value == "true"@, ..self }
        } else if key == "Hidden"@ {
            Said { hidden: self.hidden || value == "true"@, ..self }
        } else if key == "Terminal"@ {
            Said { terminal: value == "true"@, ..self }
        } else if key == "OnlyShowIn"@ {
            Said { only_show_in: Some(filled(pieces(value, ';'))), ..self }
        } else if key == "NotShowIn"@ {
            Said { not_show_in: Some(filled(pieces(value, ';'))), ..self }
        } else {
            self
        }
    }

    /// What is known after one more line: a line in brackets begins a group,
    /// and a line `key=value` of the desktop entry's own group counts unless
    /// its key is given for one language.
    pub open spec fn after(self, raw: Seq<char>) -> Said {
        let line = trimmed(raw);
        let at = first_of(line, '=');
        if line.len() > 0 && line[0] == '[' {
            Said { in_entry: line == "[Desktop Entry]"@, ..self }
        } else if !self.in_entry || at == line.len() || line.take(at).contains('[') {
            self
        } else {
            self.set(trimmed(line.take(at)), trimmed(line.skip(at + 1)))
        }
    }

    /// What is known after some lines.
    pub open spec fn after_all(self, lines: Seq<Seq<char>>) -> Said
        decreases lines.len(),
    {
        if lines.len() == 0 {
            self
        } else {
            self.after_all(lines.drop_last()).after(lines.last())
        }
    }
}

/// Whether one of the desktops in a list is running.
pub open spec fn any_running(list: Seq<Seq<char>>, running: Seq<Seq<char>>) -> bool {
    exists|i: int| 0 <= i < list.len() && running.contains(lowercase(#[trigger] list[i]))
}

/// An app as the cache keeps it.
#[verifier::ext_equal]
pub struct Cached {
    pub name: Seq<char>,
    pub category: Seq<char>,
    pub exec_line: Seq<char>,
    pub terminal: bool,
    pub raw_categories: Seq<char>,
}

/// A value, or the empty text.
pub open spec fn or_empty(value: Option<Seq<char>>) -> Seq<char> {
    match value {
        Some(v) => v,
        None => Seq::empty(),
    }
}

impl Said {
    /// The name of the app: the generic one stands in for a missing one.
    pub open spec fn shown_name(self) -> Option<Seq<char>> {
        match self.name {
            Some(n) => Some(n),
            None => self.generic_name,
        }
    }

    /// The app, where the launcher shows it: one that is not hidden, has a
    /// name and a command, and is not kept from the running desktops.
    pub open spec fn app(self, running: Seq<Seq<char>>) -> Option<Cached> {
        match (self.shown_name(), self.exec_line) {
            (Some(name), Some(line)) => {
                if self.no_display || self.hidden {
                    None
                } else if self.only_show_in matches Some(allow) && !any_running(allow, running) {
                    None
                } else if self.not_show_in matches Some(block) && any_running(block, running) {
                    None
                } else {
                    Some(
                        Cached {
                            name,
                            category: bucket(lower_categories(or_empty(self.categories)), name),
                            exec_line: cleaned(line),
                            terminal: self.terminal,
                            raw_categories: or_empty(self.categories),
                        },
                    )
                }
            },
            _ => None,
        }
    }
}

/// The app that the contents of a desktop file stand for.
pub open spec fn desktop_app(content: Seq<char>, running: Seq<Seq<char>>) -> Option<Cached> {
    Said::nothing().after_all(pieces(content, '\n')).app(running)
}

/// An app as the cache keeps it.
#[derive(Debug)]
pub struct CachedApp {
    pub name: String,
    pub category: String,
    pub exec_line: String,
    pub terminal: bool,
    /// The app's own `Categories` value.
    pub raw_categories: String,
}

impl View for CachedApp {
    type V = Cached;

    open spec fn view(&self) -> Cached {
        Cached {
            name: self.name@,
            category: self.category@,
            exec_line: self.exec_line@,
            terminal: self.terminal,
            raw_categories: self.raw_categories@,
        }
    }
}

impl Clone for CachedApp {
    fn clone(&self) -> (r: Self)
        ensures
            r == *self,
    {
        CachedApp {
            name: self.name.clone(),
            category: self.category.clone(),
            exec_line: self.exec_line.clone(),
            terminal: self.terminal,
            raw_categories: self.raw_categories.clone(),
        }
    }
}

/// The text in an optional string.
pub open spec fn text_in(s: Option<String>) -> Option<Seq<char>> {
    match s {
        Some(t) => Some(t@),
        None => None,
    }
}

/// The texts in an optional list of strings.
pub open spec fn texts_in(s: Option<Vec<String>>) -> Option<Seq<Seq<char>>> {
    match s {
        Some(t) => Some(texts(t@)),
        None => None,
    }
}

/// What the lines of a desktop file have said so far, as the program holds it.
struct Fields {
    in_entry: bool,
    name: Option<String>,
    generic_name: Option<String>,
    exec_line: Option<String>,
    categories: Option<String>,
    no_display: bool,
    hidden: bool,
    terminal: bool,
    only_show_in: Option<Vec<String>>,
    not_show_in: Option<Vec<String>>,
}

impl View for Fields {
    type V = Said;

    closed spec fn view(&self) -> Said {
        Said {
            in_entry: self.in_entry,
            name: text_in(self.name),
            generic_name: text_in(self.generic_name),
            exec_line: text_in(self.exec_line),
            categories: text_in(self.categories),
            no_display: self.no_display,
            hidden: self.hidden,
            terminal: self.terminal,
            only_show_in: texts_in(self.only_show_in),
            not_show_in: texts_in(self.not_show_in),
        }
    }
}

impl Fields {
    /// Nothing said yet.
    fn nothing() -> (r: Fields)
        ensures
            r@ == Said::nothing(),
    {
        Fields {
            in_entry: false,
            name: None,
            generic_name: None,
            exec_line: None,
            categories: None,
            no_display: false,
            hidden: false,
            terminal: false,
            only_show_in: None,
            not_show_in: None,
        }
    }

    /// Gives a key its value.
    fn set(&mut self, key: &str, value: String)
        ensures
            final(self)@ == old(self)@.set(key@, value@),
    {
        if same_text(key, "Name") {
            self.name = Some(value);
        } else if same_text(key, "GenericName") {
            self.generic_name = Some(value);
        } else if same_text(key, "Exec") {
            self.exec_line = Some(value);
        } else if same_text(key, "Categories") {
            self.categories = Some(value);
        } else if same_text(key, "NoDisplay") {
            self.no_display = same_text(value.as_str(), "true");
        } else if same_text(key, "Hidden") {
            self.hidden = self.hidden || same_text(value.as_str(), "true");
        } else if same_text(key, "Terminal") {
            self.terminal = same_text(value.as_str(), "true");
        } else if same_text(key, "OnlyShowIn") {
            self.only_show_in = Some(split_filled(value.as_str(), ';'));
        } else if same_text(key, "NotShowIn") {
            self.not_show_in = Some(split_filled(value.as_str(), ';'));
        }
    }

    /// Takes one more line.
    fn take_line(&mut self, raw: &str)
        ensures
            final(self)@ == old(self)@.after(raw@),
    {
        let line = trim(raw);
        let v = chars_of(line.as_str());
        if v.len() > 0 && v[0] == '[' {
            self.in_entry = same_text(line.as_str(), "[Desktop Entry]");
            return;
        }
        if !self.in_entry {
            return;
        }
        let at = position(&v, '=');
        if at == v.len() {
            return;
        }
        for j in 0..at
            invariant
                at < v@.len(),
                v@ == trimmed(raw@),
                self@ == old(self)@,
                at == first_of(v@, '='),
                !(v@.len() > 0 && v@[0] == '['),
                forall|k: int| 0 <= k < j ==> v@[k] != '[',
        {
            if v[j] == '[' {
                assert(v@.take(at as int)[j as int] == '[');
                return;
            }
        }
        assert(!v@.take(at as int).contains('['));
        assert(v@.subrange(0, at as int) =~= v@.take(at as int));
        assert(v@.subrange(at + 1, v@.len() as int) =~= v@.skip(at + 1));
        let key = string_of(&v, 0, at);
        let value = string_of(&v, at + 1, v.len());
        let key = trim(key.as_str());
        self.set(key.as_str(), trim(value.as_str()));
    }
}

/// Whether one of the desktops in a list is running.
fn is_any_running(list: &Vec<String>, running: &Vec<String>) -> (r: bool)
    ensures
        r == any_running(texts(list@), texts(running@)),
{
    for i in 0..list.len()
        invariant
            forall|j: int|
                0 <= j < i ==> !texts(running@).contains(lowercase(#[trigger] texts(list@)[j])),
    {
        let lower = to_lowercase(list[i].as_str());
        assert(texts(list@)[i as int] == list@[i as int]@);
        if holds(running, lower.as_str()) {
            return true;
        }
    }
    false
}

/// The app that the contents of a desktop file stand for, where the launcher
/// shows it on the running desktops.
pub fn parse_desktop_file(content: &str, current_desktops: &Vec<String>) -> (r: Option<CachedApp>)
    ensures
        match r {
            Some(app) => desktop_app(content@, texts(current_desktops@)) == Some(app@),
            None => desktop_app(content@, texts(current_desktops@)) is None,
        },
{
    let lines = split(content, '\n');
    let ghost all = texts(lines@);
    let mut fields = Fields::nothing();
    for i in 0..lines.len()
        invariant
            all == texts(lines@),
            fields@ == Said::nothing().after_all(all.take(i as int)),
    {
        fields.take_line(lines[i].as_str());
        assert(all.take(i + 1).drop_last() =~= all.take(i as int));
        assert(all.take(i + 1).last() == lines@[i as int]@);
    }
    assert(all.take(all.len() as int) == all);
    let ghost said = fields@;
    if fields.no_display || fields.hidden {
        return None;
    }
    let name = match fields.name {
        Some(name) => name,
        None => match fields.generic_name {
            Some(name) => name,
            None => {
                return None;
            },
        },
    };
    let line = match fields.exec_line {
        Some(line) => line,
        None => {
            return None;
        },
    };
    if let Some(allow) = &fields.only_show_in {
        if !is_any_running(allow, current_desktops) {
            return None;
        }
    }
    if let Some(block) = &fields.not_show_in {
        if is_any_running(block, current_desktops) {
            return None;
        }
    }
    let raw_categories = match fields.categories {
        Some(categories) => categories,
        None => String::new(),
    };
    let category = group_category(raw_categories.as_str(), name.as_str());
    let exec_line = clean_exec(line.as_str());
    let app = CachedApp { name, category, exec_line, terminal: fields.terminal, raw_categories };
    Some(app)
}

/// Once a file has said that its app is hidden, no further line shows it.
pub proof fn hidden_apps_stay_hidden(
    said: Said,
    lines: Seq<Seq<char>>,
    running: Seq<Seq<char>>,
)
    requires
        said.hidden,
    ensures
        said.after_all(lines).hidden,
        said.after_all(lines).app(running) is None,
    decreases lines.len(),
{
    if lines.len() > 0 {
        hidden_apps_stay_hidden(said, lines.drop_last(), running);
    }
}

/// An app that a file gives has a name and a command, is not hidden, and is
/// not kept from the running desktops.
pub proof fn shown_apps_may_be_shown(said: Said, running: Seq<Seq<char>>)
    ensures
        said.app(running) is Some <==> {
            &&& said.name is Some || said.generic_name is Some
            &&& said.exec_line is Some
            &&& !said.no_display && !said.hidden
            &&& said.only_show_in is Some ==> any_running(said.only_show_in->0, running)
            &&& said.not_show_in is Some ==> !any_running(said.not_show_in->0, running)
        },
{
}

/// Whether one of some texts holds another.
pub open spec fn any_holds(parts: Seq<Seq<char>>, needle: Seq<char>) -> bool {
    exists|i: int| 0 <= i < parts.len() && occurs(#[trigger] parts[i], needle)
}

/// A text without separators stands in two texts with one between them if and
/// only if it stands in one of them.
proof fn lemma_occurs_beside(a: Seq<char>, sep: char, b: Seq<char>, needle: Seq<char>)
    requires
        needle.len() > 0,
        !needle.contains(sep),
    ensures
        occurs(a + seq![sep] + b, needle) <==> occurs(a, needle) || occurs(b, needle),
{
    let s = a + seq![sep] + b;
    let length = needle.len() as int;
    let behind = a.len() + 1;
    if occurs(a, needle) {
        let at = choose|at: int| #[trigger] occurs_at(a, needle, at);
        assert(s.subrange(at, at + length) =~= a.subrange(at, at + length));
        assert(occurs_at(s, needle, at));
    }
    if occurs(b, needle) {
        let at = choose|at: int| #[trigger] occurs_at(b, needle, at);
        assert(s.subrange(behind + at, behind + at + length) =~= b.subrange(at, at + length));
        assert(occurs_at(s, needle, behind + at));
    }
    if occurs(s, needle) {
        let at = choose|at: int| #[trigger] occurs_at(s, needle, at);
        if at + length <= a.len() {
            assert(a.subrange(at, at + length) =~= s.subrange(at, at + length));
            assert(occurs_at(a, needle, at));
        } else if at >= behind {
            let from = at - behind;
            assert(b.subrange(from, from + length) =~= s.subrange(at, at + length));
            assert(occurs_at(b, needle, from));
        } else {
            assert(s.subrange(at, at + length)[a.len() - at] == sep);
            assert(needle.contains(sep));
        }
    }
}

/// A text without separators stands in a chain of texts if and only if it
/// stands in one of them.
proof fn lemma_occurs_in_chained(parts: Seq<Seq<char>>, sep: char, needle: Seq<char>)
    requires
        needle.len() > 0,
        !needle.contains(sep),
    ensures
        occurs(chained(parts, sep), needle) <==> any_holds(parts, needle),
    decreases parts.len(),
{
    if parts.len() == 0 {
        if occurs(chained(parts, sep), needle) {
            let at = choose|at: int| #[trigger] occurs_at(chained(parts, sep), needle, at);
            assert(false);
        }
    } else if parts.len() == 1 {
        assert(occurs(parts[0], needle) == any_holds(parts, needle));
    } else {
        let rest = parts.drop_last();
        lemma_occurs_in_chained(rest, sep, needle);
        lemma_occurs_beside(chained(rest, sep), sep, parts.last(), needle);
        if any_holds(rest, needle) {
            let i = choose|i: int| 0 <= i < rest.len() && occurs(#[trigger] rest[i], needle);
            assert(parts[i] == rest[i]);
        }
        if any_holds(parts, needle) {
            let i = choose|i: int| 0 <= i < parts.len() && occurs(#[trigger] parts[i], needle);
            if i < rest.len() {
                assert(rest[i] == parts[i]);
            }
        }
        if occurs(parts.last(), needle) {
            assert(occurs(parts[parts.len() - 1], needle));
        }
    }
}

/// Whether two lists hold the same texts, in whatever order and however often.
pub open spec fn same_texts(a: Seq<Seq<char>>, b: Seq<Seq<char>>) -> bool {
    forall|t: Seq<char>| #[trigger] a.contains(t) <==> b.contains(t)
}

/// Whether two texts have the same pieces, in whatever order and however
/// often.
pub open spec fn same_pieces(a: Seq<char>, b: Seq<char>, sep: char) -> bool {
    same_texts(pieces(a, sep), pieces(b, sep))
}

/// What stands in a chain of texts does not depend on their order.
proof fn lemma_same_texts_hold(x: Seq<Seq<char>>, y: Seq<Seq<char>>, needle: Seq<char>)
    requires
        same_texts(x, y),
        needle.len() > 0,
        !needle.contains(';'),
    ensures
        occurs(chained(x, ';'), needle) == occurs(chained(y, ';'), needle),
{
    lemma_occurs_in_chained(x, ';', needle);
    lemma_occurs_in_chained(y, ';', needle);
    if any_holds(x, needle) {
        let i = choose|i: int| 0 <= i < x.len() && occurs(#[trigger] x[i], needle);
        assert(x.contains(x[i]));
        let j = choose|j: int| 0 <= j < y.len() && y[j] == x[i];
        assert(occurs(y[j], needle));
    }
    if any_holds(y, needle) {
        let i = choose|i: int| 0 <= i < y.len() && occurs(#[trigger] y[i], needle);
        assert(y.contains(y[i]));
        assert(x.contains(y[i]));
        let j = choose|j: int| 0 <= j < x.len() && x[j] == y[i];
        assert(occurs(x[j], needle));
    }
}

/// The category that a chain of tokens stands for does not depend on their
/// order, nor on the case of the ASCII letters of the name.
proof fn lemma_same_buckets(
    x: Seq<Seq<char>>,
    y: Seq<Seq<char>>,
    name: Seq<char>,
    other_name: Seq<char>,
)
    requires
        same_texts(x, y),
        equal_ignoring_case(name, other_name),
    ensures
        bucket(chained(x, ';'), name) == bucket(chained(y, ';'), other_name),
{
    reveal_strlit("game");
    reveal_strlit("utility");
    reveal_strlit("development");
    reveal_strlit("network");
    reveal_strlit("audio");
    reveal_strlit("video");
    reveal_strlit("graphics");
    reveal_strlit("system");
    reveal_strlit("office");
    reveal_strlit("education");
    reveal_strlit("settings");
    lemma_same_texts_hold(x, y, "game"@);
    lemma_same_texts_hold(x, y, "utility"@);
    lemma_same_texts_hold(x, y, "development"@);
    lemma_same_texts_hold(x, y, "network"@);
    lemma_same_texts_hold(x, y, "audio"@);
    lemma_same_texts_hold(x, y, "video"@);
    lemma_same_texts_hold(x, y, "graphics"@);
    lemma_same_texts_hold(x, y, "system"@);
    lemma_same_texts_hold(x, y, "office"@);
    lemma_same_texts_hold(x, y, "education"@);
    lemma_same_texts_hold(x, y, "settings"@);
}

/// The category that a lower-case value stands for does not depend on the order
/// of its tokens, nor on the case of the ASCII letters of the name.
pub proof fn buckets_ignore_the_order_of_tokens(
    lower: Seq<char>,
    other: Seq<char>,
    name: Seq<char>,
    other_name: Seq<char>,
)
    requires
        same_pieces(lower, other, ';'),
        equal_ignoring_case(name, other_name),
    ensures
        bucket(lower, name) == bucket(other, other_name),
{
    lemma_chained_pieces(lower, ';');
    lemma_chained_pieces(other, ';');
    lemma_same_buckets(pieces(lower, ';'), pieces(other, ';'), name, other_name);
}

/// The pieces of a text in lower case are its pieces in lower case.
proof fn lemma_lower_pieces(s: Seq<char>)
    ensures
        pieces(ascii_lower(s), ';').len() == pieces(s, ';').len(),
        forall|i: int|
            0 <= i < pieces(s, ';').len() ==> #[trigger] pieces(ascii_lower(s), ';')[i]
                == ascii_lower(pieces(s, ';')[i]),
    decreases s.len(),
{
    let low = ascii_lower(s);
    if s.len() > 0 {
        let rest = s.drop_last();
        lemma_lower_pieces(rest);
        lemma_chained_pieces(rest, ';');
        assert(low.drop_last() =~= ascii_lower(rest));
        let before = pieces(rest, ';');
        let grown = before.last().push(s.last());
        assert(ascii_lower(grown) =~= ascii_lower(before.last()).push(low.last()));
        assert(ascii_lower(Seq::<char>::empty()) =~= Seq::<char>::empty());
        assert(low.last() == ascii_lower_char(s.last()));
        assert(low.last() == ';' <==> s.last() == ';');
        assert forall|i: int| 0 <= i < pieces(s, ';').len() implies #[trigger] pieces(low, ';')[i]
            == ascii_lower(pieces(s, ';')[i]) by {
            if i < before.len() {
                assert(pieces(ascii_lower(rest), ';')[i] == ascii_lower(before[i]));
            }
        }
    } else {
        assert(low =~= s);
        assert(pieces(s, ';')[0] =~= ascii_lower(pieces(s, ';')[0]));
    }
}

/// Lowering a piece again keeps it.
proof fn lemma_lower_piece_stays(s: Seq<char>, i: int)
    requires
        0 <= i < pieces(ascii_lower(s), ';').len(),
    ensures
        ascii_lower(pieces(ascii_lower(s), ';')[i]) == pieces(ascii_lower(s), ';')[i],
{
    lemma_lower_pieces(s);
    let piece = pieces(ascii_lower(s), ';')[i];
    let plain = pieces(s, ';')[i];
    assert(piece == ascii_lower(plain));
    assert(ascii_lower(piece) =~= piece);
}

/// A token in lower case is one of a value with the same pieces, too.
proof fn lemma_lower_token_found(a: Seq<char>, b: Seq<char>, t: Seq<char>)
    requires
        same_pieces(a, b, ';'),
        pieces(a, ';').map_values(|token: Seq<char>| lowercase(token)).contains(t),
    ensures
        pieces(b, ';').map_values(|token: Seq<char>| lowercase(token)).contains(t),
{
    let x = pieces(a, ';');
    let y = pieces(b, ';');
    let lower = x.map_values(|token: Seq<char>| lowercase(token));
    let i = choose|i: int| 0 <= i < lower.len() && lower[i] == t;
    assert(x.contains(x[i]));
    let j = choose|j: int| 0 <= j < y.len() && y[j] == x[i];
    assert(y.map_values(|token: Seq<char>| lowercase(token))[j] == t);
}

/// The category of an app depends neither on the order of its tokens nor on the
/// case of ASCII letters, in the tokens and in its name.
pub proof fn categories_ignore_order_and_case(
    raw: Seq<char>,
    reordered: Seq<char>,
    other: Seq<char>,
    name: Seq<char>,
    other_name: Seq<char>,
)
    requires
        same_pieces(raw, reordered, ';'),
        equal_ignoring_case(reordered, other),
        equal_ignoring_case(name, other_name),
    ensures
        bucket(lower_categories(raw), name) == bucket(lower_categories(other), other_name),
{
    let a = ascii_lower(raw);
    let b = ascii_lower(other);
    assert forall|t: Seq<char>| #[trigger] pieces(a, ';').contains(t) <==> pieces(
        b,
        ';',
    ).contains(t) by {
        if pieces(a, ';').contains(t) {
            lemma_lower_piece_found(raw, reordered, t);
        }
        if pieces(b, ';').contains(t) {
            lemma_lower_piece_found(reordered, raw, t);
        }
    }
    let x = lower_tokens(raw);
    let y = lower_tokens(other);
    assert forall|t: Seq<char>| #[trigger] x.contains(t) <==> y.contains(t) by {
        if x.contains(t) {
            lemma_lower_token_found(a, b, t);
        }
        if y.contains(t) {
            lemma_lower_token_found(b, a, t);
        }
    }
    lemma_same_buckets(x, y, name, other_name);
}

/// A piece in lower case is one of a text with the same pieces, too.
proof fn lemma_lower_piece_found(a: Seq<char>, b: Seq<char>, t: Seq<char>)
    requires
        same_pieces(a, b, ';'),
        pieces(ascii_lower(a), ';').contains(t),
    ensures
        pieces(ascii_lower(b), ';').contains(t),
{
    lemma_lower_pieces(a);
    lemma_lower_pieces(b);
    let x = pieces(a, ';');
    let y = pieces(b, ';');
    let low = pieces(ascii_lower(a), ';');
    let i = choose|i: int| 0 <= i < low.len() && low[i] == t;
    assert(low[i] == ascii_lower(x[i]));
    assert(x.contains(x[i]));
    let j = choose|j: int| 0 <= j < y.len() && y[j] == x[i];
    assert(pieces(ascii_lower(b), ';')[j] == t);
}

/// The keywords of categories with the categories that they stand for, the one
/// that counts most first.
pub open spec fn keywords() -> Seq<(Seq<char>, Seq<char>)> {
    seq![
        ("game"@, "Games"@),
        ("utility"@, "Utilities"@),
        ("development"@, "Development"@),
        ("network"@, "Network"@),
        ("audio"@, "Audio/Video"@),
        ("video"@, "Audio/Video"@),
        ("graphics"@, "Graphics"@),
        ("system"@, "System"@),
        ("office"@, "Office"@),
        ("education"@, "Education"@),
        ("settings"@, "Settings"@),
    ]
}

/// An app has the category of the first keyword that its lower-case value
/// holds, and without one it is a utility. The apps `claw` and `rofi` are
/// utilities, whatever their case.
pub proof fn the_first_keyword_decides(lower: Seq<char>, name: Seq<char>, first: int)
    requires
        0 <= first <= keywords().len(),
        forall|k: int| 0 <= k < first ==> !occurs(lower, (#[trigger] keywords()[k]).0),
        first < keywords().len() ==> occurs(lower, keywords()[first].0),
    ensures
        equal_ignoring_case(name, "claw"@) || equal_ignoring_case(name, "rofi"@) ==> bucket(
            lower,
            name,
        ) == "Utilities"@,
        !equal_ignoring_case(name, "claw"@) && !equal_ignoring_case(name, "rofi"@) ==> bucket(
            lower,
            name,
        ) == if first < keywords().len() {
            keywords()[first].1
        } else {
            "Utilities"@
        },
{
    let words = keywords();
    assert(words[0].0 == "game"@ && words[1].0 == "utility"@ && words[2].0 == "development"@);
    assert(words[3].0 == "network"@ && words[4].0 == "audio"@ && words[5].0 == "video"@);
    assert(words[6].0 == "graphics"@ && words[7].0 == "system"@ && words[8].0 == "office"@);
    assert(words[9].0 == "education"@ && words[10].0 == "settings"@);
}

} // verus!
