//! Menu fragments: which category token is shown under which menu.
//!
//! Only a flat map from lower-case category tokens to the names of menus is
//! kept: an app whose entry names a token is shown under that menu.

use quick_xml::events::Event;
use vstd::prelude::*;

use crate::desktop::text_in;
use crate::table::TextMap;
use crate::text::{
    begins, chars_of, lemma_texts_push, lowercase, pieces, same_text, split, starts_with, string_of,
    texts, to_lowercase, trim, trimmed,
};

verus! {

/// What the XML reader comes across, as far as menus go.
#[derive(Debug)]
pub enum XmlEvent {
    /// An opening tag with its name.
    Start(String),
    /// Text between tags; nothing where its entities cannot be resolved.
    Text(Option<String>),
    /// A closing tag with its name.
    End(String),
    /// The end of the document.
    Eof,
    /// Anything else: comments, declarations, tags that close themselves.
    Other,
}

/// What an event says; `Fault` stands for a document that cannot be read on.
#[verifier::ext_equal]
pub enum Token {
    Start(Seq<char>),
    Text(Option<Seq<char>>),
    End(Seq<char>),
    Eof,
    Other,
    Fault,
}

impl View for XmlEvent {
    type V = Token;

    open spec fn view(&self) -> Token {
        match *self {
            XmlEvent::Start(name) => Token::Start(name@),
            XmlEvent::Text(text) => Token::Text(text_in(text)),
            XmlEvent::End(name) => Token::End(name@),
            XmlEvent::Eof => Token::Eof,
            XmlEvent::Other => Token::Other,
        }
    }
}

/// The XML reader of `quick_xml`.
#[verifier::external_type_specification]
#[verifier::external_body]
#[verifier::reject_recursive_types(R)]
pub struct ExReader<R>(quick_xml::Reader<R>);

/// A failure of `quick_xml`.
#[verifier::external_type_specification]
#[verifier::external_body]
pub struct ExXmlError(quick_xml::Error);

/// What `quick_xml` reads from a document, up to its end or its first fault.
pub uninterp spec fn xml_tokens(document: Seq<u8>) -> Seq<Token>;

/// What a reader over bytes will hand out, up to and with the end of its
/// document or the first fault.
pub uninterp spec fn pending(reader: quick_xml::Reader<&[u8]>) -> Seq<Token>;

/// `quick_xml::Reader::from_reader` over bytes, with text trimmed at its two
/// ends: the reader holds what the document holds, and that is at least its
/// end or a fault.
#[verifier::external_body]
fn open_document<'a>(document: &'a [u8]) -> (r: quick_xml::Reader<&'a [u8]>)
    ensures
        pending(r) == xml_tokens(document@),
        pending(r).len() > 0,
{
    let mut reader = quick_xml::Reader::from_reader(document);
    reader.config_mut().trim_text(true);
    reader
}

/// `quick_xml::Reader::read_event_into`: hands out the first thing that the
/// reader will hand out. Behind an event within the document the others follow,
/// and there is at least one. The end of the document and a fault are the last
/// thing; a reader at the end stays there. What a reader hands out after a
/// fault is not said. Names are decoded from UTF-8 with replacement characters,
/// and the entities of a text are resolved by `BytesText::unescape`.
#[verifier::external_body]
fn next_event(reader: &mut quick_xml::Reader<&[u8]>) -> (r: Result<XmlEvent, quick_xml::Error>)
    requires
        pending(*old(reader)).len() > 0,
    ensures
        match r {
            Ok(event) => pending(*old(reader))[0] == event@,
            Err(_) => pending(*old(reader))[0] == Token::Fault,
        },
        r is Err || r->Ok_0 is Eof ==> pending(*old(reader)).len() == 1,
        r is Ok && r->Ok_0 is Eof ==> pending(*final(reader)) == pending(*old(reader)),
        r is Ok && !(r->Ok_0 is Eof) ==> pending(*old(reader)).len() > 1 && pending(*final(reader))
            == pending(*old(reader)).drop_first(),
{
    let mut buf = Vec::new();
    Ok(match reader.read_event_into(&mut buf)? {
        Event::Start(e) => {
            XmlEvent::Start(String::from_utf8_lossy(e.name().as_ref()).into_owned())
        },
        Event::Text(t) => XmlEvent::Text(t.unescape().ok().map(|s| s.into_owned())),
        Event::End(e) => XmlEvent::End(String::from_utf8_lossy(e.name().as_ref()).into_owned()),
        Event::Eof => XmlEvent::Eof,
        _ => XmlEvent::Other,
    })
}

/// A menu that is being read.
#[verifier::ext_equal]
pub struct OpenMenu {
    pub name: Option<Seq<char>>,
    pub directory: Option<Seq<char>>,
    pub in_include: bool,
    pub categories: Seq<Seq<char>>,
}

/// A menu that has been read and includes categories.
#[verifier::ext_equal]
pub struct ReadMenu {
    pub name: Option<Seq<char>>,
    pub directory: Option<Seq<char>>,
    pub categories: Seq<Seq<char>>,
}

/// How far a document has been read.
#[verifier::ext_equal]
pub struct Progress {
    /// The menus that are open, the innermost one last.
    pub open: Seq<OpenMenu>,
    /// The names of the elements that are open, the innermost one last.
    pub path: Seq<Seq<char>>,
    /// The text since the last tag.
    pub text: Seq<char>,
    /// The menus that have been read.
    pub menus: Seq<ReadMenu>,
}

impl OpenMenu {
    /// A menu of which nothing is known.
    pub open spec fn blank() -> OpenMenu {
        OpenMenu { name: None, directory: None, in_include: false, categories: Seq::empty() }
    }

    /// The menu after an element inside it has been closed.
    pub open spec fn after_element(
        self,
        element: Seq<char>,
        parent_is_menu: bool,
        text: Seq<char>,
    ) -> OpenMenu {
        if element == "Name"@ && parent_is_menu {
            OpenMenu { name: Some(trimmed(text)), ..self }
        } else if element == "Directory"@ && parent_is_menu {
            OpenMenu { directory: Some(trimmed(text)), ..self }
        } else if element == "Category"@ && self.in_include {
            OpenMenu { categories: self.categories.push(trimmed(text)), ..self }
        } else {
            self
        }
    }
}

impl Progress {
    /// Nothing read yet.
    pub open spec fn start() -> Progress {
        Progress {
            open: Seq::empty(),
            path: Seq::empty(),
            text: Seq::empty(),
            menus: Seq::empty(),
        }
    }

    /// The innermost open menu replaced.
    pub open spec fn with_top(self, top: OpenMenu) -> Progress {
        Progress { open: self.open.drop_last().push(top), ..self }
    }

    /// An element begins.
    pub open spec fn opened(self, name: Seq<char>) -> Progress {
        let p = if name == "Menu"@ {
            Progress { open: self.open.push(OpenMenu::blank()), ..self }
        } else if name == "Include"@ && self.open.len() > 0 {
            self.with_top(OpenMenu { in_include: true, ..self.open.last() })
        } else {
            self
        };
        Progress { path: self.path.push(name), text: Seq::empty(), ..p }
    }

    /// Whether the element around the innermost one is a menu.
    pub open spec fn parent_is_menu(self) -> bool {
        self.path.len() >= 2 && self.path[self.path.len() - 2] == "Menu"@
    }

    /// The innermost menu has taken what its closed element says.
    pub open spec fn noted(self, name: Seq<char>) -> Progress {
        if self.open.len() > 0 {
            self.with_top(self.open.last().after_element(name, self.parent_is_menu(), self.text))
        } else {
            self
        }
    }

    /// An element ends: a menu that includes categories has been read then.
    pub open spec fn closed(self, name: Seq<char>) -> Progress {
        let p = self.noted(name);
        let q = if p.open.len() == 0 {
            p
        } else if name == "Include"@ {
            p.with_top(OpenMenu { in_include: false, ..p.open.last() })
        } else if name == "Menu"@ {
            let top = p.open.last();
            Progress {
                open: p.open.drop_last(),
                menus: if top.categories.len() > 0 {
                    p.menus.push(
                        ReadMenu {
                            name: top.name,
                            directory: top.directory,
                            categories: top.categories,
                        },
                    )
                } else {
                    p.menus
                },
                ..p
            }
        } else {
            p
        };
        Progress {
            path: if self.path.len() > 0 {
                self.path.drop_last()
            } else {
                self.path
            },
            text: Seq::empty(),
            ..q
        }
    }

    /// The progress after one more event.
    pub open spec fn after(self, token: Token) -> Progress {
        match token {
            Token::Start(name) => self.opened(name),
            Token::Text(Some(text)) => Progress { text: self.text + text, ..self },
            Token::End(name) => self.closed(name),
            _ => self,
        }
    }

    /// The progress after some events.
    pub open spec fn after_all(self, tokens: Seq<Token>) -> Progress
        decreases tokens.len(),
    {
        if tokens.len() == 0 {
            self
        } else {
            self.after_all(tokens.drop_last()).after(tokens.last())
        }
    }
}

/// A menu that is being read, as the program holds it.
struct Frame {
    name: Option<String>,
    directory: Option<String>,
    in_include: bool,
    categories: Vec<String>,
}

impl View for Frame {
    type V = OpenMenu;

    closed spec fn view(&self) -> OpenMenu {
        OpenMenu {
            name: text_in(self.name),
            directory: text_in(self.directory),
            in_include: self.in_include,
            categories: texts(self.categories@),
        }
    }
}

impl Frame {
    /// A menu of which nothing is known.
    fn new() -> (r: Frame)
        ensures
            r@ == OpenMenu::blank(),
    {
        let categories: Vec<String> = Vec::new();
        assert(texts(categories@) =~= Seq::<Seq<char>>::empty());
        Frame { name: None, directory: None, in_include: false, categories }
    }

    /// Takes what an element inside the menu says.
    fn take_element(&mut self, element: &str, parent_is_menu: bool, text: &str)
        ensures
            final(self)@ == old(self)@.after_element(element@, parent_is_menu, text@),
    {
        if same_text(element, "Name") && parent_is_menu {
            self.name = Some(trim(text));
        } else if same_text(element, "Directory") && parent_is_menu {
            self.directory = Some(trim(text));
        } else if same_text(element, "Category") && self.in_include {
            let category = trim(text);
            proof {
                lemma_texts_push(self.categories@, category);
            }
            self.categories.push(category);
        }
    }
}

/// A menu that has been read and includes categories.
#[derive(Debug)]
pub struct MenuEntry {
    pub name: Option<String>,
    /// The file that names the menu, below one of the directories for such
    /// files.
    pub directory: Option<String>,
    pub categories: Vec<String>,
}

impl View for MenuEntry {
    type V = ReadMenu;

    open spec fn view(&self) -> ReadMenu {
        ReadMenu {
            name: text_in(self.name),
            directory: text_in(self.directory),
            categories: texts(self.categories@),
        }
    }
}

/// Reads the events of a menu fragment.
pub struct MenuParser {
    stack: Vec<Frame>,
    path_names: Vec<String>,
    text: String,
    menus: Vec<MenuEntry>,
}

/// What a list of frames says.
closed spec fn frames(s: Seq<Frame>) -> Seq<OpenMenu> {
    s.map_values(|f: Frame| f@)
}

/// What a list of menus says.
pub open spec fn menus_of(s: Seq<MenuEntry>) -> Seq<ReadMenu> {
    s.map_values(|m: MenuEntry| m@)
}

impl View for MenuParser {
    type V = Progress;

    closed spec fn view(&self) -> Progress {
        Progress {
            open: frames(self.stack@),
            path: texts(self.path_names@),
            text: self.text@,
            menus: menus_of(self.menus@),
        }
    }
}

impl MenuParser {
    /// Nothing read yet.
    pub fn new() -> (r: MenuParser)
        ensures
            r@ == Progress::start(),
    {
        let r = MenuParser {
            stack: Vec::new(),
            path_names: Vec::new(),
            text: String::new(),
            menus: Vec::new(),
        };
        assert(r@ =~= Progress::start());
        r
    }

    /// An element begins.
    fn open_element(&mut self, name: String)
        ensures
            final(self)@ == old(self)@.opened(name@),
    {
        let ghost before = self@;
        if same_text(name.as_str(), "Menu") {
            let frame = Frame::new();
            assert(frames(self.stack@.push(frame)) =~= frames(self.stack@).push(frame@));
            self.stack.push(frame);
        } else if same_text(name.as_str(), "Include") {
            match self.stack.pop() {
                Some(mut top) => {
                    let ghost rest = self.stack@;
                    assert(frames(old(self).stack@).last() == top@);
                    assert(frames(old(self).stack@).drop_last() =~= frames(rest));
                    top.in_include = true;
                    assert(frames(rest.push(top)) =~= frames(rest).push(top@));
                    self.stack.push(top);
                },
                None => {},
            }
        }
        proof {
            lemma_texts_push(self.path_names@, name);
        }
        self.path_names.push(name);
        self.text = String::new();
        assert(self@ =~= before.opened(name@));
    }

    /// An element ends.
    fn close_element(&mut self, name: String)
        ensures
            final(self)@ == old(self)@.closed(name@),
    {
        let ghost before = self@;
        let n = self.path_names.len();
        let parent_is_menu = n >= 2 && same_text(self.path_names[n - 2].as_str(), "Menu");
        assert(n >= 2 ==> before.path[n - 2] == self.path_names@[n - 2]@);
        match self.stack.pop() {
            Some(mut top) => {
                let ghost rest = self.stack@;
                assert(frames(old(self).stack@).last() == top@);
                assert(frames(old(self).stack@).drop_last() =~= frames(rest));
                top.take_element(name.as_str(), parent_is_menu, self.text.as_str());
                let ghost noted = before.noted(name@);
                assert(noted.open =~= frames(rest).push(top@));
                assert(noted.open.drop_last() =~= frames(rest));
                if same_text(name.as_str(), "Include") {
                    top.in_include = false;
                    assert(frames(rest.push(top)) =~= frames(rest).push(top@));
                    self.stack.push(top);
                } else if same_text(name.as_str(), "Menu") {
                    if top.categories.len() > 0 {
                        let menu = MenuEntry {
                            name: top.name,
                            directory: top.directory,
                            categories: top.categories,
                        };
                        assert(menus_of(self.menus@.push(menu)) =~= menus_of(self.menus@).push(
                            menu@,
                        ));
                        self.menus.push(menu);
                    }
                } else {
                    assert(frames(rest.push(top)) =~= frames(rest).push(top@));
                    self.stack.push(top);
                }
            },
            None => {
                assert(before.open.len() == 0);
            },
        }
        self.text = String::new();
        let ghost names = self.path_names@;
        if self.path_names.len() > 0 {
            self.path_names.pop();
            assert(texts(names).drop_last() =~= texts(self.path_names@));
        }
        assert(self@ =~= before.closed(name@));
    }

    /// Takes one more event.
    pub fn take(&mut self, event: XmlEvent)
        ensures
            final(self)@ == old(self)@.after(event@),
    {
        match event {
            XmlEvent::Start(name) => {
                self.open_element(name);
            },
            XmlEvent::Text(Some(text)) => {
                self.text.append(text.as_str());
            },
            XmlEvent::End(name) => {
                self.close_element(name);
            },
            _ => {},
        }
    }

    /// The menus that have been read.
    pub fn into_menus(self) -> (r: Vec<MenuEntry>)
        ensures
            menus_of(r@) == self@.menus,
    {
        self.menus
    }
}

/// Why a menu fragment was not read to its end.
#[derive(Debug, Clone, Copy, PartialEq, Eq, Structural)]
pub enum MenuError {
    /// The document is no well-formed XML from some point on.
    Malformed,
}

/// Reads a menu fragment: the menus that include categories, up to the end of
/// the document or to the point from which it cannot be read.
pub fn parse_menu_file(document: &[u8]) -> (r: (Vec<MenuEntry>, Result<(), MenuError>))
    ensures
        menus_of(r.0@) == Progress::start().after_all(xml_tokens(document@)).menus,
        r.1 is Err <==> xml_tokens(document@).last() == Token::Fault,
{
    let mut reader = open_document(document);
    let mut parser = MenuParser::new();
    let ghost all = xml_tokens(document@);
    let ghost mut n: int = 0;
    assert(all.take(0) =~= Seq::<Token>::empty());
    assert(all.skip(0) =~= all);
    loop
        invariant
            0 <= n < all.len(),
            all == xml_tokens(document@),
            pending(reader) == all.skip(n),
            parser@ == Progress::start().after_all(all.take(n)),
        decreases all.len() - n,
    {
        let step = next_event(&mut reader);
        proof {
            assert(all.skip(n)[0] == all[n]);
            assert(all.skip(n).drop_first() =~= all.skip(n + 1));
            assert(all.take(n + 1).drop_last() =~= all.take(n));
            assert(all.take(n + 1).last() == all[n]);
            n = n + 1;
            assert(n == all.len() ==> all.take(n) =~= all);
        }
        match step {
            Ok(XmlEvent::Eof) => {
                return (parser.into_menus(), Ok(()));
            },
            Ok(event) => {
                parser.take(event);
            },
            Err(_) => {
                return (parser.into_menus(), Err(MenuError::Malformed));
            },
        }
    }
}

/// What the lines of a directory file have said so far.
#[verifier::ext_equal]
pub struct Naming {
    pub in_entry: bool,
    pub name: Option<Seq<char>>,
}

impl Naming {
    /// What is known after one more line: the first `Name=` of the desktop
    /// entry's own group counts.
    pub open spec fn after(self, raw: Seq<char>) -> Naming {
        let line = trimmed(raw);
        if self.name is Some {
            self
        } else if line.len() > 0 && line[0] == '[' {
            Naming { in_entry: line == "[Desktop Entry]"@, ..self }
        } else if self.in_entry && begins(line, "Name="@) {
            Naming { name: Some(trimmed(line.skip("Name="@.len() as int))), ..self }
        } else {
            self
        }
    }

    /// What is known after some lines.
    pub open spec fn after_all(self, lines: Seq<Seq<char>>) -> Naming
        decreases lines.len(),
    {
        if lines.len() == 0 {
            self
        } else {
            self.after_all(lines.drop_last()).after(lines.last())
        }
    }
}

/// The name that a directory file gives.
pub open spec fn directory_name(content: Seq<char>) -> Option<Seq<char>> {
    Naming { in_entry: false, name: None }.after_all(pieces(content, '\n')).name
}

/// A name that has been found stays.
proof fn lemma_name_stays(n: Naming, lines: Seq<Seq<char>>)
    requires
        n.name is Some,
    ensures
        n.after_all(lines).name == n.name,
    decreases lines.len(),
{
    if lines.len() > 0 {
        lemma_name_stays(n, lines.drop_last());
    }
}

/// Lines read one after another.
proof fn lemma_naming_concat(n: Naming, a: Seq<Seq<char>>, b: Seq<Seq<char>>)
    ensures
        n.after_all(a + b) == n.after_all(a).after_all(b),
    decreases b.len(),
{
    if b.len() == 0 {
        assert(a + b =~= a);
    } else {
        assert((a + b).drop_last() =~= a + b.drop_last());
        lemma_naming_concat(n, a, b.drop_last());
    }
}

/// The name that a directory file gives.
pub fn name_in_directory_file(content: &str) -> (r: Option<String>)
    ensures
        text_in(r) == directory_name(content@),
{
    let lines = split(content, '\n');
    let ghost all = texts(lines@);
    let ghost start = Naming { in_entry: false, name: None };
    let mut in_entry = false;
    for i in 0..lines.len()
        invariant
            all == texts(lines@),
            start == (Naming { in_entry: false, name: None }),
            all == pieces(content@, '\n'),
            start.after_all(all.take(i as int)) == (Naming { in_entry, name: None }),
    {
        assert(all.take(i + 1).drop_last() =~= all.take(i as int));
        assert(all.take(i + 1).last() == lines@[i as int]@);
        let line = trim(lines[i].as_str());
        let v = chars_of(line.as_str());
        if v.len() > 0 && v[0] == '[' {
            in_entry = same_text(line.as_str(), "[Desktop Entry]");
        } else if in_entry && starts_with(line.as_str(), "Name=") {
            proof {
                reveal_strlit("Name=");
            }
            let rest = string_of(&v, 5, v.len());
            let name = trim(rest.as_str());
            proof {
                assert(v@.subrange(5, v@.len() as int) =~= v@.skip(5));
                assert(all =~= all.take(i + 1) + all.skip(i + 1));
                lemma_naming_concat(start, all.take(i + 1), all.skip(i + 1));
                lemma_name_stays(start.after_all(all.take(i + 1)), all.skip(i + 1));
            }
            return Some(name);
        }
    }
    assert(all.take(all.len() as int) == all);
    None
}

/// The first name that one of some files gives; a file that cannot be read is
/// passed over.
pub open spec fn first_name(contents: Seq<Option<String>>) -> Option<Seq<char>>
    decreases contents.len(),
{
    if contents.len() == 0 {
        None
    } else {
        match contents[0] {
            Some(content) => match directory_name(content@) {
                Some(name) => Some(name),
                None => first_name(contents.drop_first()),
            },
            None => first_name(contents.drop_first()),
        }
    }
}

/// The name of a menu from the files that its directory entry stands for, in
/// the order of the directories.
pub fn resolve_directory_name(contents: &Vec<Option<String>>) -> (r: Option<String>)
    ensures
        text_in(r) == first_name(contents@),
{
    assert(contents@.skip(0) =~= contents@);
    for i in 0..contents.len()
        invariant
            first_name(contents@) == first_name(contents@.skip(i as int)),
    {
        assert(contents@.skip(i as int)[0] == contents@[i as int]);
        assert(contents@.skip(i as int).drop_first() =~= contents@.skip(i + 1));
        if let Some(content) = &contents[i] {
            let name = name_in_directory_file(content.as_str());
            if name.is_some() {
                return name;
            }
        }
    }
    None
}

/// The names that a map from tokens to menus gives.
pub open spec fn menu_names(m: Map<Seq<char>, String>) -> Map<Seq<char>, Seq<char>> {
    m.map_values(|s: String| s@)
}

/// A map with every token of a list routed to one menu.
pub open spec fn routed(
    m: Map<Seq<char>, Seq<char>>,
    categories: Seq<Seq<char>>,
    menu: Seq<char>,
) -> Map<Seq<char>, Seq<char>>
    decreases categories.len(),
{
    if categories.len() == 0 {
        m
    } else {
        let before = routed(m, categories.drop_last(), menu);
        let key = lowercase(trimmed(categories.last()));
        if key.len() == 0 {
            before
        } else {
            before.insert(key, menu)
        }
    }
}

/// The name that a menu is shown under: that of its directory file, or else
/// its own.
pub open spec fn shown_menu(menu: ReadMenu, contents: Seq<Option<String>>) -> Option<Seq<char>> {
    match (menu.directory, first_name(contents)) {
        (Some(_), Some(name)) => Some(name),
        _ => menu.name,
    }
}

/// A map with the categories of a menu routed to it.
pub open spec fn with_menu(
    m: Map<Seq<char>, Seq<char>>,
    menu: ReadMenu,
    contents: Seq<Option<String>>,
) -> Map<Seq<char>, Seq<char>> {
    match shown_menu(menu, contents) {
        Some(name) => routed(m, menu.categories, name),
        None => m,
    }
}

/// A map with the categories of some menus routed to them, one after another.
pub open spec fn with_menus(
    m: Map<Seq<char>, Seq<char>>,
    menus: Seq<(MenuEntry, Vec<Option<String>>)>,
) -> Map<Seq<char>, Seq<char>>
    decreases menus.len(),
{
    if menus.len() == 0 {
        m
    } else {
        with_menu(with_menus(m, menus.drop_last()), menus.last().0@, menus.last().1@)
    }
}

/// What the menus of some fragments route, one fragment after another.
pub open spec fn merged(
    fragments: Seq<Option<Vec<(MenuEntry, Vec<Option<String>>)>>>,
) -> Map<Seq<char>, Seq<char>>
    decreases fragments.len(),
{
    if fragments.len() == 0 {
        Map::empty()
    } else {
        match fragments.last() {
            Some(menus) => with_menus(merged(fragments.drop_last()), menus@),
            None => merged(fragments.drop_last()),
        }
    }
}

/// Whether one of some fragments could not be read.
pub open spec fn any_unread(
    fragments: Seq<Option<Vec<(MenuEntry, Vec<Option<String>>)>>>,
) -> bool {
    exists|i: int| 0 <= i < fragments.len() && (#[trigger] fragments[i]) is None
}

/// Routes the categories of a menu to it. `contents` are the files that its
/// directory entry stands for, in the order of the directories.
pub fn apply_menu(menu: &MenuEntry, contents: &Vec<Option<String>>, out: &mut TextMap<String>)
    ensures
        menu_names(final(out)@) == with_menu(menu_names(old(out)@), menu@, contents@),
{
    let named = match &menu.directory {
        Some(_) => resolve_directory_name(contents),
        None => None,
    };
    let display = match named {
        Some(name) => Some(name),
        None => menu.name.clone(),
    };
    if let Some(name) = display {
        let ghost cats = texts(menu.categories@);
        assert(routed(menu_names(old(out)@), cats.take(0), name@) == menu_names(out@));
        for i in 0..menu.categories.len()
            invariant
                cats == texts(menu.categories@),
                menu_names(out@) == routed(menu_names(old(out)@), cats.take(i as int), name@),
        {
            assert(cats.take(i + 1).drop_last() =~= cats.take(i as int));
            assert(cats.take(i + 1).last() == menu.categories@[i as int]@);
            let part = trim(menu.categories[i].as_str());
            let key = to_lowercase(part.as_str());
            if !key.as_str().is_empty() {
                let ghost before = out@;
                out.insert(key, name.clone());
                assert(menu_names(before.insert(key@, name)) =~= menu_names(before).insert(
                    key@,
                    name@,
                ));
            }
        }
        assert(cats.take(cats.len() as int) == cats);
    }
}

/// What the user's fragments route: each holds its menus, with the files that
/// their directory entries stand for, or nothing if it could not be read to its
/// end. Nothing is routed where a fragment could not be read.
pub fn merge_fragments(
    fragments: &Vec<Option<Vec<(MenuEntry, Vec<Option<String>>)>>>,
) -> (r: TextMap<String>)
    ensures
        menu_names(r@) == if any_unread(fragments@) {
            Map::empty()
        } else {
            merged(fragments@)
        },
{
    let mut out: TextMap<String> = TextMap::new();
    assert(menu_names(out@) =~= Map::<Seq<char>, Seq<char>>::empty());
    for i in 0..fragments.len()
        invariant
            menu_names(out@) == merged(fragments@.take(i as int)),
            forall|j: int| 0 <= j < i ==> (#[trigger] fragments@[j]) is Some,
    {
        assert(fragments@.take(i + 1).drop_last() =~= fragments@.take(i as int));
        assert(fragments@.take(i + 1).last() == fragments@[i as int]);
        match &fragments[i] {
            Some(menus) => {
                let ghost before = menu_names(out@);
                assert(with_menus(before, menus@.take(0)) == before);
                for k in 0..menus.len()
                    invariant
                        menu_names(out@) == with_menus(before, menus@.take(k as int)),
                {
                    assert(menus@.take(k + 1).drop_last() =~= menus@.take(k as int));
                    assert(menus@.take(k + 1).last() == menus@[k as int]);
                    apply_menu(&menus[k].0, &menus[k].1, &mut out);
                }
                assert(menus@.take(menus@.len() as int) == menus@);
            },
            None => {
                let none: TextMap<String> = TextMap::new();
                assert(menu_names(none@) =~= Map::<Seq<char>, Seq<char>>::empty());
                assert(fragments@[i as int] is None);
                return none;
            },
        }
    }
    assert(fragments@.take(fragments@.len() as int) == fragments@);
    out
}

/// The lower-case keys of some category tokens.
pub open spec fn keys_of(tokens: Seq<Seq<char>>) -> Seq<Seq<char>> {
    tokens.map_values(|t: Seq<char>| lowercase(trimmed(t)))
}

/// The menu of the first key that has one; an empty key has none.
pub open spec fn first_routed(
    keys: Seq<Seq<char>>,
    names: Map<Seq<char>, Seq<char>>,
) -> Option<Seq<char>>
    decreases keys.len(),
{
    if keys.len() == 0 {
        None
    } else if keys[0].len() > 0 && names.contains_key(keys[0]) {
        Some(names[keys[0]])
    } else {
        first_routed(keys.drop_first(), names)
    }
}

/// The menu of the first lower-case key that has one.
pub fn first_menu(keys: &Vec<String>, overrides: &TextMap<String>) -> (r: Option<String>)
    ensures
        text_in(r) == first_routed(texts(keys@), menu_names(overrides@)),
{
    let ghost all = texts(keys@);
    assert(all.skip(0) =~= all);
    for i in 0..keys.len()
        invariant
            all == texts(keys@),
            first_routed(all, menu_names(overrides@)) == first_routed(
                all.skip(i as int),
                menu_names(overrides@),
            ),
    {
        assert(all.skip(i as int)[0] == keys@[i as int]@);
        assert(all.skip(i as int).drop_first() =~= all.skip(i + 1));
        if !keys[i].as_str().is_empty() {
            if let Some(name) = overrides.get(keys[i].as_str()) {
                return Some(name.clone());
            }
        }
    }
    None
}

/// The menu that an app's `Categories` value routes it to: the first of its
/// tokens that has a menu wins, whatever the token's case. Without such a
/// token the app keeps the category that it has by itself.
pub fn override_category(raw_categories: &str, overrides: &TextMap<String>) -> (r: Option<String>)
    ensures
        text_in(r) == first_routed(keys_of(pieces(raw_categories@, ';')), menu_names(overrides@)),
{
    let tokens = split(raw_categories, ';');
    let ghost all = texts(tokens@);
    let mut keys: Vec<String> = Vec::new();
    assert(texts(keys@) =~= keys_of(all.take(0)));
    for i in 0..tokens.len()
        invariant
            all == texts(tokens@),
            texts(keys@) == keys_of(all.take(i as int)),
    {
        let token = trim(tokens[i].as_str());
        let key = to_lowercase(token.as_str());
        proof {
            lemma_texts_push(keys@, key);
            assert(all.take(i + 1) =~= all.take(i as int).push(tokens@[i as int]@));
            assert(keys_of(all.take(i + 1)) =~= keys_of(all.take(i as int)).push(key@));
        }
        keys.push(key);
    }
    assert(all.take(all.len() as int) == all);
    first_menu(&keys, overrides)
}

/// Once a menu has been taken in, each category that it includes leads to it,
/// and every token that it does not include leads where it led before.
pub proof fn a_menu_takes_its_categories(
    m: Map<Seq<char>, Seq<char>>,
    categories: Seq<Seq<char>>,
    menu: Seq<char>,
)
    ensures
        forall|i: int|
            0 <= i < categories.len() && lowercase(trimmed(#[trigger] categories[i])).len() > 0
                ==> routed(m, categories, menu).contains_key(lowercase(trimmed(categories[i])))
                && routed(m, categories, menu)[lowercase(trimmed(categories[i]))] == menu,
        forall|key: Seq<char>|
            (forall|i: int|
                0 <= i < categories.len() ==> lowercase(trimmed(#[trigger] categories[i])) != key)
                ==> (#[trigger] routed(m, categories, menu).contains_key(key) <==> m.contains_key(
                key,
            )) && (m.contains_key(key) ==> routed(m, categories, menu)[key] == m[key]),
    decreases categories.len(),
{
    if categories.len() > 0 {
        let rest = categories.drop_last();
        a_menu_takes_its_categories(m, rest, menu);
        assert forall|i: int|
            0 <= i < categories.len() && lowercase(
                trimmed(#[trigger] categories[i]),
            ).len() > 0 implies routed(m, categories, menu).contains_key(
            lowercase(trimmed(categories[i])),
        ) && routed(m, categories, menu)[lowercase(trimmed(categories[i]))] == menu by {
            if i < rest.len() {
                assert(rest[i] == categories[i]);
            }
        }
        assert forall|key: Seq<char>|
            (forall|i: int|
                0 <= i < categories.len() ==> lowercase(trimmed(#[trigger] categories[i]))
                    != key) implies (#[trigger] routed(m, categories, menu).contains_key(key)
            <==> m.contains_key(key)) && (m.contains_key(key) ==> routed(
            m,
            categories,
            menu,
        )[key] == m[key]) by {
            assert forall|i: int| 0 <= i < rest.len() implies lowercase(
                trimmed(#[trigger] rest[i]),
            ) != key by {
                assert(rest[i] == categories[i]);
            }
            assert(routed(m, rest, menu).contains_key(key) <==> m.contains_key(key));
            assert(lowercase(trimmed(categories[categories.len() - 1])) != key);
        }
    }
}

/// Of an app's keys, the first one that has a menu decides, whatever stands
/// behind it; without such a key there is no menu.
pub proof fn the_first_key_with_a_menu_decides(
    keys: Seq<Seq<char>>,
    overrides: Map<Seq<char>, Seq<char>>,
    at: int,
)
    requires
        0 <= at <= keys.len(),
        forall|i: int|
            0 <= i < at ==> (#[trigger] keys[i]).len() == 0 || !overrides.contains_key(keys[i]),
    ensures
        at == keys.len() ==> first_routed(keys, overrides) is None,
        at < keys.len() && keys[at].len() > 0 && overrides.contains_key(keys[at]) ==> first_routed(
            keys,
            overrides,
        ) == Some(overrides[keys[at]]),
    decreases keys.len(),
{
    if keys.len() > 0 && at > 0 {
        let rest = keys.drop_first();
        assert forall|i: int| 0 <= i < at - 1 implies (#[trigger] rest[i]).len() == 0
            || !overrides.contains_key(rest[i]) by {
            assert(rest[i] == keys[i + 1]);
        }
        the_first_key_with_a_menu_decides(rest, overrides, at - 1);
        assert(keys[0].len() == 0 || !overrides.contains_key(keys[0]));
        assert(at < keys.len() ==> rest[at - 1] == keys[at]);
    }
}

} // verus!
