//! The command that starts an entry, and its form for sway's `exec`.

use vstd::prelude::*;

use crate::app::{AppEntry, Entry};
use crate::config::BstlConfig;
use crate::text::{
    chars_of, is_white, lemma_texts_push, occurs, split_whitespace, texts, white, words,
};

verus! {

/// A program with its arguments.
#[derive(Debug)]
pub struct Command {
    pub program: String,
    pub args: Vec<String>,
}

/// A program with its arguments.
#[verifier::ext_equal]
pub struct CommandLine {
    pub program: Seq<char>,
    pub args: Seq<Seq<char>>,
}

impl View for Command {
    type V = CommandLine;

    open spec fn view(&self) -> CommandLine {
        CommandLine { program: self.program@, args: texts(self.args@) }
    }
}

/// The command that hands a line to a shell.
pub open spec fn shell_line(line: Seq<char>) -> CommandLine {
    CommandLine { program: "sh"@, args: seq!["-c"@, line] }
}

/// The command that starts an entry in a terminal, or without one.
///
/// A terminal of one word gets the flag `-e`; one of more words is taken to
/// bring its own flags. Without a terminal the shell runs the entry.
pub open spec fn entry_line(entry: Entry, terminal: Seq<char>) -> CommandLine {
    let parts = words(terminal);
    if (entry.terminal || entry.wants_terminal()) && parts.len() > 0 {
        CommandLine {
            program: parts[0],
            args: if parts.len() == 1 {
                seq!["-e"@, entry.exec_line]
            } else {
                parts.skip(1).push(entry.exec_line)
            },
        }
    } else {
        shell_line(entry.exec_line)
    }
}

/// Whether a character makes sway split or misread an argument.
pub open spec fn needs_quotes(c: char) -> bool {
    is_white(c) || c == ',' || c == ';' || c == '"' || c == '\\'
}

/// A text with a backslash before each quote and each backslash.
pub open spec fn escaped(s: Seq<char>) -> Seq<char>
    decreases s.len(),
{
    if s.len() == 0 {
        Seq::empty()
    } else if s.last() == '"' || s.last() == '\\' {
        escaped(s.drop_last()) + seq!['\\', s.last()]
    } else {
        escaped(s.drop_last()).push(s.last())
    }
}

/// Whether an argument has to stand in quotes.
pub open spec fn wants_quotes(arg: Seq<char>) -> bool {
    arg.len() == 0 || exists|i: int| 0 <= i < arg.len() && needs_quotes(#[trigger] arg[i])
}

/// An argument as sway reads it.
pub open spec fn quoted(arg: Seq<char>) -> Seq<char> {
    if wants_quotes(arg) {
        "\""@ + escaped(arg) + "\""@
    } else {
        arg
    }
}

/// The arguments, each with a space before it.
pub open spec fn spaced(args: Seq<Seq<char>>) -> Seq<char>
    decreases args.len(),
{
    if args.len() == 0 {
        Seq::empty()
    } else {
        spaced(args.drop_last()) + " "@ + quoted(args.last())
    }
}

/// A command as one line for sway.
pub open spec fn sway_line(command: CommandLine) -> Seq<char> {
    quoted(command.program) + spaced(command.args)
}

/// What has been read of a line for sway.
#[verifier::ext_equal]
pub struct Reading {
    /// The words that have ended.
    pub words: Seq<Seq<char>>,
    /// The word that has begun.
    pub word: Option<Seq<char>>,
    /// Whether a quote is open.
    pub in_quotes: bool,
    /// Whether the last character was a backslash that escapes the next one.
    pub after_backslash: bool,
    /// Whether a separator of commands stood outside of quotes.
    pub separated: bool,
}

impl Reading {
    /// Nothing read yet.
    pub open spec fn start() -> Reading {
        Reading {
            words: Seq::empty(),
            word: None,
            in_quotes: false,
            after_backslash: false,
            separated: false,
        }
    }

    /// The word that has begun, so far.
    pub open spec fn so_far(self) -> Seq<char> {
        match self.word {
            Some(w) => w,
            None => Seq::empty(),
        }
    }

    /// Reads one character: a comma or a semicolon outside of quotes separates
    /// commands, white space outside of quotes ends a word, and a backslash
    /// takes the next character as it stands.
    pub open spec fn read(self, c: char) -> Reading {
        if self.after_backslash {
            Reading { word: Some(self.so_far().push(c)), after_backslash: false, ..self }
        } else if c == '\\' {
            Reading { word: Some(self.so_far()), after_backslash: true, ..self }
        } else if c == '"' {
            Reading { word: Some(self.so_far()), in_quotes: !self.in_quotes, ..self }
        } else if self.in_quotes {
            Reading { word: Some(self.so_far().push(c)), ..self }
        } else if c == ',' || c == ';' {
            Reading { word: Some(self.so_far().push(c)), separated: true, ..self }
        } else if is_white(c) {
            match self.word {
                Some(w) => Reading { words: self.words.push(w), word: None, ..self },
                None => self,
            }
        } else {
            Reading { word: Some(self.so_far().push(c)), ..self }
        }
    }

    /// Reads a text.
    pub open spec fn read_all(self, s: Seq<char>) -> Reading
        decreases s.len(),
    {
        if s.len() == 0 {
            self
        } else {
            self.read_all(s.drop_last()).read(s.last())
        }
    }

    /// The words, the one that has begun among them.
    pub open spec fn all_words(self) -> Seq<Seq<char>> {
        match self.word {
            Some(w) => self.words.push(w),
            None => self.words,
        }
    }
}

/// Reading one text after another is reading the two as one.
proof fn lemma_read_concat(r: Reading, a: Seq<char>, b: Seq<char>)
    ensures
        r.read_all(a + b) == r.read_all(a).read_all(b),
    decreases b.len(),
{
    if b.len() == 0 {
        assert(a + b =~= a);
    } else {
        assert((a + b).drop_last() =~= a + b.drop_last());
        assert((a + b).last() == b.last());
        lemma_read_concat(r, a, b.drop_last());
    }
}

/// Between quotes an escaped text is read back as it was.
proof fn lemma_read_escaped(r: Reading, s: Seq<char>)
    requires
        r.in_quotes,
        !r.after_backslash,
    ensures
        r.read_all(escaped(s)) == (Reading {
            word: if s.len() == 0 {
                r.word
            } else {
                Some(r.so_far() + s)
            },
            ..r
        }),
    decreases s.len(),
{
    if s.len() > 0 {
        let t = s.drop_last();
        let c = s.last();
        lemma_read_escaped(r, t);
        let mid = r.read_all(escaped(t));
        assert(mid.so_far() =~= r.so_far() + t);
        assert((r.so_far() + t).push(c) =~= r.so_far() + s);
        if c == '"' || c == '\\' {
            let two = seq!['\\', c];
            lemma_read_concat(r, escaped(t), two);
            assert(two.drop_last() =~= seq!['\\']);
            assert(two.last() == c);
            assert(seq!['\\'].drop_last() =~= Seq::<char>::empty());
            assert(mid.read_all(seq!['\\'].drop_last()) == mid);
            assert(mid.read_all(seq!['\\']) == mid.read('\\'));
            assert(mid.read_all(two) == mid.read('\\').read(c));
        } else {
            assert(escaped(s).drop_last() =~= escaped(t));
            assert(escaped(s).last() == c);
        }
    }
}

/// A text without special characters is read back as it stands.
proof fn lemma_read_plain(r: Reading, s: Seq<char>)
    requires
        !r.in_quotes,
        !r.after_backslash,
        forall|i: int| 0 <= i < s.len() ==> !needs_quotes(#[trigger] s[i]),
    ensures
        r.read_all(s) == (Reading {
            word: if s.len() == 0 {
                r.word
            } else {
                Some(r.so_far() + s)
            },
            ..r
        }),
    decreases s.len(),
{
    if s.len() > 0 {
        let t = s.drop_last();
        assert forall|i: int| 0 <= i < t.len() implies !needs_quotes(#[trigger] t[i]) by {
            assert(t[i] == s[i]);
        }
        lemma_read_plain(r, t);
        assert(r.read_all(t).so_far() =~= r.so_far() + t);
        assert((r.so_far() + t).push(s.last()) =~= r.so_far() + s);
        assert(!needs_quotes(s[s.len() - 1]));
    }
}

/// A quoted argument is read back as one word.
proof fn lemma_read_quoted(r: Reading, arg: Seq<char>)
    requires
        !r.in_quotes,
        !r.after_backslash,
        r.word is None,
    ensures
        r.read_all(quoted(arg)) == (Reading { word: Some(arg), ..r }),
{
    if wants_quotes(arg) {
        reveal_strlit("\"");
        let quote = "\""@;
        assert(quote =~= seq!['"']);
        assert(quote.drop_last() =~= Seq::<char>::empty());
        let opened = Reading { word: Some(Seq::empty()), in_quotes: true, ..r };
        assert(r.read_all(quote.drop_last()) == r);
        assert(r.read_all(quote) =~= opened);
        lemma_read_concat(r, quote, escaped(arg));
        lemma_read_escaped(opened, arg);
        let filled = opened.read_all(escaped(arg));
        assert(Seq::<char>::empty() + arg =~= arg);
        assert(arg.len() == 0 ==> arg =~= Seq::<char>::empty());
        assert(filled =~= Reading { word: Some(arg), ..opened });
        lemma_read_concat(r, quote + escaped(arg), quote);
        assert(filled.read_all(quote.drop_last()) == filled);
        assert(filled.read_all(quote) =~= Reading { word: Some(arg), ..r });
    } else {
        lemma_read_plain(r, arg);
        assert(Seq::<char>::empty() + arg =~= arg);
    }
}

/// Arguments with spaces before them are read back one by one.
proof fn lemma_read_spaced(r: Reading, args: Seq<Seq<char>>)
    requires
        !r.in_quotes,
        !r.after_backslash,
        r.word is Some,
    ensures
        ({
            let end = r.read_all(spaced(args));
            &&& end.all_words() == r.all_words() + args
            &&& end.word is Some
            &&& end.in_quotes == r.in_quotes
            &&& end.after_backslash == r.after_backslash
            &&& end.separated == r.separated
        }),
    decreases args.len(),
{
    if args.len() == 0 {
        assert(r.all_words() + args =~= r.all_words());
    } else {
        let before = args.drop_last();
        lemma_read_spaced(r, before);
        let mid = r.read_all(spaced(before));
        reveal_strlit(" ");
        let space = " "@;
        assert(space =~= seq![' ']);
        assert(space.drop_last() =~= Seq::<char>::empty());
        lemma_read_concat(r, spaced(before), space);
        assert(mid.read_all(space.drop_last()) == mid);
        let gap = mid.read_all(space);
        assert(gap == mid.read(' '));
        lemma_read_concat(r, spaced(before) + space, quoted(args.last()));
        lemma_read_quoted(gap, args.last());
        assert(r.all_words() + args =~= (r.all_words() + before).push(args.last()));
    }
}

/// Sway reads a command line back as the command: it finds the program and
/// the arguments as they are, and no separator of commands among them.
pub proof fn sway_reads_the_command_back(command: CommandLine)
    ensures
        ({
            let end = Reading::start().read_all(sway_line(command));
            &&& end.all_words() == seq![command.program] + command.args
            &&& !end.separated
            &&& !end.in_quotes
            &&& !end.after_backslash
        }),
{
    let r = Reading::start();
    lemma_read_concat(r, quoted(command.program), spaced(command.args));
    lemma_read_quoted(r, command.program);
    let mid = r.read_all(quoted(command.program));
    assert(mid.all_words() =~= seq![command.program]);
    lemma_read_spaced(mid, command.args);
}

/// The command that hands a line to a shell.
fn shell_command(line: &String) -> (r: Command)
    ensures
        r@ == shell_line(line@),
{
    let mut args: Vec<String> = Vec::new();
    args.push("-c".to_owned());
    args.push(line.clone());
    assert(texts(args@) =~= seq!["-c"@, line@]);
    Command { program: "sh".to_owned(), args }
}

/// The command that starts an entry.
pub fn build_command(entry: &AppEntry, config: &BstlConfig) -> (r: Command)
    ensures
        r@ == entry_line(entry@, config.terminal@),
{
    if entry.terminal || entry.needs_terminal() {
        let parts = split_whitespace(config.terminal.as_str());
        if parts.len() > 0 {
            let mut args: Vec<String> = Vec::new();
            for i in 1..parts.len()
                invariant
                    1 <= i <= parts@.len(),
                    texts(args@) == texts(parts@).subrange(1, i as int),
            {
                let part = parts[i].clone();
                proof {
                    lemma_texts_push(args@, part);
                    assert(texts(parts@)[i as int] == part@);
                    assert(texts(parts@).subrange(1, i + 1) =~= texts(parts@).subrange(
                        1,
                        i as int,
                    ).push(part@));
                }
                args.push(part);
            }
            assert(texts(args@) =~= texts(parts@).skip(1));
            if parts.len() == 1 {
                args.push("-e".to_owned());
            }
            args.push(entry.exec_line.clone());
            let program = parts[0].clone();
            assert(program@ == texts(parts@)[0]);
            let command = Command { program, args };
            proof {
                if parts@.len() == 1 {
                    assert(texts(args@) =~= seq!["-e"@, entry.exec_line@]);
                } else {
                    assert(texts(args@) =~= texts(parts@).skip(1).push(entry.exec_line@));
                }
            }
            command
        } else {
            shell_command(&entry.exec_line)
        }
    } else {
        shell_command(&entry.exec_line)
    }
}

/// Whether an argument has to stand in quotes.
fn needs_quoting(v: &Vec<char>) -> (r: bool)
    ensures
        r == wants_quotes(v@),
{
    for i in 0..v.len()
        invariant
            forall|j: int| 0 <= j < i ==> !needs_quotes(#[trigger] v@[j]),
    {
        let c = v[i];
        if white(c) || c == ',' || c == ';' || c == '"' || c == '\\' {
            assert(needs_quotes(v@[i as int]));
            return true;
        }
    }
    v.len() == 0
}

/// An argument as sway reads it: one that is empty, or that holds white
/// space, a separator of commands, a quote or a backslash, stands in quotes.
pub fn quote_arg_for_sway(arg: &str) -> (r: String)
    ensures
        r@ == quoted(arg@),
{
    let v = chars_of(arg);
    if !needs_quoting(&v) {
        return arg.to_owned();
    }
    let mut r = "\"".to_owned();
    assert(escaped(v@.take(0)) =~= Seq::<char>::empty());
    assert(r@ =~= "\""@ + escaped(v@.take(0)));
    for i in 0..v.len()
        invariant
            r@ == "\""@ + escaped(v@.take(i as int)),
    {
        let c = v[i];
        assert(v@.take(i + 1).drop_last() == v@.take(i as int));
        assert(v@.take(i + 1).last() == c);
        if c == '\\' || c == '"' {
            r.push('\\');
            r.push(c);
            assert(r@ =~= "\""@ + (escaped(v@.take(i as int)) + seq!['\\', c]));
        } else {
            r.push(c);
            assert(r@ =~= "\""@ + escaped(v@.take(i as int)).push(c));
        }
    }
    assert(v@.take(v@.len() as int) == v@);
    r.append("\"");
    r
}

/// A command as one line for sway's `exec`.
pub fn build_sway_exec_string(command: &Command) -> (r: String)
    ensures
        r@ == sway_line(command@),
{
    let mut r = quote_arg_for_sway(command.program.as_str());
    let ghost program = r@;
    let ghost args = texts(command.args@);
    assert(r@ =~= program + spaced(args.take(0)));
    for i in 0..command.args.len()
        invariant
            args == texts(command.args@),
            r@ == program + spaced(args.take(i as int)),
    {
        let arg = quote_arg_for_sway(command.args[i].as_str());
        r.append(" ");
        r.append(arg.as_str());
        assert(args.take(i + 1).drop_last() == args.take(i as int));
        assert(args.take(i + 1).last() == args[i as int]);
        assert(r@ =~= program + spaced(args.take(i + 1)));
    }
    assert(args.take(args.len() as int) == args);
    r
}

/// The words in a command line that mark a program for the terminal.
pub open spec fn terminal_marks() -> Seq<Seq<char>> {
    seq!["bash"@, "sh "@, "python"@, "cargo"@, "make"@, "npm"@]
}

/// An entry whose file says so, one of the category `CLI`, and one whose command
/// line holds one of the marks is started in the terminal: the program is the
/// terminal's first word, the last argument is the command line, and between
/// them stand the terminal's other words, or `-e` where it has none.
pub proof fn terminal_entries_start_in_the_terminal(
    entry: Entry,
    terminal: Seq<char>,
    mark: Option<int>,
)
    requires
        entry.terminal || entry.category == "CLI"@ || (mark is Some && 0 <= mark->0
            < terminal_marks().len() && occurs(entry.exec_line, terminal_marks()[mark->0])),
        words(terminal).len() > 0,
    ensures
        ({
            let parts = words(terminal);
            let command = entry_line(entry, terminal);
            &&& command.program == parts[0]
            &&& command.args.len() > 0
            &&& command.args.last() == entry.exec_line
            &&& parts.len() == 1 ==> command.args.len() == 2 && command.args[0] == "-e"@
            &&& parts.len() > 1 ==> command.args.len() == parts.len() && forall|i: int|
                0 <= i < parts.len() - 1 ==> #[trigger] command.args[i] == parts[i + 1]
        }),
{
}

/// Every other entry, and every entry where the terminal has no words, is handed
/// to the shell as it is.
pub proof fn other_entries_start_in_a_shell(entry: Entry, terminal: Seq<char>)
    requires
        words(terminal).len() == 0 || {
            &&& !entry.terminal
            &&& entry.category != "CLI"@
            &&& forall|k: int|
                0 <= k < terminal_marks().len() ==> !occurs(
                    entry.exec_line,
                    #[trigger] terminal_marks()[k],
                )
        },
    ensures
        entry_line(entry, terminal).program == "sh"@,
        entry_line(entry, terminal).args.len() == 2,
        entry_line(entry, terminal).args[0] == "-c"@,
        entry_line(entry, terminal).args[1] == entry.exec_line,
{
    let marks = terminal_marks();
    assert(marks[0] == "bash"@ && marks[1] == "sh "@ && marks[2] == "python"@);
    assert(marks[3] == "cargo"@ && marks[4] == "make"@ && marks[5] == "npm"@);
}

/// An entry looks like one that runs in a terminal if and only if it has the
/// category `CLI` or its command line holds one of the marks.
pub proof fn marked_entries_want_a_terminal(entry: Entry)
    ensures
        entry.wants_terminal() <==> entry.category == "CLI"@ || exists|k: int|
            0 <= k < terminal_marks().len() && occurs(
                entry.exec_line,
                #[trigger] terminal_marks()[k],
            ),
{
    let marks = terminal_marks();
    assert(marks[0] == "bash"@ && marks[1] == "sh "@ && marks[2] == "python"@);
    assert(marks[3] == "cargo"@ && marks[4] == "make"@ && marks[5] == "npm"@);
}

} // verus!
