//! The interactive mode: reading a command line, and the state the commands share.
use crate::cli::format::{decimal, push_decimal};
use crate::error::Error;
use crate::text::{is_white, is_whitespace_char, owned_text, trim_seq, trim_text};
use vstd::prelude::*;

verus! {

/// The Unicode lower-case form of `s`, as `str::to_lowercase` gives it.
pub uninterp spec fn lowercase(s: Seq<char>) -> Seq<char>;

/// The final component of the path `p`, as `Path::file_name` gives it.
pub uninterp spec fn path_file_name(p: Seq<char>) -> Option<Seq<char>>;

/// `str::to_lowercase`: its result is the named lower-case form of the argument.
#[verifier::external_body]
fn lowercase_text(s: &str) -> (r: String)
    ensures
        r@ == lowercase(s@),
{
    s.to_lowercase()
}

/// `Path::file_name` on a path given as text, converted back to text (a
/// component of a UTF-8 path is UTF-8, so the conversion cannot fail).
#[verifier::external_body]
fn file_name_text(p: &str) -> (r: Option<String>)
    ensures
        match r {
            Some(n) => path_file_name(p@) == Some(n@),
            None => path_file_name(p@) is None,
        },
{
    std::path::Path::new(p).file_name().and_then(|n| n.to_str()).map(|n| n.to_string())
}

/// Whether two texts are equal character by character.
pub fn text_eq(a: &str, b: &str) -> (r: bool)
    ensures
        r == (a@ == b@),
{
    let n = a.unicode_len();
    let m = b.unicode_len();
    if n != m {
        return false;
    }
    let mut i: usize = 0;
    while i < n
        invariant
            n == a@.len(),
            m == b@.len(),
            n == m,
            i <= n,
            forall|k: int| 0 <= k < i ==> a@[k] == b@[k],
        decreases n - i,
    {
        if a.get_char(i) != b.get_char(i) {
            return false;
        }
        i = i + 1;
    }
    proof {
        assert(a@ =~= b@);
    }
    true
}

/// What a command line asks for.
#[derive(Debug, Clone, Copy, PartialEq, Eq, Structural)]
pub enum CommandKind {
    /// A blank line.
    Empty,
    Exit,
    Help,
    Open,
    Close,
    Text,
    Markdown,
    Html,
    Info,
    Search,
    Images,
    Pages,
    /// A word that names no command.
    Unknown,
}

/// The command named by the lower-case word `cmd`.
pub open spec fn command_kind(cmd: Seq<char>) -> CommandKind {
    if cmd == "exit"@ || cmd == "quit"@ || cmd == "q"@ || cmd == "bye"@ {
        CommandKind::Exit
    } else if cmd == "help"@ || cmd == "?"@ || cmd == "h"@ {
        CommandKind::Help
    } else if cmd == "open"@ || cmd == "o"@ || cmd == "load"@ {
        CommandKind::Open
    } else if cmd == "close"@ || cmd == "c"@ {
        CommandKind::Close
    } else if cmd == "text"@ || cmd == "t"@ {
        CommandKind::Text
    } else if cmd == "markdown"@ || cmd == "md"@ {
        CommandKind::Markdown
    } else if cmd == "html"@ {
        CommandKind::Html
    } else if cmd == "info"@ || cmd == "i"@ {
        CommandKind::Info
    } else if cmd == "search"@ || cmd == "s"@ || cmd == "find"@ || cmd == "grep"@ {
        CommandKind::Search
    } else if cmd == "images"@ || cmd == "img"@ {
        CommandKind::Images
    } else if cmd == "pages"@ || cmd == "p"@ {
        CommandKind::Pages
    } else {
        CommandKind::Unknown
    }
}

/// Each command word names its command: `exit`, `quit`, `q` and `bye` end the
/// session; `help`, `?` and `h` ask for help; `open`, `o` and `load` open a
/// file; `close` and `c` close it; `text` and `t` ask for plain text;
/// `markdown` and `md` for Markdown; `html` for HTML; `info` and `i` for the
/// document's information; `search`, `s`, `find` and `grep` search;
/// `images` and `img` list images; `pages` and `p` count pages. Any other
/// word names no command.
pub proof fn lemma_command_words(w: Seq<char>)
    ensures
        (command_kind(w) == CommandKind::Exit) == (w == "exit"@ || w == "quit"@ || w == "q"@ || w == "bye"@),
        (command_kind(w) == CommandKind::Help) == (w == "help"@ || w == "?"@ || w == "h"@),
        (command_kind(w) == CommandKind::Open) == (w == "open"@ || w == "o"@ || w == "load"@),
        (command_kind(w) == CommandKind::Close) == (w == "close"@ || w == "c"@),
        (command_kind(w) == CommandKind::Text) == (w == "text"@ || w == "t"@),
        (command_kind(w) == CommandKind::Markdown) == (w == "markdown"@ || w == "md"@),
        (command_kind(w) == CommandKind::Html) == (w == "html"@),
        (command_kind(w) == CommandKind::Info) == (w == "info"@ || w == "i"@),
        (command_kind(w) == CommandKind::Search) == (w == "search"@ || w == "s"@ || w == "find"@ || w == "grep"@),
        (command_kind(w) == CommandKind::Images) == (w == "images"@ || w == "img"@),
        (command_kind(w) == CommandKind::Pages) == (w == "pages"@ || w == "p"@),
        (command_kind(w) == CommandKind::Unknown) == !(w == "exit"@ || w == "quit"@ || w == "q"@ || w == "bye"@ || w == "help"@ || w == "?"@ || w == "h"@ || w == "open"@ || w == "o"@ || w == "load"@ || w == "close"@ || w == "c"@ || w == "text"@ || w == "t"@ || w == "markdown"@ || w == "md"@ || w == "html"@ || w == "info"@ || w == "i"@ || w == "search"@ || w == "s"@ || w == "find"@ || w == "grep"@ || w == "images"@ || w == "img"@ || w == "pages"@ || w == "p"@),
        command_kind(w) != CommandKind::Empty,
{
    reveal_strlit("exit");
    reveal_strlit("quit");
    reveal_strlit("q");
    reveal_strlit("bye");
    reveal_strlit("help");
    reveal_strlit("?");
    reveal_strlit("h");
    reveal_strlit("open");
    reveal_strlit("o");
    reveal_strlit("load");
    reveal_strlit("close");
    reveal_strlit("c");
    reveal_strlit("text");
    reveal_strlit("t");
    reveal_strlit("markdown");
    reveal_strlit("md");
    reveal_strlit("html");
    reveal_strlit("info");
    reveal_strlit("i");
    reveal_strlit("search");
    reveal_strlit("s");
    reveal_strlit("find");
    reveal_strlit("grep");
    reveal_strlit("images");
    reveal_strlit("img");
    reveal_strlit("pages");
    reveal_strlit("p");
    // Words of different lengths differ; words of one length differ in a letter.
    assert("exit"@.len() == 4);
    assert("quit"@.len() == 4);
    assert("q"@.len() == 1);
    assert("bye"@.len() == 3);
    assert("help"@.len() == 4);
    assert("?"@.len() == 1);
    assert("h"@.len() == 1);
    assert("open"@.len() == 4);
    assert("o"@.len() == 1);
    assert("load"@.len() == 4);
    assert("close"@.len() == 5);
    assert("c"@.len() == 1);
    assert("text"@.len() == 4);
    assert("t"@.len() == 1);
    assert("markdown"@.len() == 8);
    assert("md"@.len() == 2);
    assert("html"@.len() == 4);
    assert("info"@.len() == 4);
    assert("i"@.len() == 1);
    assert("search"@.len() == 6);
    assert("s"@.len() == 1);
    assert("find"@.len() == 4);
    assert("grep"@.len() == 4);
    assert("images"@.len() == 6);
    assert("img"@.len() == 3);
    assert("pages"@.len() == 5);
    assert("p"@.len() == 1);
    assert("exit"@[0] != "help"@[0]);
    assert("exit"@[0] != "open"@[0]);
    assert("exit"@[0] != "load"@[0]);
    assert("exit"@[0] != "text"@[0]);
    assert("exit"@[0] != "html"@[0]);
    assert("exit"@[0] != "info"@[0]);
    assert("exit"@[0] != "find"@[0]);
    assert("exit"@[0] != "grep"@[0]);
    assert("quit"@[0] != "help"@[0]);
    assert("quit"@[0] != "open"@[0]);
    assert("quit"@[0] != "load"@[0]);
    assert("quit"@[0] != "text"@[0]);
    assert("quit"@[0] != "html"@[0]);
    assert("quit"@[0] != "info"@[0]);
    assert("quit"@[0] != "find"@[0]);
    assert("quit"@[0] != "grep"@[0]);
    assert("q"@[0] != "?"@[0]);
    assert("q"@[0] != "h"@[0]);
    assert("q"@[0] != "o"@[0]);
    assert("q"@[0] != "c"@[0]);
    assert("q"@[0] != "t"@[0]);
    assert("q"@[0] != "i"@[0]);
    assert("q"@[0] != "s"@[0]);
    assert("q"@[0] != "p"@[0]);
    assert("bye"@[0] != "img"@[0]);
    assert("help"@[0] != "open"@[0]);
    assert("help"@[0] != "load"@[0]);
    assert("help"@[0] != "text"@[0]);
    assert("help"@[1] != "html"@[1]);
    assert("help"@[0] != "info"@[0]);
    assert("help"@[0] != "find"@[0]);
    assert("help"@[0] != "grep"@[0]);
    assert("?"@[0] != "o"@[0]);
    assert("?"@[0] != "c"@[0]);
    assert("?"@[0] != "t"@[0]);
    assert("?"@[0] != "i"@[0]);
    assert("?"@[0] != "s"@[0]);
    assert("?"@[0] != "p"@[0]);
    assert("h"@[0] != "o"@[0]);
    assert("h"@[0] != "c"@[0]);
    assert("h"@[0] != "t"@[0]);
    assert("h"@[0] != "i"@[0]);
    assert("h"@[0] != "s"@[0]);
    assert("h"@[0] != "p"@[0]);
    assert("open"@[0] != "text"@[0]);
    assert("open"@[0] != "html"@[0]);
    assert("open"@[0] != "info"@[0]);
    assert("open"@[0] != "find"@[0]);
    assert("open"@[0] != "grep"@[0]);
    assert("o"@[0] != "c"@[0]);
    assert("o"@[0] != "t"@[0]);
    assert("o"@[0] != "i"@[0]);
    assert("o"@[0] != "s"@[0]);
    assert("o"@[0] != "p"@[0]);
    assert("load"@[0] != "text"@[0]);
    assert("load"@[0] != "html"@[0]);
    assert("load"@[0] != "info"@[0]);
    assert("load"@[0] != "find"@[0]);
    assert("load"@[0] != "grep"@[0]);
    assert("close"@[0] != "pages"@[0]);
    assert("c"@[0] != "t"@[0]);
    assert("c"@[0] != "i"@[0]);
    assert("c"@[0] != "s"@[0]);
    assert("c"@[0] != "p"@[0]);
    assert("text"@[0] != "html"@[0]);
    assert("text"@[0] != "info"@[0]);
    assert("text"@[0] != "find"@[0]);
    assert("text"@[0] != "grep"@[0]);
    assert("t"@[0] != "i"@[0]);
    assert("t"@[0] != "s"@[0]);
    assert("t"@[0] != "p"@[0]);
    assert("html"@[0] != "info"@[0]);
    assert("html"@[0] != "find"@[0]);
    assert("html"@[0] != "grep"@[0]);
    assert("info"@[0] != "find"@[0]);
    assert("info"@[0] != "grep"@[0]);
    assert("i"@[0] != "s"@[0]);
    assert("i"@[0] != "p"@[0]);
    assert("search"@[0] != "images"@[0]);
    assert("s"@[0] != "p"@[0]);
}

/// A command line, read.
#[derive(Debug, Clone)]
pub struct ReplCommand {
    /// Which command it is.
    pub kind: CommandKind,
    /// The arguments after the command word, trimmed; for an unknown command,
    /// the lower-case command word itself.
    pub argument: String,
}

/// Whether `w` is one of the words in `words`.
fn is_one_of(w: &str, words: &[&str]) -> (r: bool)
    ensures
        r == exists|i: int| 0 <= i < words@.len() && w@ == (#[trigger] words@[i])@,
{
    let n = words.len();
    let mut i: usize = 0;
    while i < n
        invariant
            n == words@.len(),
            i <= n,
            forall|k: int| 0 <= k < i ==> w@ != (#[trigger] words@[k])@,
        decreases n - i,
    {
        if text_eq(w, words[i]) {
            return true;
        }
        i = i + 1;
    }
    false
}

/// The command named by the lower-case word `cmd`, with its arguments `args`.
pub fn classify_command(cmd: &str, args: &str) -> (r: ReplCommand)
    ensures
        r.kind == command_kind(cmd@),
        r.argument@ == if r.kind == CommandKind::Unknown { cmd@ } else { args@ },
{
    let kind = if is_one_of(cmd, &["exit", "quit", "q", "bye"]) {
        CommandKind::Exit
    } else if is_one_of(cmd, &["help", "?", "h"]) {
        CommandKind::Help
    } else if is_one_of(cmd, &["open", "o", "load"]) {
        CommandKind::Open
    } else if is_one_of(cmd, &["close", "c"]) {
        CommandKind::Close
    } else if is_one_of(cmd, &["text", "t"]) {
        CommandKind::Text
    } else if is_one_of(cmd, &["markdown", "md"]) {
        CommandKind::Markdown
    } else if is_one_of(cmd, &["html"]) {
        CommandKind::Html
    } else if is_one_of(cmd, &["info", "i"]) {
        CommandKind::Info
    } else if is_one_of(cmd, &["search", "s", "find", "grep"]) {
        CommandKind::Search
    } else if is_one_of(cmd, &["images", "img"]) {
        CommandKind::Images
    } else if is_one_of(cmd, &["pages", "p"]) {
        CommandKind::Pages
    } else {
        CommandKind::Unknown
    };
    let argument = if kind == CommandKind::Unknown { owned_text(cmd) } else { owned_text(args) };
    ReplCommand { kind, argument }
}

/// Index of the first whitespace character of `s`.
pub open spec fn first_white(s: Seq<char>) -> Option<int>
    decreases s.len(),
{
    if s.len() == 0 {
        None
    } else if is_white(s[0]) {
        Some(0)
    } else {
        match first_white(s.drop_first()) {
            Some(k) => Some(k + 1),
            None => None,
        }
    }
}

/// The command word of a trimmed line: the text before the first whitespace.
pub open spec fn command_word(t: Seq<char>) -> Seq<char> {
    match first_white(t) {
        Some(k) => t.take(k),
        None => t,
    }
}

/// The arguments of a trimmed line: the text after the first whitespace, trimmed.
pub open spec fn command_args(t: Seq<char>) -> Seq<char> {
    match first_white(t) {
        Some(k) => trim_seq(t.skip(k + 1)),
        None => seq![],
    }
}

proof fn lemma_first_white(s: Seq<char>, k: int)
    requires
        0 <= k < s.len(),
        is_white(s[k]),
        forall|j: int| 0 <= j < k ==> !is_white(#[trigger] s[j]),
    ensures
        first_white(s) == Some(k),
    decreases k,
{
    if k > 0 {
        let t = s.drop_first();
        assert forall|j: int| 0 <= j < k - 1 implies !is_white(#[trigger] t[j]) by {
            assert(t[j] == s[j + 1]);
        }
        lemma_first_white(t, k - 1);
    }
}

proof fn lemma_no_white(s: Seq<char>)
    requires
        forall|j: int| 0 <= j < s.len() ==> !is_white(#[trigger] s[j]),
    ensures
        first_white(s) is None,
    decreases s.len(),
{
    if s.len() > 0 {
        let t = s.drop_first();
        assert forall|j: int| 0 <= j < t.len() implies !is_white(#[trigger] t[j]) by {
            assert(t[j] == s[j + 1]);
        }
        lemma_no_white(t);
    }
}

proof fn lemma_first_white_props(s: Seq<char>)
    ensures
        first_white(s) matches Some(k) ==> 0 <= k < s.len() && is_white(s[k]) && forall|j: int|
            0 <= j < k ==> !is_white(#[trigger] s[j]),
        first_white(s) is None ==> forall|j: int| 0 <= j < s.len() ==> !is_white(#[trigger] s[j]),
    decreases s.len(),
{
    if s.len() > 0 && !is_white(s[0]) {
        let t = s.drop_first();
        lemma_first_white_props(t);
        match first_white(t) {
            Some(k) => {
                assert(first_white(s) == Some(k + 1));
                assert(s[k + 1] == t[k]);
                assert forall|j: int| 0 <= j < k + 1 implies !is_white(#[trigger] s[j]) by {
                    if j > 0 {
                        assert(s[j] == t[j - 1]);
                    }
                }
            },
            None => {
                assert forall|j: int| 0 <= j < s.len() implies !is_white(#[trigger] s[j]) by {
                    if j > 0 {
                        assert(s[j] == t[j - 1]);
                    }
                }
            },
        }
    }
}

/// A line splits at its first whitespace character: the command word is
/// everything before it and holds no whitespace, and the argument is
/// everything after it, trimmed; a line without whitespace is all command
/// word, with an empty argument.
pub proof fn lemma_command_split(t: Seq<char>)
    ensures
        forall|j: int| 0 <= j < command_word(t).len() ==> !is_white(#[trigger] command_word(t)[j]),
        t.take(command_word(t).len() as int) == command_word(t),
        command_word(t).len() < t.len() ==> is_white(t[command_word(t).len() as int]) && command_args(t) == trim_seq(
            t.skip(command_word(t).len() as int + 1),
        ),
        command_word(t).len() == t.len() ==> command_args(t).len() == 0,
{
    lemma_first_white_props(t);
    match first_white(t) {
        Some(k) => {
            assert(command_word(t) =~= t.take(k));
            assert forall|j: int| 0 <= j < command_word(t).len() implies !is_white(#[trigger] command_word(t)[j]) by {
                assert(command_word(t)[j] == t[j]);
            }
        },
        None => {
            assert(t.take(t.len() as int) =~= t);
        },
    }
}

/// Read a command line: the line is trimmed; a blank line is `Empty`;
/// otherwise the word before the first whitespace, in lower case, names the
/// command, and the rest of the line, trimmed, is its argument.
pub fn parse_command(line: &str) -> (r: ReplCommand)
    ensures
        trim_seq(line@).len() == 0 ==> r.kind == CommandKind::Empty,
        trim_seq(line@).len() > 0 ==> {
            let t = trim_seq(line@);
            let cmd = lowercase(command_word(t));
            &&& r.kind == command_kind(cmd)
            &&& r.argument@ == if r.kind == CommandKind::Unknown { cmd } else { command_args(t) }
        },
{
    let input = trim_text(line);
    let t = input.as_str();
    let n = t.unicode_len();
    if n == 0 {
        return ReplCommand { kind: CommandKind::Empty, argument: String::new() };
    }
    let mut k: usize = 0;
    while k < n && !is_whitespace_char(t.get_char(k))
        invariant
            n == t@.len(),
            k <= n,
            forall|j: int| 0 <= j < k ==> !is_white(#[trigger] t@[j]),
        decreases n - k,
    {
        k = k + 1;
    }
    if k < n {
        proof {
            lemma_first_white(t@, k as int);
        }
        let first = t.substring_char(0, k);
        proof {
            assert(first@ =~= t@.take(k as int));
        }
        let word = lowercase_text(first);
        let rest = t.substring_char(k + 1, n);
        proof {
            assert(rest@ =~= t@.skip(k + 1));
        }
        let args = trim_text(rest);
        classify_command(word.as_str(), args.as_str())
    } else {
        proof {
            lemma_no_white(t@);
        }
        let word = lowercase_text(t);
        proof {
            reveal_strlit("");
        }
        classify_command(word.as_str(), "")
    }
}

/// The document a command works on.
pub enum DocTarget {
    /// The document that is open.
    Current,
    /// The document at this path, opened for this command alone.
    Open(String),
}

/// State shared by the commands of an interactive session.
pub struct ReplState<D> {
    /// The open document, if any.
    pub current_doc: Option<D>,
    /// The path of the open document, if any.
    pub current_file: Option<String>,
    /// Password to authenticate documents with.
    pub password: Option<String>,
    /// Whether output is JSON.
    pub json: bool,
}

/// The prompt text: `pdf-oxide> ` with no file, or `pdf-oxide [{name}]> `
/// with the file name of the current path (`?` when the path has none).
pub open spec fn prompt_text(current_file: Option<Seq<char>>) -> Seq<char> {
    match current_file {
        None => "pdf-oxide> "@,
        Some(f) => "pdf-oxide ["@ + match path_file_name(f) {
            Some(name) => name,
            None => "?"@,
        } + "]> "@,
    }
}

impl<D> ReplState<D> {
    /// A session with no document open.
    pub fn new(password: Option<String>, json: bool) -> (s: ReplState<D>)
        ensures
            s.current_doc is None,
            s.current_file is None,
            s.password == password,
            s.json == json,
    {
        ReplState { current_doc: None, current_file: None, password, json }
    }

    /// The prompt to show before reading a command.
    pub fn prompt(&self) -> (p: String)
        ensures
            p@ == prompt_text(
                match self.current_file {
                    Some(f) => Some(f@),
                    None => None,
                },
            ),
    {
        match &self.current_file {
            Some(f) => {
                let mut p = owned_text("pdf-oxide [");
                match file_name_text(f.as_str()) {
                    Some(name) => p.append(name.as_str()),
                    None => p.append("?"),
                }
                p.append("]> ");
                p
            },
            None => owned_text("pdf-oxide> "),
        }
    }

    /// The open document, or an error that asks for one.
    pub fn ensure_doc(&mut self) -> (r: Result<&mut D, Error>)
        ensures
            match old(self).current_doc {
                Some(d) => r matches Ok(x) && *x == d && final(self).current_doc == Some(*final(x)),
                None => (r matches Err(Error::InvalidOperation(m)) && m@
                    == "No PDF loaded. Use 'open <file>' first."@) && final(self).current_doc is None,
            },
            final(self).current_file == old(self).current_file,
            final(self).password == old(self).password,
            final(self).json == old(self).json,
    {
        match self.current_doc.as_mut() {
            Some(d) => Ok(d),
            None => Err(Error::InvalidOperation(owned_text("No PDF loaded. Use 'open <file>' first."))),
        }
    }

    /// Make `doc`, read from `path`, the open document.
    pub fn set_document(&mut self, doc: D, path: String)
        ensures
            final(self).current_doc == Some(doc),
            final(self).current_file == Some(path),
            final(self).password == old(self).password,
            final(self).json == old(self).json,
    {
        self.current_doc = Some(doc);
        self.current_file = Some(path);
    }

    /// Close the open document; the message reports what happened.
    pub fn close(&mut self) -> (msg: String)
        ensures
            old(self).current_doc is Some ==> {
                &&& final(self).current_doc is None
                &&& final(self).current_file is None
                &&& msg@ == "Closed "@ + match old(self).current_file {
                    Some(f) => f@,
                    None => seq![],
                }
            },
            old(self).current_doc is None ==> {
                &&& final(self).current_doc is None
                &&& final(self).current_file == old(self).current_file
                &&& msg@ == "No PDF is currently open."@
            },
            final(self).password == old(self).password,
            final(self).json == old(self).json,
    {
        if self.current_doc.is_some() {
            let mut msg = owned_text("Closed ");
            match &self.current_file {
                Some(f) => msg.append(f.as_str()),
                None => {},
            }
            proof {
                assert(old(self).current_file is None ==> msg@ =~= "Closed "@ + Seq::<char>::empty());
            }
            self.current_doc = None;
            self.current_file = None;
            msg
        } else {
            owned_text("No PDF is currently open.")
        }
    }

    /// Which document a text, Markdown or HTML command works on: the open one
    /// when `args` is empty, else the file that `args` names.
    pub fn with_doc(&self, args: &str) -> (r: Result<DocTarget, Error>)
        ensures
            args@.len() > 0 ==> (r matches Ok(DocTarget::Open(p)) && p@ == args@),
            args@.len() == 0 && self.current_doc is Some ==> (r matches Ok(DocTarget::Current)),
            args@.len() == 0 && self.current_doc is None ==> (r matches Err(Error::InvalidOperation(m))
                && m@ == "No PDF loaded. Use 'open <file>' first."@),
    {
        if args.unicode_len() > 0 {
            Ok(DocTarget::Open(owned_text(args)))
        } else if self.current_doc.is_some() {
            Ok(DocTarget::Current)
        } else {
            Err(Error::InvalidOperation(owned_text("No PDF loaded. Use 'open <file>' first.")))
        }
    }

    /// The file an info or images command works on: `args` when given, else
    /// the path of the open document.
    pub fn target_file(&self, args: &str) -> (r: Result<String, Error>)
        ensures
            args@.len() > 0 ==> (r matches Ok(p) && p@ == args@),
            args@.len() == 0 ==> match self.current_file {
                Some(f) => r matches Ok(p) && p@ == f@,
                None => r matches Err(Error::InvalidOperation(m)) && m@
                    == "No PDF loaded. Use 'open <file>' or provide a file path."@,
            },
    {
        if args.unicode_len() > 0 {
            return Ok(owned_text(args));
        }
        match &self.current_file {
            Some(f) => Ok(owned_text(f.as_str())),
            None => Err(
                Error::InvalidOperation(owned_text("No PDF loaded. Use 'open <file>' or provide a file path.")),
            ),
        }
    }
}

/// The argument of a command that needs one, or its usage message.
pub fn required_argument(args: &str, usage: &str) -> (r: Result<String, Error>)
    ensures
        args@.len() > 0 ==> (r matches Ok(a) && a@ == args@),
        args@.len() == 0 ==> (r matches Err(Error::InvalidOperation(m)) && m@ == usage@),
{
    if args.unicode_len() == 0 {
        return Err(Error::InvalidOperation(owned_text(usage)));
    }
    Ok(owned_text(args))
}

/// The report after opening a document: `Opened {path} ({pages} pages)`.
pub fn opened_message(path: &str, pages: usize) -> (m: String)
    ensures
        m@ == "Opened "@ + path@ + " ("@ + decimal(pages as nat) + " pages)"@,
{
    let mut m = owned_text("Opened ");
    m.append(path);
    m.append(" (");
    push_decimal(&mut m, pages);
    m.append(" pages)");
    m
}

} // verus!
