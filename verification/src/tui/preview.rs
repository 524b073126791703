//! The text of previews, and the command that opens a file.
use crate::paths::{file_name, file_stem_of, name_stem};
use crate::query::ast::{text_option, texts};
use crate::text::{chars_of, decimal_text, join3, number_text, spells, white_space};
use crate::tui::app::{back, App, AppModel};
use vstd::prelude::*;
use vstd::utf8::{encode_utf8, valid_utf8};

verus! {

/// Most bytes of a preview.
pub const PREVIEW_LIMIT: usize = 1048576;

/// Distance of tab stops.
pub const TAB_WIDTH: usize = 4;

/// A row of spaces.
pub open spec fn spaces(n: nat) -> Seq<char> {
    Seq::new(n, |i: int| ' ')
}

/// A text with tabs replaced by spaces up to the next tab stop, and the column
/// behind it. Line breaks start at the first column again.
pub open spec fn expanded(s: Seq<char>) -> (Seq<char>, nat)
    decreases s.len(),
{
    if s.len() == 0 {
        (s, 0)
    } else {
        let (t, column) = expanded(s.drop_last());
        let c = s.last();
        if c == '\t' {
            let n = (TAB_WIDTH - column % TAB_WIDTH as nat) as nat;
            (t + spaces(n), column + n)
        } else if c == '\n' || c == '\r' {
            (t.push(c), 0)
        } else {
            (t.push(c), column + 1)
        }
    }
}

/// A text with tabs replaced by spaces.
pub fn expand_tabs(s: &str) -> (r: String)
    ensures
        r@ == expanded(s@).0,
{
    let chars = chars_of(s);
    let mut out = String::new();
    // The column, as far as it matters for tab stops.
    let mut column: usize = 0;
    let mut i: usize = 0;
    assert(chars@.take(0) =~= Seq::<char>::empty());
    while i < chars.len()
        invariant
            i <= chars@.len(),
            out@ == expanded(chars@.take(i as int)).0,
            column < TAB_WIDTH,
            column == expanded(chars@.take(i as int)).1 % (TAB_WIDTH as nat),
        decreases chars@.len() - i,
    {
        let c = chars[i];
        assert(chars@.take(i + 1).drop_last() =~= chars@.take(i as int));
        let ghost column_here = expanded(chars@.take(i as int)).1;
        if c == '\t' {
            let n: usize = TAB_WIDTH - column;
            let ghost start = out@;
            let mut k: usize = 0;
            while k < n
                invariant
                    k <= n,
                    out@ =~= start + spaces(k as nat),
                decreases n - k,
            {
                out.push(' ');
                k += 1;
            }
            assert((column_here + n as nat) % 4 == 0);
            column = 0;
        } else if c == '\n' || c == '\r' {
            out.push(c);
            column = 0;
        } else {
            out.push(c);
            column = if column == 3 {
                0
            } else {
                column + 1
            };
        }
        i += 1;
    }
    assert(chars@.take(chars@.len() as int) =~= chars@);
    out
}

/// Whether the first `n` bytes are the longest start that is UTF-8.
pub open spec fn longest_text(b: Seq<u8>, n: int) -> bool {
    &&& 0 <= n <= b.len()
    &&& valid_utf8(b.take(n))
    &&& forall|k: int| n < k <= b.len() ==> !valid_utf8(#[trigger] b.take(k))
}

/// Whether bytes end too early after the first `n`: more bytes would make UTF-8
/// of the rest.
pub open spec fn cut_short(b: Seq<u8>, n: int) -> bool {
    exists|more: Seq<u8>| #[trigger] valid_utf8(b.skip(n) + more)
}

/// `std::str::from_utf8` reads UTF-8. Of other bytes its error gives the length
/// of the longest start that is UTF-8, and whether what follows just ends too
/// early, so that it could be a character with more bytes.
#[verifier::external_body]
fn decode(bytes: &Vec<u8>) -> (r: Result<String, (usize, bool)>)
    ensures
        match r {
            Ok(t) => valid_utf8(bytes@) && encode_utf8(t@) == bytes@,
            Err((n, cut)) => !valid_utf8(bytes@) && longest_text(bytes@, n as int) && cut
                == cut_short(bytes@, n as int),
        },
{
    match std::str::from_utf8(bytes) {
        Ok(text) => Ok(text.to_string()),
        Err(error) => Err((error.valid_up_to(), error.error_len().is_none())),
    }
}

/// Whether the first `n` bytes of a file's start are shown: they are its
/// longest start that is text, the bytes are as many as a preview has, and they
/// end in the middle of a character.
pub open spec fn shown_start(b: Seq<u8>, n: int) -> bool {
    b.len() == PREVIEW_LIMIT && longest_text(b, n) && cut_short(b, n)
}

/// Whether `t` is the preview of a file that starts with `b`: the text of the
/// bytes, or of their longest start that is text where they are as many as a
/// preview has and end in the middle of a character.
pub open spec fn is_preview(b: Seq<u8>, t: Seq<char>) -> bool {
    encode_utf8(t) == b || (!valid_utf8(b) && exists|n: int| #[trigger]
        shown_start(b, n) && encode_utf8(t) == b.take(n))
}

/// The preview of a file that starts with `bytes`, of which there are at most
/// as many as a preview has; nothing where it is not text.
pub fn preview_text(bytes: Vec<u8>) -> (r: Option<String>)
    ensures
        match r {
            Some(t) => is_preview(bytes@, t@),
            None => !valid_utf8(bytes@) && !(exists|n: int| shown_start(bytes@, n)),
        },
{
    match decode(&bytes) {
        Ok(t) => Some(t),
        Err((n, cut)) => {
            if bytes.len() != PREVIEW_LIMIT || !cut {
                assert forall|k: int| !shown_start(bytes@, k) by {
                    if longest_text(bytes@, k) {
                        assert(bytes@.take(bytes@.len() as int) =~= bytes@);
                        if k < n {
                            assert(!valid_utf8(bytes@.take(n as int)));
                        } else if n < k {
                            assert(!valid_utf8(bytes@.take(k)));
                        }
                    }
                }
                return None;
            }
            let mut start = bytes;
            start.truncate(n);
            assert(start@ =~= bytes@.take(n as int));
            assert(shown_start(bytes@, n as int));
            match decode(&start) {
                Ok(t) => Some(t),
                Err(_) => None,
            }
        },
    }
}

/// The places around the selected one whose previews are read ahead: one
/// before, itself and two after, as far as there are results.
pub open spec fn is_nearby(i: int, selected: usize, count: usize) -> bool {
    0 <= i < count && selected - 1 <= i <= selected + 2
}

/// The places whose previews are read ahead, in order.
pub fn nearby(selected: usize, count: usize) -> (r: Vec<usize>)
    ensures
        forall|i: usize| #[trigger] r@.contains(i) <==> is_nearby(i as int, selected, count),
        forall|a: int, b: int| 0 <= a < b < r@.len() ==> r@[a] < r@[b],
{
    let mut out: Vec<usize> = Vec::new();
    let mut i: usize = if selected > 0 {
        selected - 1
    } else {
        0
    };
    let end: usize = if selected > usize::MAX - 3 {
        usize::MAX
    } else {
        selected + 3
    };
    let start = i;
    while i < end && i < count
        invariant
            start == (if selected > 0 {
                selected - 1
            } else {
                0
            }),
            end == (if selected > usize::MAX - 3 {
                usize::MAX as int
            } else {
                selected + 3
            }),
            start <= i <= end,
            out@.len() == i - start,
            forall|k: int| 0 <= k < out@.len() ==> #[trigger] out@[k] == start + k,
            i > start ==> i <= count,
        decreases end - i,
    {
        out.push(i);
        i += 1;
    }
    assert forall|x: usize| #[trigger] out@.contains(x) <==> is_nearby(x as int, selected, count) by {
        if out@.contains(x) {
            let k = choose|k: int| 0 <= k < out@.len() && out@[k] == x;
            assert(out@[k] == start + k);
        }
        if is_nearby(x as int, selected, count) {
            assert(start <= x < i);
            assert(out@[x - start] == x);
        }
    }
    out
}

impl AppModel {
    /// The state with the text of the selected file, where it could be read.
    /// The preview is scrolled to show the match.
    pub open spec fn previewed(self, content: Option<Seq<char>>) -> AppModel {
        if self.selected < self.results.len() && content is Some {
            AppModel {
                preview: Some(expanded(content->0).0),
                preview_scroll: back(self.results[self.selected as int].line as usize, 5),
                ..self
            }
        } else {
            AppModel { preview: None, ..self }
        }
    }
}

impl App {
    /// Takes in the text of the selected file, where it could be read.
    pub fn set_preview(&mut self, content: Option<String>)
        ensures
            final(self)@ == old(self)@.previewed(text_option(content)),
    {
        assert(self@.results.len() == self.results@.len());
        if self.selected < self.results.len() {
            match content {
                Some(text) => {
                    self.preview_content = Some(expand_tabs(text.as_str()));
                    assert(self@.results[self.selected as int]
                        == self.results@[self.selected as int]@);
                    let line = self.results[self.selected].line_number as usize;
                    self.preview_scroll = line.saturating_sub(5);
                },
                None => {
                    self.preview_content = None;
                },
            }
        } else {
            self.preview_content = None;
        }
    }
}

/// How far a command line has been read.
pub struct WordState {
    pub words: Seq<Seq<char>>,
    pub word: Seq<char>,
    pub quote: Option<char>,
    pub escaped: bool,
    pub started: bool,
}

/// Whether a backslash escapes the character that follows it.
pub open spec fn can_be_escaped(next: Option<char>) -> bool {
    match next {
        Some(c) => white_space(c) || c == '\\' || c == '\'' || c == '"',
        None => false,
    }
}

impl WordState {
    /// The state before anything has been read.
    pub open spec fn start() -> WordState {
        WordState {
            words: Seq::empty(),
            word: Seq::empty(),
            quote: None,
            escaped: false,
            started: false,
        }
    }

    /// The state after a character; `next` is the one that follows. Quotes
    /// group, and a backslash before white space, a quote or a backslash takes
    /// its meaning away, except within single quotes.
    pub open spec fn after(self, c: char, next: Option<char>) -> WordState {
        if self.escaped {
            WordState { word: self.word.push(c), escaped: false, started: true, ..self }
        } else if c == '\\' && self.quote != Some('\'') && can_be_escaped(next) {
            WordState { escaped: true, started: true, ..self }
        } else if self.quote == Some(c) {
            WordState { quote: None, ..self }
        } else if self.quote is Some {
            WordState { word: self.word.push(c), ..self }
        } else if c == '\'' || c == '"' {
            WordState { quote: Some(c), started: true, ..self }
        } else if white_space(c) {
            if self.started {
                WordState {
                    words: self.words.push(self.word),
                    word: Seq::empty(),
                    started: false,
                    ..self
                }
            } else {
                self
            }
        } else {
            WordState { word: self.word.push(c), started: true, ..self }
        }
    }
}

/// The state after the first `n` characters.
pub open spec fn read_words(s: Seq<char>, n: nat) -> WordState
    decreases n,
{
    if n == 0 {
        WordState::start()
    } else {
        read_words(s, (n - 1) as nat).after(
            s[n - 1],
            if n < s.len() {
                Some(s[n as int])
            } else {
                None
            },
        )
    }
}

/// The words of a command line, or why it is not one.
pub open spec fn command_words(s: Seq<char>) -> Result<Seq<Seq<char>>, Seq<char>> {
    let end = read_words(s, s.len());
    if end.quote is Some || end.escaped {
        Err("Unclosed quote or escape in EDITOR"@)
    } else {
        let words = if end.started {
            end.words.push(end.word)
        } else {
            end.words
        };
        if words.len() == 0 || words[0].len() == 0 {
            Err("EDITOR is empty"@)
        } else {
            Ok(words)
        }
    }
}

/// How an editor is told which line to open.
#[derive(Debug, Clone, Copy, PartialEq, Eq, Structural)]
pub enum LineStyle {
    /// `--goto path:line`.
    Goto,
    /// `path:line`.
    Suffix,
    /// `+line path`.
    Plus,
    /// Not at all.
    Absent,
}

/// How the editor of a name is told which line to open.
pub open spec fn line_style(name: Seq<char>) -> LineStyle {
    if name == "code"@ || name == "code-insiders"@ || name == "codium"@ || name == "cursor"@ {
        LineStyle::Goto
    } else if name == "subl"@ || name == "hx"@ || name == "helix"@ {
        LineStyle::Suffix
    } else if name == "vi"@ || name == "vim"@ || name == "nvim"@ || name == "nano"@ || name
        == "emacs"@ || name == "emacsclient"@ {
        LineStyle::Plus
    } else {
        LineStyle::Absent
    }
}

/// The arguments that name the file and the line.
pub open spec fn place_args(style: LineStyle, path: Seq<char>, line: u32) -> Seq<Seq<char>> {
    match style {
        LineStyle::Goto => seq!["--goto"@, path + ":"@ + decimal_text(line as nat)],
        LineStyle::Suffix => seq![path + ":"@ + decimal_text(line as nat)],
        LineStyle::Plus => seq!["+"@ + decimal_text(line as nat), path],
        LineStyle::Absent => seq![path],
    }
}

/// The name of a program: its file name without extension.
pub open spec fn program_name(program: Seq<char>) -> Seq<char> {
    match file_name(program) {
        Some(n) => name_stem(n),
        None => Seq::empty(),
    }
}

/// A program with its arguments.
#[derive(Debug)]
pub struct EditorCommand {
    pub program: String,
    pub args: Vec<String>,
}

fn style_of(name: &str) -> (r: LineStyle)
    ensures
        r == line_style(name@),
{
    let n = chars_of(name);
    if spells(&n, "code") || spells(&n, "code-insiders") || spells(&n, "codium") || spells(
        &n,
        "cursor",
    ) {
        LineStyle::Goto
    } else if spells(&n, "subl") || spells(&n, "hx") || spells(&n, "helix") {
        LineStyle::Suffix
    } else if spells(&n, "vi") || spells(&n, "vim") || spells(&n, "nvim") || spells(&n, "nano")
        || spells(&n, "emacs") || spells(&n, "emacsclient") {
        LineStyle::Plus
    } else {
        LineStyle::Absent
    }
}

/// Splits a command line into words.
fn split_command(editor: &str) -> (r: Result<Vec<String>, String>)
    ensures
        match r {
            Ok(v) => command_words(editor@) == Ok::<Seq<Seq<char>>, Seq<char>>(texts(v@)),
            Err(e) => command_words(editor@) == Err::<Seq<Seq<char>>, Seq<char>>(e@),
        },
{
    let chars = chars_of(editor);
    let mut words: Vec<String> = Vec::new();
    let mut word = String::new();
    let mut quote: Option<char> = None;
    let mut escaped = false;
    let mut started = false;
    let mut i: usize = 0;
    assert(texts(words@) =~= Seq::<Seq<char>>::empty());
    while i < chars.len()
        invariant
            i <= chars@.len(),
            read_words(chars@, i as nat) == (WordState {
                words: texts(words@),
                word: word@,
                quote,
                escaped,
                started,
            }),
        decreases chars@.len() - i,
    {
        let c = chars[i];
        i += 1;
        let escapable = if i < chars.len() {
            let next = chars[i];
            next.is_whitespace() || next == '\\' || next == '\'' || next == '"'
        } else {
            false
        };
        let closes = match quote {
            Some(q) => q == c,
            None => false,
        };
        let single = match quote {
            Some(q) => q == '\'',
            None => false,
        };
        if escaped {
            word.push(c);
            escaped = false;
            started = true;
        } else if c == '\\' && !single && escapable {
            escaped = true;
            started = true;
        } else if closes {
            quote = None;
        } else if quote.is_some() {
            word.push(c);
        } else if c == '\'' || c == '"' {
            quote = Some(c);
            started = true;
        } else if c.is_whitespace() {
            if started {
                let ghost was = words@;
                let ghost done = word@;
                words.push(word);
                assert(texts(words@) =~= texts(was).push(done));
                word = String::new();
                started = false;
            }
        } else {
            word.push(c);
            started = true;
        }
    }
    if quote.is_some() || escaped {
        return Err("Unclosed quote or escape in EDITOR".to_owned());
    }
    if started {
        let ghost was = words@;
        words.push(word);
        assert(texts(words@) =~= texts(was).push(word@));
    }
    assert(texts(words@).len() == words@.len());
    if words.len() == 0 {
        return Err("EDITOR is empty".to_owned());
    }
    assert(texts(words@)[0] == words@[0]@);
    if words[0].as_str().is_empty() {
        return Err("EDITOR is empty".to_owned());
    }
    Ok(words)
}

/// The command that opens a file at a line in the user's editor. No shell is
/// involved: what would be a substitution or an operator is an argument.
pub fn editor_command(editor: &str, path: &str, line: u32) -> (r: Result<EditorCommand, String>)
    ensures
        match r {
            Ok(c) => command_words(editor@) is Ok && {
                let words = command_words(editor@)->Ok_0;
                &&& c.program@ == words[0]
                &&& texts(c.args@) == words.skip(1) + place_args(
                    line_style(program_name(words[0])),
                    path@,
                    line,
                )
            },
            Err(e) => command_words(editor@) == Err::<Seq<Seq<char>>, Seq<char>>(e@),
        },
{
    let words = match split_command(editor) {
        Ok(v) => v,
        Err(e) => return Err(e),
    };
    assert(texts(words@).len() == words@.len());
    assert(texts(words@)[0] == words@[0]@);
    let program = words[0].clone();
    let mut args: Vec<String> = Vec::new();
    let mut i: usize = 1;
    assert(texts(args@) =~= texts(words@).subrange(1, 1));
    while i < words.len()
        invariant
            1 <= i <= words@.len(),
            texts(args@) == texts(words@).subrange(1, i as int),
        decreases words@.len() - i,
    {
        let ghost was = args@;
        args.push(words[i].clone());
        i += 1;
        assert(texts(args@) =~= texts(was).push(words@[i - 1]@));
        assert(texts(words@).subrange(1, i as int) =~= texts(words@).subrange(1, i - 1).push(
            words@[i - 1]@,
        ));
    }
    let ghost own = texts(args@);
    assert(own =~= texts(words@).skip(1));
    let number = number_text(line as u64);
    let ghost before = args@;
    match style_of(file_stem_of(program.as_str()).as_str()) {
        LineStyle::Goto => {
            args.push("--goto".to_owned());
            args.push(join3(path, ":", number.as_str()));
        },
        LineStyle::Suffix => {
            args.push(join3(path, ":", number.as_str()));
        },
        LineStyle::Plus => {
            let mut plus = "+".to_owned();
            plus.append(number.as_str());
            args.push(plus);
            args.push(path.to_owned());
        },
        LineStyle::Absent => {
            args.push(path.to_owned());
        },
    }
    assert(texts(args@) =~= own + place_args(
        line_style(program_name(program@)),
        path@,
        line,
    ));
    Ok(EditorCommand { program, args })
}

} // verus!
