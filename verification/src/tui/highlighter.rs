//! Colors of source text.
use crate::paths::{extension, extension_of};
use crate::query::ast::{text_option, texts};
use crate::query::lines::{lines, lines_of};
use crate::text::{chars_of, lemma_span, lemma_span_is, span, text_between};
use syntect::easy::HighlightLines;
use syntect::highlighting::{FontStyle, ThemeSet};
use syntect::parsing::SyntaxSet;
use vstd::prelude::*;

verus! {

/// Lines beyond these stay plain.
pub const MAX_HIGHLIGHT_LINES: usize = 3000;

/// The theme that colors are of.
pub const THEME: &'static str = "base16-eighties.dark";

/// The syntax of text without any.
pub const PLAIN_TEXT: &'static str = "Plain Text";

/// How a piece of text looks.
#[derive(Debug, Clone, Copy, PartialEq, Eq, Structural)]
pub struct TextStyle {
    pub red: u8,
    pub green: u8,
    pub blue: u8,
    pub bold: bool,
    pub italic: bool,
    pub underline: bool,
}

/// A piece of text and how it looks.
#[derive(Debug, PartialEq, Eq)]
pub struct StyledText {
    pub style: TextStyle,
    pub text: String,
}

/// The mathematical content of a [`StyledText`].
pub type StyledModel = (TextStyle, Seq<char>);

/// The contents of the pieces of a line.
pub open spec fn styled_line(v: Seq<StyledText>) -> Seq<StyledModel> {
    v.map_values(|p: StyledText| (p.style, p.text@))
}

/// The contents of the pieces of lines.
pub open spec fn styled(v: Seq<Vec<StyledText>>) -> Seq<Seq<StyledModel>> {
    v.map_values(|line: Vec<StyledText>| styled_line(line@))
}

/// The contents of the pieces of lines, of which some could not be had.
pub open spec fn styled_options(v: Seq<Option<Vec<StyledText>>>) -> Seq<Option<Seq<StyledModel>>> {
    v.map_values(
        |line: Option<Vec<StyledText>>|
            match line {
                Some(pieces) => Some(styled_line(pieces@)),
                None => None,
            },
    )
}

/// The name of the default syntax that `SyntaxSet::find_syntax_by_extension` finds
/// for an extension.
pub uninterp spec fn syntax_by_extension(extension: Seq<char>) -> Option<Seq<char>>;

/// The name of the default syntax that `SyntaxSet::find_syntax_by_first_line`
/// finds for a first line.
pub uninterp spec fn syntax_by_first_line(line: Seq<char>) -> Option<Seq<char>>;

/// Whether `SyntaxSet::find_syntax_by_name` finds a default syntax of a name.
pub uninterp spec fn has_syntax(name: Seq<char>) -> bool;

/// The pieces that `HighlightLines::highlight_line` makes of lines one after the
/// other, in a default syntax and theme; none for a line on which it fails.
pub uninterp spec fn highlighted(
    syntax: Seq<char>,
    theme: Seq<char>,
    lines: Seq<Seq<char>>,
) -> Seq<Option<Seq<StyledModel>>>;

/// The text of pieces.
pub open spec fn joined(v: Seq<StyledModel>) -> Seq<char>
    decreases v.len(),
{
    if v.len() == 0 {
        Seq::empty()
    } else {
        joined(v.drop_last()) + v.last().1
    }
}

/// Whether a theme is one of those that `ThemeSet::load_defaults` loads.
pub open spec fn is_default_theme(name: Seq<char>) -> bool {
    name == "base16-ocean.dark"@ || name == "base16-eighties.dark"@ || name
        == "base16-mocha.dark"@ || name == "base16-ocean.light"@ || name == "InspiredGitHub"@
        || name == "Solarized (dark)"@ || name == "Solarized (light)"@
}

/// `SyntaxSet::find_syntax_by_extension` finds the default syntax for an extension,
/// whose name is given. It is one that is found by its name.
#[verifier::external_body]
fn find_by_extension(extension: &str) -> (r: Option<String>)
    ensures
        text_option(r) == syntax_by_extension(extension@),
        r is Some ==> has_syntax(r->0@),
{
    let set = SyntaxSet::load_defaults_newlines();
    set.find_syntax_by_extension(extension).map(|syntax| syntax.name.clone())
}

/// `SyntaxSet::find_syntax_by_first_line` finds the default syntax for the first
/// line of a file, whose name is given. It is one that is found by its name.
#[verifier::external_body]
fn find_by_first_line(line: &str) -> (r: Option<String>)
    ensures
        text_option(r) == syntax_by_first_line(line@),
        r is Some ==> has_syntax(r->0@),
{
    let set = SyntaxSet::load_defaults_newlines();
    set.find_syntax_by_first_line(line).map(|syntax| syntax.name.clone())
}

/// `HighlightLines::highlight_line` splits lines, given one after the other, into
/// pieces with their styles, in the default syntax of a name, if there is one,
/// and a default theme. There is one for plain text. A line on which it fails
/// has no pieces; the pieces of another, put together, are what it starts with.
#[verifier::external_body]
fn highlight_lines(syntax: &str, theme: &str, lines: &Vec<String>) -> (r: Option<
    Vec<Option<Vec<StyledText>>>,
>)
    requires
        is_default_theme(theme@),
    ensures
        r is Some <==> has_syntax(syntax@),
        syntax@ == PLAIN_TEXT@ ==> r is Some,
        r is Some ==> r->0@.len() == lines@.len(),
        r is Some ==> styled_options(r->0@) == highlighted(syntax@, theme@, texts(lines@)),
        r is Some ==> forall|i: int|
            0 <= i < lines@.len() && (#[trigger] r->0@[i]) is Some ==> joined(
                styled_line(r->0@[i]->0@),
            ).is_prefix_of(lines@[i]@),
{
    let (set, themes) = (SyntaxSet::load_defaults_newlines(), ThemeSet::load_defaults());
    let mut state = HighlightLines::new(set.find_syntax_by_name(syntax)?, &themes.themes[theme]);
    let lines = lines.iter().map(|line| state.highlight_line(line, &set).ok());
    let pieces = lines.map(|line| Some(line?.into_iter().map(|(style, text)| StyledText {
        style: TextStyle {
            red: style.foreground.r,
            green: style.foreground.g,
            blue: style.foreground.b,
            bold: style.font_style.contains(FontStyle::BOLD),
            italic: style.font_style.contains(FontStyle::ITALIC),
            underline: style.font_style.contains(FontStyle::UNDERLINE),
        },
        text: text.to_string(),
    }).collect()));
    Some(pieces.collect())
}

/// The lines of a text, each with the line feed that ends it.
pub open spec fn lines_with_endings(s: Seq<char>) -> Seq<Seq<char>>
    decreases s.len(),
{
    let n = span(s, |c: char| c != '\n') as int;
    if s.len() == 0 {
        Seq::empty()
    } else if n >= s.len() {
        seq![s]
    } else {
        seq![s.take(n + 1)] + lines_with_endings(s.skip(n + 1))
    }
}

/// A text has no more lines than characters.
proof fn lemma_few_lines(s: Seq<char>)
    ensures
        lines_with_endings(s).len() <= s.len(),
    decreases s.len(),
{
    let p = |c: char| c != '\n';
    let n = span(s, p) as int;
    lemma_span(s, p);
    if n < s.len() {
        lemma_few_lines(s.skip(n + 1));
    }
}

/// The first `n` lines, or all where there are fewer.
pub open spec fn first_lines(v: Seq<Seq<char>>, n: int) -> Seq<Seq<char>> {
    if n < v.len() {
        v.take(n)
    } else {
        v
    }
}

/// A text without the characters `c` at its end.
pub open spec fn trimmed(s: Seq<char>, c: char) -> Seq<char>
    decreases s.len(),
{
    if s.len() > 0 && s.last() == c {
        trimmed(s.drop_last(), c)
    } else {
        s
    }
}

/// A text without line feeds at its end, and then without carriage returns.
pub open spec fn without_ending(s: Seq<char>) -> Seq<char> {
    trimmed(trimmed(s, '\n'), '\r')
}

/// Whether a text has no line feed and no carriage return.
pub open spec fn is_unbroken(s: Seq<char>) -> bool {
    forall|i: int| 0 <= i < s.len() ==> #[trigger] s[i] != '\n' && s[i] != '\r'
}

/// Whether pieces show nothing but the text of a line, from its start, where
/// that has no line feed or carriage return but at its end.
pub open spec fn shows_only(v: Seq<StyledModel>, line: Seq<char>) -> bool {
    is_unbroken(without_ending(line)) ==> joined(v).is_prefix_of(without_ending(line))
}

proof fn lemma_trimmed(s: Seq<char>, c: char)
    ensures
        trimmed(s, c).len() <= s.len(),
        s == trimmed(s, c) + s.skip(trimmed(s, c).len() as int),
        forall|i: int| trimmed(s, c).len() <= i < s.len() ==> #[trigger] s[i] == c,
    decreases s.len(),
{
    let t = trimmed(s, c);
    if s.len() > 0 && s.last() == c {
        lemma_trimmed(s.drop_last(), c);
        assert forall|i: int| t.len() <= i < s.len() implies #[trigger] s[i] == c by {
            if i < s.len() - 1 {
                assert(s.drop_last()[i] == s[i]);
            }
        }
        assert(s =~= t + s.skip(t.len() as int)) by {
            assert forall|i: int| 0 <= i < t.len() implies s[i] == t[i] by {
                assert(s.drop_last()[i] == s[i]);
            }
        }
    } else {
        assert(s =~= t + s.skip(t.len() as int));
    }
}

/// Cutting trailing characters off what a text starts with.
proof fn lemma_trimmed_tail(s: Seq<char>, n: int, c: char)
    requires
        0 <= n <= s.len(),
        forall|i: int| n <= i < s.len() ==> #[trigger] s[i] == c,
        n > 0 ==> s[n - 1] != c,
    ensures
        trimmed(s, c) == s.take(n),
    decreases s.len(),
{
    if n < s.len() {
        assert(s[s.len() - 1] == c);
        let t = s.drop_last();
        assert forall|i: int| n <= i < t.len() implies #[trigger] t[i] == c by {
            assert(t[i] == s[i]);
        }
        lemma_trimmed_tail(t, n, c);
        assert(t.take(n) =~= s.take(n));
    } else {
        assert(s.take(n) =~= s);
    }
}

/// A piece of a line loses what belongs to the line's end and nothing else.
proof fn lemma_piece_of_line(line: Seq<char>, a: int, b: int)
    requires
        0 <= a <= b <= line.len(),
        is_unbroken(without_ending(line)),
    ensures
        ({
            let n = without_ending(line).len();
            without_ending(line.subrange(a, b)) == if b <= n {
                line.subrange(a, b)
            } else if a <= n {
                line.subrange(a, n as int)
            } else {
                Seq::empty()
            }
        }),
{
    let head = trimmed(line, '\n');
    let body = without_ending(line);
    lemma_trimmed(line, '\n');
    lemma_trimmed(head, '\r');
    let m = head.len() as int;
    let n = body.len() as int;
    let p = line.subrange(a, b);
    assert forall|i: int| 0 <= i < n implies #[trigger] line[i] == body[i] by {
        assert(head[i] == body[i]);
        assert(line[i] == head[i]);
    }
    assert forall|i: int| n <= i < m implies #[trigger] line[i] == '\r' by {
        assert(head[i] == '\r');
        assert(line[i] == head[i]);
    }
    // Where the piece loses its line feeds, and then its carriage returns.
    let x = if b <= m {
        b - a
    } else if a <= m {
        m - a
    } else {
        0
    };
    assert forall|i: int| x <= i < p.len() implies #[trigger] p[i] == '\n' by {
        assert(p[i] == line[a + i]);
    }
    if x > 0 {
        assert(p[x - 1] == line[a + x - 1]);
        if a + x - 1 < n {
            assert(body[a + x - 1] != '\n');
        }
    }
    lemma_trimmed_tail(p, x, '\n');
    let q = p.take(x);
    let y = if b <= n {
        b - a
    } else if a <= n {
        n - a
    } else {
        0
    };
    assert forall|i: int| y <= i < q.len() implies #[trigger] q[i] == '\r' by {
        assert(q[i] == line[a + i]);
    }
    if y > 0 {
        assert(q[y - 1] == line[a + y - 1]);
        assert(body[a + y - 1] != '\r');
    }
    lemma_trimmed_tail(q, y, '\r');
    assert(q.take(y) =~= if b <= n {
        line.subrange(a, b)
    } else if a <= n {
        line.subrange(a, n)
    } else {
        Seq::empty()
    });
}

/// Pieces that make up the start of a line show, without line ends, the start of
/// the line without its end.
proof fn lemma_shows_only(v: Seq<StyledModel>, line: Seq<char>)
    requires
        joined(v).is_prefix_of(line),
        is_unbroken(without_ending(line)),
    ensures
        ({
            let clean = v.map_values(|p: StyledModel| (p.0, without_ending(p.1)));
            let n = without_ending(line).len();
            joined(clean) == line.take(
                if joined(v).len() <= n {
                    joined(v).len() as int
                } else {
                    n as int
                },
            )
        }),
    decreases v.len(),
{
    let f = |p: StyledModel| (p.0, without_ending(p.1));
    let clean = v.map_values(f);
    lemma_body(line);
    if v.len() == 0 {
        assert(line.take(0) =~= Seq::<char>::empty());
    } else {
        let front = v.drop_last();
        let a = joined(front).len() as int;
        let b = joined(v).len() as int;
        assert(joined(front).is_prefix_of(line)) by {
            assert(joined(front) =~= joined(v).take(a));
            assert(joined(v) =~= line.take(b));
            assert(joined(front) =~= line.take(a));
        }
        lemma_shows_only(front, line);
        assert(v.last().1 =~= line.subrange(a, b)) by {
            assert(joined(v) =~= line.take(b));
            assert(v.last().1 =~= joined(v).subrange(a, b));
        }
        lemma_piece_of_line(line, a, b);
        assert(clean.drop_last() =~= front.map_values(f));
        assert(clean.last() == f(v.last()));
        let n = without_ending(line).len() as int;
        assert(joined(clean) =~= line.take(
            if b <= n {
                b
            } else {
                n
            },
        ));
    }
}

/// A line starts with what it is without its end.
proof fn lemma_body(line: Seq<char>)
    ensures
        without_ending(line).len() <= line.len(),
        without_ending(line) == line.take(without_ending(line).len() as int),
{
    let head = trimmed(line, '\n');
    lemma_trimmed(line, '\n');
    lemma_trimmed(head, '\r');
    let body = without_ending(line);
    assert(body =~= line.take(body.len() as int)) by {
        assert forall|i: int| 0 <= i < body.len() implies body[i] == line[i] by {
            assert(head[i] == body[i]);
            assert(line[i] == head[i]);
        }
    }
}

/// Pieces of lines as they are shown: without line ends, and empty lines for
/// those that have none.
pub open spec fn cleaned(v: Seq<Option<Seq<StyledModel>>>) -> Seq<Seq<StyledModel>> {
    v.map_values(
        |line: Option<Seq<StyledModel>>|
            match line {
                Some(pieces) => pieces.map_values(
                    |p: StyledModel| (p.0, without_ending(p.1)),
                ),
                None => Seq::empty(),
            },
    )
}

/// The syntax of a file: by its extension, else by its first line, else plain
/// text.
pub open spec fn syntax_of(path: Seq<char>, content: Seq<char>) -> Seq<char> {
    match syntax_by_extension(extension(path)) {
        Some(name) => name,
        None => if lines(content).len() > 0 && syntax_by_first_line(lines(content)[0]) is Some {
            syntax_by_first_line(lines(content)[0])->0
        } else {
            PLAIN_TEXT@
        },
    }
}

/// The first `n` lines of a file in colors.
pub open spec fn colored_lines(content: Seq<char>, path: Seq<char>, n: int) -> Seq<
    Seq<StyledModel>,
> {
    cleaned(
        highlighted(
            syntax_of(path, content),
            THEME@,
            first_lines(lines_with_endings(content), n),
        ),
    )
}

/// The lines of a file in colors from `start` to `end`, both counted from zero.
pub open spec fn colored_range(
    content: Seq<char>,
    path: Seq<char>,
    start: usize,
    end: usize,
) -> Seq<Seq<StyledModel>> {
    let all = colored_lines(content, path, end + 1);
    if start < all.len() {
        all.skip(start as int)
    } else {
        Seq::empty()
    }
}

/// Number of characters of the first `n` that are left without `c` at the end.
fn end_without(chars: &Vec<char>, n: usize, c: char) -> (r: usize)
    requires
        n <= chars@.len(),
    ensures
        r <= n,
        chars@.take(r as int) == trimmed(chars@.take(n as int), c),
{
    let mut i: usize = n;
    while i > 0 && chars[i - 1] == c
        invariant
            i <= n <= chars@.len(),
            trimmed(chars@.take(i as int), c) == trimmed(chars@.take(n as int), c),
        decreases i,
    {
        assert(chars@.take(i as int).drop_last() =~= chars@.take(i - 1));
        i -= 1;
    }
    i
}

/// A text without line feeds at its end, and then without carriage returns.
pub fn clean_text(text: &str) -> (r: String)
    ensures
        r@ == without_ending(text@),
{
    let chars = chars_of(text);
    assert(chars@.take(chars@.len() as int) =~= chars@);
    let n = end_without(&chars, chars.len(), '\n');
    let n = end_without(&chars, n, '\r');
    let r = text_between(&chars, 0, n);
    assert(r@ =~= chars@.take(n as int));
    r
}

fn clean_line(v: &Vec<StyledText>) -> (r: Vec<StyledText>)
    ensures
        styled_line(r@) == styled_line(v@).map_values(
            |p: StyledModel| (p.0, without_ending(p.1)),
        ),
{
    let ghost clean = |p: StyledModel| (p.0, without_ending(p.1));
    let mut out: Vec<StyledText> = Vec::new();
    let mut i: usize = 0;
    while i < v.len()
        invariant
            i <= v@.len(),
            out@.len() == i,
            clean == (|p: StyledModel| (p.0, without_ending(p.1))),
            forall|k: int|
                0 <= k < i ==> #[trigger] styled_line(out@)[k] == clean(styled_line(v@)[k]),
        decreases v@.len() - i,
    {
        let ghost was = out@;
        let piece = StyledText { style: v[i].style, text: clean_text(v[i].text.as_str()) };
        out.push(piece);
        assert(styled_line(out@) =~= styled_line(was).push((piece.style, piece.text@)));
        i += 1;
    }
    assert(styled_line(out@) =~= styled_line(v@).map_values(clean));
    out
}

/// Pieces of lines as they are shown.
pub fn clean_lines(v: &Vec<Option<Vec<StyledText>>>) -> (r: Vec<Vec<StyledText>>)
    ensures
        styled(r@) == cleaned(styled_options(v@)),
{
    let ghost all = cleaned(styled_options(v@));
    let mut out: Vec<Vec<StyledText>> = Vec::new();
    let mut i: usize = 0;
    assert(styled(out@) =~= all.take(0));
    while i < v.len()
        invariant
            i <= v@.len(),
            all == cleaned(styled_options(v@)),
            styled(out@) == all.take(i as int),
        decreases v@.len() - i,
    {
        let ghost was = out@;
        let line = match &v[i] {
            Some(pieces) => clean_line(pieces),
            None => {
                let none: Vec<StyledText> = Vec::new();
                assert(styled_line(none@) =~= Seq::<StyledModel>::empty());
                none
            },
        };
        assert(styled_line(line@) == all[i as int]);
        out.push(line);
        i += 1;
        assert(styled(out@) =~= styled(was).push(styled_line(line@)));
        assert(all.take(i as int) =~= all.take(i - 1).push(all[i - 1]));
    }
    assert(all.take(all.len() as int) =~= all);
    out
}

/// The first `limit` lines of a text, each with the line feed that ends it.
pub fn take_lines(content: &str, limit: usize) -> (r: Vec<String>)
    ensures
        texts(r@) == first_lines(lines_with_endings(content@), limit as int),
{
    let chars = chars_of(content);
    let ghost all = lines_with_endings(content@);
    let mut out: Vec<String> = Vec::new();
    let mut at: usize = 0;
    assert(chars@.skip(0) =~= chars@);
    assert(texts(out@) + lines_with_endings(chars@.skip(0)) =~= all);
    while at < chars.len() && out.len() < limit
        invariant
            at <= chars@.len(),
            out@.len() <= limit,
            all == texts(out@) + lines_with_endings(chars@.skip(at as int)),
        decreases chars@.len() - at,
    {
        let ghost rest = chars@.skip(at as int);
        let ghost p = |c: char| c != '\n';
        let mut end: usize = at;
        while end < chars.len() && chars[end] != '\n'
            invariant
                at <= end <= chars@.len(),
                rest == chars@.skip(at as int),
                p == (|c: char| c != '\n'),
                forall|i: int| 0 <= i < end - at ==> p(#[trigger] rest[i]),
            decreases chars@.len() - end,
        {
            assert(rest[end - at] == chars@[end as int]);
            end += 1;
        }
        assert(end < chars@.len() ==> rest[end - at] == chars@[end as int]);
        proof {
            lemma_span_is(rest, p, end - at);
        }
        let next = if end < chars.len() {
            end + 1
        } else {
            end
        };
        let ghost was = out@;
        let line = text_between(&chars, at, next);
        out.push(line);
        assert(texts(out@) =~= texts(was).push(line@));
        assert(line@ =~= if end < chars@.len() {
            rest.take(end - at + 1)
        } else {
            rest
        });
        assert(chars@.skip(next as int) =~= rest.skip(next - at));
        assert(lines_with_endings(rest) =~= seq![line@] + lines_with_endings(
            chars@.skip(next as int),
        ));
        assert(all =~= texts(out@) + lines_with_endings(chars@.skip(next as int)));
        at = next;
    }
    assert(texts(out@).len() == out@.len());
    assert(at == chars@.len() ==> lines_with_endings(chars@.skip(at as int)).len() == 0);
    assert(texts(out@) =~= first_lines(all, limit as int));
    out
}

/// Gives source text its colors.
#[derive(Debug, Clone, Copy, PartialEq, Eq, Structural)]
pub struct SyntaxHighlighter {}

impl Default for SyntaxHighlighter {
    fn default() -> (r: Self)
        ensures
            r == (SyntaxHighlighter {}),
    {
        SyntaxHighlighter {}
    }
}

/// The syntax of a file.
fn find_syntax(path: &str, content: &str) -> (r: String)
    ensures
        r@ == syntax_of(path@, content@),
        r@ == PLAIN_TEXT@ || has_syntax(r@),
{
    if let Some(name) = find_by_extension(extension_of(path).as_str()) {
        return name;
    }
    let v = lines_of(content);
    assert(texts(v@).len() == v@.len());
    if v.len() > 0 {
        assert(texts(v@)[0] == v@[0]@);
        if let Some(name) = find_by_first_line(v[0].as_str()) {
            return name;
        }
    }
    PLAIN_TEXT.to_owned()
}

/// The first `limit` lines of a file in colors.
fn color_lines(content: &str, path: &str, limit: usize) -> (r: Vec<Vec<StyledText>>)
    ensures
        styled(r@) == colored_lines(content@, path@, limit as int),
        r@.len() == first_lines(lines_with_endings(content@), limit as int).len(),
        forall|i: int|
            0 <= i < r@.len() ==> shows_only(
                styled_line((#[trigger] r@[i])@),
                lines_with_endings(content@)[i],
            ),
{
    let syntax = find_syntax(path, content);
    let v = take_lines(content, limit);
    assert(texts(v@).len() == v@.len());
    match highlight_lines(syntax.as_str(), THEME, &v) {
        Some(pieces) => {
            let out = clean_lines(&pieces);
            assert(styled(out@).len() == out@.len());
            assert forall|i: int| 0 <= i < out@.len() implies shows_only(
                styled_line((#[trigger] out@[i])@),
                lines_with_endings(content@)[i],
            ) by {
                let line = lines_with_endings(content@)[i];
                assert(texts(v@)[i] == v@[i]@);
                assert(v@[i]@ == line);
                assert(styled(out@)[i] == styled_line(out@[i]@));
                lemma_body(line);
                match pieces@[i] {
                    Some(p) => {
                        assert(styled_options(pieces@)[i] == Some(styled_line(p@)));
                        if is_unbroken(without_ending(line)) {
                            lemma_shows_only(styled_line(p@), line);
                        }
                    },
                    None => {
                        assert(styled_options(pieces@)[i] is None);
                    },
                }
            }
            out
        },
        None => Vec::new(),
    }
}

impl SyntaxHighlighter {
    /// A highlighter with the default syntaxes and themes.
    pub fn new() -> (r: SyntaxHighlighter)
        ensures
            r == (SyntaxHighlighter {}),
    {
        SyntaxHighlighter {}
    }

    /// The lines of a file in colors, as many as [`MAX_HIGHLIGHT_LINES`]. They show
    /// nothing but the lines.
    pub fn highlight_content(&self, content: &str, path: &str) -> (r: Vec<Vec<StyledText>>)
        ensures
            styled(r@) == colored_lines(content@, path@, MAX_HIGHLIGHT_LINES as int),
            r@.len() == first_lines(
                lines_with_endings(content@),
                MAX_HIGHLIGHT_LINES as int,
            ).len(),
            forall|i: int|
                0 <= i < r@.len() ==> shows_only(
                    styled_line((#[trigger] r@[i])@),
                    lines_with_endings(content@)[i],
                ),
    {
        color_lines(content, path, MAX_HIGHLIGHT_LINES)
    }

    /// The lines of a file in colors from `start_line` to `end_line`, both counted
    /// from zero. Lines before them are read for what they open.
    pub fn highlight_range(
        &self,
        content: &str,
        path: &str,
        start_line: usize,
        end_line: usize,
    ) -> (r: Vec<Vec<StyledText>>)
        ensures
            styled(r@) == colored_range(content@, path@, start_line, end_line),
            forall|i: int|
                0 <= i < r@.len() ==> shows_only(
                    styled_line((#[trigger] r@[i])@),
                    lines_with_endings(content@)[start_line + i],
                ),
    {
        let most = content.unicode_len();
        let limit = if end_line < most {
            end_line + 1
        } else {
            most
        };
        proof {
            lemma_few_lines(content@);
            let v = lines_with_endings(content@);
            assert(first_lines(v, limit as int) == first_lines(v, end_line + 1));
        }
        let mut all = color_lines(content, path, limit);
        let ghost whole = all@;
        assert(styled(all@).len() == all@.len());
        if start_line >= all.len() {
            let none: Vec<Vec<StyledText>> = Vec::new();
            assert(styled(none@) =~= Seq::<Seq<StyledModel>>::empty());
            return none;
        }
        let out = all.split_off(start_line);
        assert(styled(out@) =~= styled(whole).skip(start_line as int));
        assert forall|i: int| 0 <= i < out@.len() implies shows_only(
            styled_line((#[trigger] out@[i])@),
            lines_with_endings(content@)[start_line + i],
        ) by {
            assert(out@[i] == whole[start_line + i]);
        }
        out
    }
}

} // verus!
