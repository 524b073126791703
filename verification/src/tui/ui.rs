//! What is drawn: pieces of text with roles, cut to the width there is.
use crate::query::ast::texts;
use crate::query::lines::{lines, lines_of};
use crate::server::pid::trimmed_end;
use crate::text::{
    byte_len, bytes_in, chars_of, chars_within, count_within, decimal_text, join3, lemma_span_is,
    number_text, span, text_between, text_of, white_space,
};
use crate::tui::app::{App, AppModel, IndexLoadState, Mode};
use crate::tui::highlighter::{
    colored_lines, styled, styled_line, StyledModel, StyledText, SyntaxHighlighter,
    MAX_HIGHLIGHT_LINES,
};
use vstd::prelude::*;

verus! {

/// A part of the screen.
#[derive(Debug, Clone, Copy, PartialEq, Eq, Structural)]
pub struct Area {
    pub x: u16,
    pub y: u16,
    pub width: u16,
    pub height: u16,
}

/// The lesser of two numbers.
pub open spec fn least(a: int, b: int) -> int {
    if a < b {
        a
    } else {
        b
    }
}

/// A difference, but not below zero.
pub open spec fn less(a: int, b: int) -> int {
    if a < b {
        0
    } else {
        a - b
    }
}

/// The part of the screen for the help: in the middle, of at most 60 columns and
/// 28 rows, with a margin.
pub fn help_area(area: Area) -> (r: Area)
    requires
        area.x + area.width <= u16::MAX,
        area.y + area.height <= u16::MAX,
    ensures
        r.width == least(60, less(area.width as int, 4)),
        r.height == least(28, less(area.height as int, 2)),
        r.x == area.x + (area.width - r.width) / 2,
        r.y == area.y + (area.height - r.height) / 2,
{
    let room: u16 = area.width.saturating_sub(4);
    let width: u16 = if room < 60 {
        room
    } else {
        60
    };
    let rows: u16 = area.height.saturating_sub(2);
    let height: u16 = if rows < 28 {
        rows
    } else {
        28
    };
    Area {
        x: area.x + (area.width - width) / 2,
        y: area.y + (area.height - height) / 2,
        width,
        height,
    }
}

/// The mode whose screen is drawn: that below the help while help is shown.
pub fn effective_mode(mode: Mode, previous: Mode) -> (r: Mode)
    ensures
        r == if mode == Mode::Help {
            previous
        } else {
            mode
        },
{
    if mode == Mode::Help {
        previous
    } else {
        mode
    }
}

/// The role of a piece of text.
#[derive(Debug, Clone, Copy, PartialEq, Eq, Structural)]
pub enum UiRole {
    Path,
    LineNumber,
    Gap,
    Text,
    /// The matching part of a line.
    Hit,
}

/// A piece of text with its role.
#[derive(Debug)]
pub struct UiSpan {
    pub role: UiRole,
    pub text: String,
}

/// The contents of pieces.
pub open spec fn spans_of(v: Seq<UiSpan>) -> Seq<(UiRole, Seq<char>)> {
    v.map_values(|s: UiSpan| (s.role, s.text@))
}

/// Adds a piece.
fn put(out: &mut Vec<UiSpan>, role: UiRole, text: String)
    ensures
        spans_of(final(out)@) == spans_of(old(out)@).push((role, text@)),
{
    out.push(UiSpan { role, text });
    assert(spans_of(out@) =~= spans_of(old(out)@).push((role, text@)));
}

/// A text with the part between two bytes set off. Places within a character
/// count as its start.
pub open spec fn set_off(text: Seq<char>, start: nat, end: nat) -> Seq<(UiRole, Seq<char>)> {
    let a = chars_within(text, start) as int;
    let e = chars_within(text, end) as int;
    let b = if e < a {
        a
    } else {
        e
    };
    (if a > 0 {
        seq![(UiRole::Text, text.take(a))]
    } else {
        Seq::empty()
    }) + (if b > a {
        seq![(UiRole::Hit, text.subrange(a, b))]
    } else {
        Seq::empty()
    }) + (if b < text.len() {
        seq![(UiRole::Text, text.skip(b))]
    } else {
        Seq::empty()
    })
}

/// Adds a text with the part between two bytes set off.
fn put_set_off(out: &mut Vec<UiSpan>, text: &str, start: usize, end: usize)
    ensures
        spans_of(final(out)@) == spans_of(old(out)@) + set_off(text@, start as nat, end as nat),
{
    let ghost before = spans_of(out@);
    let chars = chars_of(text);
    let a = count_within(&chars, start);
    let e = count_within(&chars, end);
    let b = if e < a {
        a
    } else {
        e
    };
    if a > 0 {
        let t = text_between(&chars, 0, a);
        assert(t@ =~= text@.take(a as int));
        put(out, UiRole::Text, t);
    }
    if b > a {
        put(out, UiRole::Hit, text_between(&chars, a, b));
    }
    if b < chars.len() {
        let t = text_between(&chars, b, chars.len());
        assert(t@ =~= text@.skip(b as int));
        put(out, UiRole::Text, t);
    }
    assert(spans_of(out@) =~= before + set_off(text@, start as nat, end as nat));
}

/// A text with the part between two bytes set off.
pub fn highlight_match(text: &str, start: usize, end: usize) -> (r: Vec<UiSpan>)
    ensures
        spans_of(r@) == set_off(text@, start as nat, end as nat),
{
    let mut out: Vec<UiSpan> = Vec::new();
    put_set_off(&mut out, text, start, end);
    assert(spans_of(out@) =~= set_off(text@, start as nat, end as nat));
    out
}

/// A row of spaces.
fn blanks(n: usize) -> (r: String)
    ensures
        r@ == crate::tui::preview::spaces(n as nat),
{
    let mut out = String::new();
    let mut k: usize = 0;
    while k < n
        invariant
            k <= n,
            out@ =~= crate::tui::preview::spaces(k as nat),
        decreases n - k,
    {
        out.push(' ');
        k += 1;
    }
    out
}

/// The start of a text that takes at most `n` bytes.
pub open spec fn cut_to(text: Seq<char>, n: nat) -> Seq<char> {
    text.take(chars_within(text, n) as int)
}

/// The start of a text that takes at most `n` bytes.
pub fn cut_text(text: &str, n: usize) -> (r: String)
    ensures
        r@ == cut_to(text@, n as nat),
{
    let chars = chars_of(text);
    let k = count_within(&chars, n);
    let r = text_between(&chars, 0, k);
    assert(r@ =~= text@.take(k as int));
    r
}

/// Number of characters of white space that a text starts with.
pub open spec fn indent(text: Seq<char>) -> int {
    span(text, |c: char| white_space(c)) as int
}

/// A line as it stands in the list of results: without white space around it,
/// and cut, with dots at the end, where it is longer than `room` bytes.
pub open spec fn listed_line(text: Seq<char>, room: nat) -> Seq<char> {
    let t = trimmed_end(text.skip(indent(text)));
    if byte_len(t) > room {
        cut_to(t, less(room as int, 3) as nat) + "..."@
    } else {
        t
    }
}

/// The pieces of the line of a result. The match is set off where it lies
/// within what is shown.
pub open spec fn line_spans(text: Seq<char>, start: usize, end: usize, room: nat) -> Seq<
    (UiRole, Seq<char>),
> {
    let shown = listed_line(text, room);
    let cut = byte_len(trimmed_end(text.skip(indent(text)))) > room;
    let offset = byte_len(text.take(indent(text))) as int;
    let a = less(start as int, offset);
    let b = less(end as int, offset);
    if a < byte_len(shown) && b > a {
        let e = least(b, byte_len(shown) as int);
        set_off(
            shown,
            a as nat,
            (if cut && e > less(room as int, 3) {
                less(room as int, 3)
            } else {
                e
            }) as nat,
        )
    } else {
        seq![(UiRole::Text, shown)]
    }
}

/// A text without white space at its start, as characters, with the number of
/// characters and bytes left out.
fn skip_indent(text: &str) -> (r: (Vec<char>, usize))
    ensures
        r.0@ == text@.skip(indent(text@)),
        r.1 == byte_len(text@.take(indent(text@))),
{
    let chars = chars_of(text);
    let ghost p = |c: char| white_space(c);
    let mut from: usize = 0;
    while from < chars.len() && chars[from].is_whitespace()
        invariant
            from <= chars@.len(),
            p == (|c: char| white_space(c)),
            forall|j: int| 0 <= j < from ==> p(#[trigger] chars@[j]),
        decreases chars@.len() - from,
    {
        from += 1;
    }
    proof {
        lemma_span_is(chars@, p, from as int);
    }
    let start = text_between(&chars, 0, from);
    assert(start@ =~= text@.take(indent(text@)));
    let mut rest: Vec<char> = Vec::new();
    let mut i: usize = from;
    while i < chars.len()
        invariant
            from <= i <= chars@.len(),
            rest@ =~= chars@.subrange(from as int, i as int),
        decreases chars@.len() - i,
    {
        rest.push(chars[i]);
        i += 1;
    }
    assert(rest@ =~= text@.skip(indent(text@)));
    (rest, bytes_in(start.as_str()))
}

/// Leaves out white space at the end.
fn drop_end_space(chars: &mut Vec<char>)
    ensures
        final(chars)@ == trimmed_end(old(chars)@),
{
    let ghost start = chars@;
    while chars.len() > 0 && chars[chars.len() - 1].is_whitespace()
        invariant
            trimmed_end(start) == trimmed_end(chars@),
        decreases chars@.len(),
    {
        chars.pop();
    }
}

/// Adds the pieces of the line of a result; gives the number of its bytes.
fn put_line(out: &mut Vec<UiSpan>, text: &str, start: usize, end: usize, room: usize) -> (r: usize)
    ensures
        spans_of(final(out)@) == spans_of(old(out)@) + line_spans(text@, start, end, room as nat),
        r == byte_len(listed_line(text@, room as nat)),
{
    let ghost before = spans_of(out@);
    let (rest, offset) = skip_indent(text);
    let mut rest = rest;
    drop_end_space(&mut rest);
    let plain = text_of(&rest);
    let cut = bytes_in(plain.as_str()) > room;
    let keep = room.saturating_sub(3);
    let shown = if cut {
        let mut t = cut_text(plain.as_str(), keep);
        t.append("...");
        t
    } else {
        plain
    };
    let width = bytes_in(shown.as_str());
    let a = start.saturating_sub(offset);
    let b = end.saturating_sub(offset);
    if a < width && b > a {
        let e = if b < width {
            b
        } else {
            width
        };
        let e = if cut && e > keep {
            keep
        } else {
            e
        };
        put_set_off(out, shown.as_str(), a, e);
    } else {
        put(out, UiRole::Text, shown);
        assert(spans_of(out@) =~= before + seq![(UiRole::Text, shown@)]);
    }
    width
}

/// The bytes that are left for the line of a result.
pub open spec fn line_room(width: u16, path: Seq<char>) -> nat {
    less(width as int, byte_len(path) as int + 10) as nat
}

/// The pieces of a result in a list of a width: path, number and line, filled up
/// with spaces to the border.
pub open spec fn result_spans(
    path: Seq<char>,
    line: u32,
    text: Seq<char>,
    start: usize,
    end: usize,
    width: u16,
) -> Seq<(UiRole, Seq<char>)> {
    let room = line_room(width, path);
    let used = byte_len(path) + decimal_text(line as nat).len() + 3 + byte_len(
        listed_line(text, room),
    );
    let inner = less(width as int, 2);
    seq![
        (UiRole::Path, path + ":"@),
        (UiRole::LineNumber, decimal_text(line as nat)),
        (UiRole::Gap, "  "@),
    ] + line_spans(text, start, end, room) + (if used < inner {
        seq![(UiRole::Gap, crate::tui::preview::spaces((inner - used) as nat))]
    } else {
        Seq::empty()
    })
}

/// A number in decimal takes one byte for each digit.
proof fn lemma_decimal_bytes(n: nat)
    ensures
        byte_len(decimal_text(n)) == decimal_text(n).len(),
        decimal_text(n).len() <= n + 1,
    decreases n,
{
    reveal_with_fuel(byte_len, 2);
    if n >= 10 {
        lemma_decimal_bytes(n / 10);
        assert(decimal_text(n).drop_last() =~= decimal_text(n / 10));
    } else {
        assert(decimal_text(n).drop_last() =~= Seq::<char>::empty());
    }
}

/// The pieces of a result in a list of a width.
pub fn draw_result(path: &str, line: u32, text: &str, start: usize, end: usize, width: u16) -> (r:
    Vec<UiSpan>)
    ensures
        spans_of(r@) == result_spans(path@, line, text@, start, end, width),
{
    let mut out: Vec<UiSpan> = Vec::new();
    assert(spans_of(out@) =~= Seq::<(UiRole, Seq<char>)>::empty());
    let mut head = path.to_owned();
    head.append(":");
    put(&mut out, UiRole::Path, head);
    let number = number_text(line as u64);
    proof {
        lemma_decimal_bytes(line as nat);
    }
    let digits = bytes_in(number.as_str());
    put(&mut out, UiRole::LineNumber, number);
    put(&mut out, UiRole::Gap, "  ".to_owned());
    let ghost first = spans_of(out@);
    let path_bytes = bytes_in(path);
    let room = (width as usize).saturating_sub(path_bytes.saturating_add(10));
    let shown = put_line(&mut out, text, start, end, room);
    let inner = (width as usize).saturating_sub(2);
    let used = path_bytes.saturating_add(digits).saturating_add(3).saturating_add(shown);
    let ghost second = spans_of(out@);
    if used < inner {
        put(&mut out, UiRole::Gap, blanks(inner - used));
    }
    assert(spans_of(out@) =~= result_spans(path@, line, text@, start, end, width));
    out
}

/// A number in at least four places, and a space.
pub open spec fn gutter(n: nat) -> Seq<char> {
    let t = decimal_text(n);
    crate::tui::preview::spaces(less(4, t.len() as int) as nat) + t + " "@
}

fn draw_gutter(n: u64) -> (r: String)
    ensures
        r@ == gutter(n as nat),
{
    let t = number_text(n);
    proof {
        lemma_decimal_bytes(n as nat);
    }
    let width = bytes_in(t.as_str());
    let pad = blanks(4usize.saturating_sub(width));
    join3(pad.as_str(), t.as_str(), " ")
}

/// Number of bytes of colored pieces.
pub open spec fn colored_bytes(v: Seq<StyledModel>) -> nat
    decreases v.len(),
{
    if v.len() == 0 {
        0
    } else {
        colored_bytes(v.drop_last()) + byte_len(v.last().1)
    }
}

/// The first `n` of colored pieces, cut to `room` bytes. A piece that does not
/// fit is cut; none is added once the room is used up.
pub open spec fn fitted(v: Seq<StyledModel>, n: nat, room: nat) -> Seq<StyledModel>
    decreases n,
{
    if n == 0 {
        Seq::empty()
    } else {
        let before = fitted(v, (n - 1) as nat, room);
        if n > 1 && colored_bytes(before) >= room {
            before
        } else {
            before.push(
                (v[n - 1].0, cut_to(v[n - 1].1, less(room as int, colored_bytes(before) as int) as nat)),
            )
        }
    }
}

proof fn lemma_cut_bytes(s: Seq<char>, n: nat)
    ensures
        byte_len(cut_to(s, n)) <= n,
        chars_within(s, n) <= s.len(),
        byte_len(s) <= n ==> cut_to(s, n) == s,
    decreases s.len(),
{
    if byte_len(s) <= n || s.len() == 0 {
        assert(s.take(s.len() as int) =~= s);
    } else {
        lemma_cut_bytes(s.drop_last(), n);
        assert(s.drop_last().take(chars_within(s, n) as int) =~= s.take(
            chars_within(s, n) as int,
        ));
    }
}

/// Cuts colored pieces to `room` bytes; gives the number of bytes too.
pub fn fit_spans(v: &Vec<StyledText>, room: usize) -> (r: (Vec<StyledText>, usize))
    ensures
        styled_line(r.0@) == fitted(styled_line(v@), v@.len(), room as nat),
        r.1 == colored_bytes(styled_line(r.0@)),
        r.1 <= room,
{
    let ghost all = styled_line(v@);
    let mut out: Vec<StyledText> = Vec::new();
    let mut used: usize = 0;
    let mut i: usize = 0;
    assert(styled_line(out@) =~= Seq::<StyledModel>::empty());
    while i < v.len()
        invariant
            i <= v@.len(),
            all == styled_line(v@),
            used <= room,
            used == colored_bytes(styled_line(out@)),
            styled_line(out@) == fitted(all, i as nat, room as nat),
        decreases v@.len() - i,
    {
        assert(all[i as int] == (v@[i as int].style, v@[i as int].text@));
        if i == 0 || used < room {
            let ghost was = out@;
            let t = cut_text(v[i].text.as_str(), room - used);
            proof {
                lemma_cut_bytes(v@[i as int].text@, (room - used) as nat);
            }
            used += bytes_in(t.as_str());
            let piece = StyledText { style: v[i].style, text: t };
            out.push(piece);
            assert(styled_line(out@) =~= styled_line(was).push((piece.style, piece.text@)));
            assert(styled_line(out@).drop_last() =~= styled_line(was));
        }
        i += 1;
    }
    (out, used)
}

/// What a line of the preview shows beside its number.
#[derive(Debug)]
pub enum PreviewBody {
    /// Text.
    Plain(String),
    /// Text in colors.
    Colored(Vec<StyledText>),
}

/// A line of the preview.
#[derive(Debug)]
pub struct PreviewLine {
    /// Its number.
    pub gutter: String,
    pub body: PreviewBody,
    /// Number of blanks that fill it up to the border.
    pub fill: usize,
    /// Whether it has the match.
    pub is_match: bool,
}

/// The mathematical content of a [`PreviewBody`].
pub enum BodyModel {
    Plain(Seq<char>),
    Colored(Seq<StyledModel>),
}

/// The mathematical content of a [`PreviewLine`].
pub struct PreviewRow {
    pub gutter: Seq<char>,
    pub body: BodyModel,
    pub fill: nat,
    pub is_match: bool,
}

impl View for PreviewLine {
    type V = PreviewRow;

    open spec fn view(&self) -> PreviewRow {
        PreviewRow {
            gutter: self.gutter@,
            body: match self.body {
                PreviewBody::Plain(t) => BodyModel::Plain(t@),
                PreviewBody::Colored(v) => BodyModel::Colored(styled_line(v@)),
            },
            fill: self.fill as nat,
            is_match: self.is_match,
        }
    }
}

/// The contents of lines of the preview.
pub open spec fn preview_rows_of(v: Seq<PreviewLine>) -> Seq<PreviewRow> {
    v.map_values(|l: PreviewLine| l@)
}

/// A line of the preview, with its number from one on: in colors where there are
/// some for it, which are those of the lines from `start` on. It is cut to the
/// room there is; the line with the match is filled up to it.
pub open spec fn preview_row(
    number: int,
    text: Seq<char>,
    colors: Seq<Seq<StyledModel>>,
    start: usize,
    room: nat,
    is_match: bool,
) -> PreviewRow {
    let place = number - 1 - start;
    if 0 <= place < colors.len() {
        let v = colors[place];
        let shown = fitted(v, v.len(), room);
        PreviewRow {
            gutter: gutter(number as nat),
            body: BodyModel::Colored(shown),
            fill: if is_match {
                less(room as int, colored_bytes(shown) as int) as nat
            } else {
                0
            },
            is_match,
        }
    } else {
        let shown = cut_to(text, room);
        PreviewRow {
            gutter: gutter(number as nat),
            body: BodyModel::Plain(shown),
            fill: if is_match {
                less(room as int, byte_len(shown) as int) as nat
            } else {
                0
            },
            is_match,
        }
    }
}

/// The lines of the preview from the first one to be shown on, as many as there
/// is room for.
pub open spec fn preview_rows(
    v: Seq<Seq<char>>,
    scroll: usize,
    height: nat,
    match_line: int,
    colors: Seq<Seq<StyledModel>>,
    start: usize,
    room: nat,
) -> Seq<PreviewRow> {
    Seq::new(
        least(less(v.len() as int, scroll as int), height as int) as nat,
        |i: int|
            preview_row(
                scroll + i + 1,
                v[scroll + i],
                colors,
                start,
                room,
                scroll + i + 1 == match_line,
            ),
    )
}

/// The title of the preview: the path of the selected result.
pub open spec fn preview_title(app: AppModel) -> Seq<char> {
    if app.selected < app.results.len() {
        " "@ + app.results[app.selected as int].path + " "@
    } else {
        " Preview "@
    }
}

/// The line of the selected result, zero where there is none.
pub open spec fn selected_line(app: AppModel) -> int {
    if app.selected < app.results.len() {
        app.results[app.selected as int].line as int
    } else {
        0
    }
}

/// The preview in a panel of a size, of which a border takes one on each side
/// and line numbers take five places: its title, and its lines where there is a
/// preview.
#[derive(Debug)]
pub struct PreviewPanel {
    pub title: String,
    pub lines: Option<Vec<PreviewLine>>,
}

fn draw_preview_line(
    number: u64,
    text: &str,
    colors: Option<&Vec<StyledText>>,
    room: usize,
    is_match: bool,
) -> (r: PreviewLine)
    requires
        0 < number <= usize::MAX,
    ensures
        colors is Some ==> forall|all: Seq<Seq<StyledModel>>, start: usize|
            0 <= number - 1 - start < all.len() && all[number - 1 - start] == styled_line(colors->0@) ==> r@
                == #[trigger] preview_row(number as int, text@, all, start, room as nat, is_match),
        colors is None ==> forall|all: Seq<Seq<StyledModel>>, start: usize|
            !(0 <= number - 1 - start < all.len()) ==> r@ == #[trigger] preview_row(
                number as int,
                text@,
                all,
                start,
                room as nat,
                is_match,
            ),
{
    let (body, used) = match colors {
        Some(v) => {
            let (shown, used) = fit_spans(v, room);
            assert(styled_line(v@).len() == v@.len());
            (PreviewBody::Colored(shown), used)
        },
        None => {
            let shown = cut_text(text, room);
            let used = bytes_in(shown.as_str());
            (PreviewBody::Plain(shown), used)
        },
    };
    let fill = if is_match {
        room.saturating_sub(used)
    } else {
        0
    };
    PreviewLine { gutter: draw_gutter(number), body, fill, is_match }
}

/// The colors of the lines of the preview: those of the file of the selected
/// result.
pub open spec fn preview_colors_of(app: AppModel) -> Seq<Seq<StyledModel>> {
    if app.preview is Some && app.selected < app.results.len() {
        colored_lines(
            app.preview->0,
            app.results[app.selected as int].path,
            MAX_HIGHLIGHT_LINES as int,
        )
    } else {
        Seq::empty()
    }
}

/// The colors of the lines of the preview, from its first line on.
pub fn preview_colors(app: &App, highlighter: &SyntaxHighlighter) -> (r: Vec<Vec<StyledText>>)
    ensures
        styled(r@) == preview_colors_of(app@),
{
    match (&app.preview_content, app.get_selected_result()) {
        (Some(content), Some(m)) => {
            assert(app@.results[app.selected as int] == m@);
            highlighter.highlight_content(content.as_str(), m.path.as_str())
        },
        _ => {
            let none: Vec<Vec<StyledText>> = Vec::new();
            assert(styled(none@) =~= Seq::<Seq<StyledModel>>::empty());
            none
        },
    }
}

/// Draws the preview. `colors` are those of its lines from `start` on, as far as
/// they are known.
pub fn draw_preview(
    app: &App,
    colors: &Vec<Vec<StyledText>>,
    start: usize,
    width: u16,
    height: u16,
) -> (r: PreviewPanel)
    ensures
        r.title@ == preview_title(app@),
        r.lines is Some <==> app@.preview is Some,
        r.lines is Some ==> preview_rows_of(r.lines->0@) == preview_rows(
            lines(app@.preview->0),
            app.preview_scroll,
            less(height as int, 2) as nat,
            selected_line(app@),
            styled(colors@),
            start,
            less(width as int, 7) as nat,
        ),
{
    let (title, match_line) = match app.get_selected_result() {
        Some(m) => {
            assert(app@.results[app.selected as int] == m@);
            (join3(" ", m.path.as_str(), " "), m.line_number as u64)
        },
        None => (" Preview ".to_owned(), 0),
    };
    let content = match &app.preview_content {
        Some(content) => content,
        None => return PreviewPanel { title, lines: None },
    };
    let v = lines_of(content.as_str());
    assert(texts(v@).len() == v@.len());
    let room = (width as usize).saturating_sub(7);
    let end = app.preview_scroll.saturating_add((height as usize).saturating_sub(2));
    let end = if v.len() < end {
        v.len()
    } else {
        end
    };
    let scroll = app.preview_scroll;
    let ghost all = preview_rows(
        lines(content@),
        scroll,
        less(height as int, 2) as nat,
        match_line as int,
        styled(colors@),
        start,
        room as nat,
    );
    let mut out: Vec<PreviewLine> = Vec::new();
    let mut i: usize = scroll;
    while i < end
        invariant
            scroll <= i,
            if end < scroll {
                i == scroll
            } else {
                i <= end
            },
            end <= v@.len(),
            texts(v@) == lines(content@),
            all.len() == less(end as int, scroll as int),
            all == preview_rows(
                lines(content@),
                scroll,
                less(height as int, 2) as nat,
                match_line as int,
                styled(colors@),
                start,
                room as nat,
            ),
            i - scroll == out@.len(),
            end > scroll ==> preview_rows_of(out@) == all.take(i - scroll),
        decreases end - i,
    {
        let ghost was = out@;
        let place = if i >= start && i - start < colors.len() {
            Some(&colors[i - start])
        } else {
            None
        };
        assert(styled(colors@).len() == colors@.len());
        assert(place is Some ==> styled(colors@)[i - start] == styled_line(place->0@));
        let number = i as u64 + 1;
        let line = draw_preview_line(number, v[i].as_str(), place, room, number == match_line);
        assert(texts(v@)[i as int] == v@[i as int]@);
        assert(all[i - scroll] == preview_row(
            number as int,
            v@[i as int]@,
            styled(colors@),
            start,
            room as nat,
            number == match_line,
        ));
        out.push(line);
        i += 1;
        assert(preview_rows_of(out@) =~= preview_rows_of(was).push(line@));
        assert(all.take(i - scroll) =~= all.take(i - scroll - 1).push(line@));
    }
    assert(all.take(all.len() as int) =~= all);
    assert(preview_rows_of(out@) =~= all);
    PreviewPanel { title, lines: Some(out) }
}

/// A row of the list of results.
#[derive(Debug)]
pub struct ResultRow {
    pub spans: Vec<UiSpan>,
    pub selected: bool,
}

/// The contents of rows.
pub open spec fn rows_of(v: Seq<ResultRow>) -> Seq<(Seq<(UiRole, Seq<char>)>, bool)> {
    v.map_values(|r: ResultRow| (spans_of(r.spans@), r.selected))
}

/// The rows of a list of results of a width.
pub open spec fn result_rows(app: AppModel, width: u16) -> Seq<(Seq<(UiRole, Seq<char>)>, bool)> {
    Seq::new(
        app.results.len(),
        |i: int|
            (
                result_spans(
                    app.results[i].path,
                    app.results[i].line,
                    Seq::empty(),
                    0,
                    0,
                    width,
                ),
                i == app.selected,
            ),
    )
}

/// Draws the list of results: its title with their number, and its rows.
pub fn draw_results_list(app: &App, width: u16) -> (r: (String, Vec<ResultRow>))
    ensures
        r.0@ == " Results ("@ + decimal_text(app@.results.len()) + ") "@,
        rows_of(r.1@) == result_rows(app@, width),
{
    assert(app@.results.len() == app.results@.len());
    let title = join3(
        " Results (",
        number_text(app.results.len() as u64).as_str(),
        ") ",
    );
    let mut out: Vec<ResultRow> = Vec::new();
    let mut i: usize = 0;
    assert(rows_of(out@) =~= result_rows(app@, width).take(0));
    proof {
        reveal_strlit("");
        assert(""@ =~= Seq::<char>::empty());
    }
    while i < app.results.len()
        invariant
            i <= app.results@.len() == app@.results.len(),
            ""@ == Seq::<char>::empty(),
            rows_of(out@) == result_rows(app@, width).take(i as int),
        decreases app.results@.len() - i,
    {
        let ghost was = out@;
        let m = &app.results[i];
        assert(app@.results[i as int] == m@);
        let row = ResultRow {
            spans: draw_result(m.path.as_str(), m.line_number, "", 0, 0, width),
            selected: i == app.selected,
        };
        out.push(row);
        i += 1;
        assert(rows_of(out@) =~= rows_of(was).push((spans_of(row.spans@), row.selected)));
        assert(result_rows(app@, width).take(i as int) =~= result_rows(app@, width).take(
            i - 1,
        ).push((spans_of(row.spans@), row.selected)));
    }
    assert(result_rows(app@, width).take(app.results@.len() as int) =~= result_rows(app@, width));
    (title, out)
}

/// What the bar at the bottom shows.
#[derive(Debug, Clone, Copy, PartialEq, Eq, Structural)]
pub enum StatusKind {
    Loading,
    Searching,
    Message,
}

/// The sign for loading at a time.
pub open spec fn loading_sign(time_ms: u64) -> Seq<char> {
    let k = time_ms as int / 100 % 4;
    if k == 0 {
        "⠋"@
    } else if k == 1 {
        "⠙"@
    } else if k == 2 {
        "⠹"@
    } else {
        "⠸"@
    }
}

/// The dots for loading at a time.
pub open spec fn loading_dots(time_ms: u64) -> Seq<char> {
    let k = time_ms as int / 300 % 4;
    if k == 0 {
        ""@
    } else if k == 1 {
        "."@
    } else if k == 2 {
        ".."@
    } else {
        "..."@
    }
}

/// The sign for searching at a time.
pub open spec fn searching_sign(time_ms: u64) -> Seq<char> {
    let k = time_ms as int / 80 % 8;
    if k == 0 {
        "⣾"@
    } else if k == 1 {
        "⣽"@
    } else if k == 2 {
        "⣻"@
    } else if k == 3 {
        "⢿"@
    } else if k == 4 {
        "⡿"@
    } else if k == 5 {
        "⣟"@
    } else if k == 6 {
        "⣯"@
    } else {
        "⣷"@
    }
}

/// What the bar at the bottom shows at a time.
pub fn draw_status_bar(app: &App, time_ms: u64, elapsed_ms: u64) -> (r: (StatusKind, String))
    ensures
        (r.0, r.1@) == if app@.load_state == IndexLoadState::Loading {
            (
                StatusKind::Loading,
                loading_sign(time_ms) + " Loading index"@ + loading_dots(time_ms),
            )
        } else if app@.searching {
            (
                StatusKind::Searching,
                searching_sign(time_ms) + " Searching... ("@ + decimal_text(elapsed_ms as nat)
                    + "ms)"@,
            )
        } else {
            (StatusKind::Message, app@.status)
        },
{
    if app.is_loading() {
        let k: u64 = time_ms / 100 % 4;
        let sign = if k == 0 {
            "⠋"
        } else if k == 1 {
            "⠙"
        } else if k == 2 {
            "⠹"
        } else {
            "⠸"
        };
        let d: u64 = time_ms / 300 % 4;
        let dots = if d == 0 {
            ""
        } else if d == 1 {
            "."
        } else if d == 2 {
            ".."
        } else {
            "..."
        };
        (StatusKind::Loading, join3(sign, " Loading index", dots))
    } else if app.is_searching() {
        let k: u64 = time_ms / 80 % 8;
        let sign = if k == 0 {
            "⣾"
        } else if k == 1 {
            "⣽"
        } else if k == 2 {
            "⣻"
        } else if k == 3 {
            "⢿"
        } else if k == 4 {
            "⡿"
        } else if k == 5 {
            "⣟"
        } else if k == 6 {
            "⣯"
        } else {
            "⣷"
        };
        let mut out = join3(sign, " Searching... (", number_text(elapsed_ms).as_str());
        out.append("ms)");
        (StatusKind::Searching, out)
    } else {
        (StatusKind::Message, app.status_message.clone())
    }
}

} // verus!
