//! What the preview of a file shows.
use crate::print_laws::lemma_within;
use crate::text::{
    byte_len, chars_within, decimal_text, lemma_byte_len_bounds, lemma_byte_len_concat,
};
use crate::tui::app::AppModel;
use crate::tui::highlighter::{joined, StyledModel};
use crate::tui::preview::{expanded, is_nearby, spaces};
use crate::tui::ui::{colored_bytes, cut_to, fitted, preview_rows, result_rows, BodyModel};
use vstd::prelude::*;

verus! {

/// A text that is cut keeps its start, within the room there is; one that fits
/// stays whole.
pub proof fn cutting_keeps_the_start(text: Seq<char>, room: nat)
    ensures
        cut_to(text, room).is_prefix_of(text),
        byte_len(cut_to(text, room)) <= room,
        byte_len(text) <= room ==> cut_to(text, room) == text,
        forall|n: int|
            0 <= n <= text.len() && byte_len(#[trigger] text.take(n)) <= room ==> n <= cut_to(
                text,
                room,
            ).len(),
    decreases text.len(),
{
    let n = chars_within(text, room) as int;
    lemma_within(text, room);
    if byte_len(text) <= room || text.len() == 0 {
        assert(text.take(n) =~= text);
    } else {
        cutting_keeps_the_start(text.drop_last(), room);
        lemma_within(text.drop_last(), room);
        assert(text.drop_last().take(n) =~= text.take(n));
        assert(text.take(n).is_prefix_of(text));
        assert forall|k: int|
            0 <= k <= text.len() && byte_len(#[trigger] text.take(k)) <= room implies k <= n by {
            if k < text.len() {
                assert(text.drop_last().take(k) =~= text.take(k));
            } else {
                assert(text.take(k) =~= text);
            }
        }
    }
}

/// The preview shows the lines of the file from the first one on that is to be
/// seen, as many as there is room for, each with its number and its own text,
/// and marks the line of the match and no other.
pub proof fn preview_shows_the_lines(
    v: Seq<Seq<char>>,
    scroll: usize,
    height: nat,
    match_line: int,
    room: nat,
    k: int,
)
    requires
        scroll <= k < scroll + height,
        k < v.len(),
    ensures
        ({
            let rows = preview_rows(v, scroll, height, match_line, Seq::empty(), 0, room);
            let row = rows[k - scroll];
            &&& 0 <= k - scroll < rows.len() <= height
            &&& scroll + rows.len() <= v.len()
            &&& row.is_match <==> k + 1 == match_line
            &&& exists|n: nat|
                #![trigger spaces(n)]
                row.gutter == spaces(n) + decimal_text((k + 1) as nat) + " "@
            &&& row.body is Plain && row.body->Plain_0.is_prefix_of(v[k])
            &&& byte_len(v[k]) <= room ==> row.body == BodyModel::Plain(v[k])
        }),
{
    let rows = preview_rows(v, scroll, height, match_line, Seq::empty(), 0, room);
    let row = rows[k - scroll];
    cutting_keeps_the_start(v[k], room);
    let t = decimal_text((k + 1) as nat);
    let n = crate::tui::ui::less(4, t.len() as int) as nat;
    assert(row.gutter == spaces(n) + t + " "@);
}

/// Colors change no text: each piece that is shown is the start of the piece that
/// stands there, in its style, and where the pieces fit they are shown whole.
pub proof fn colors_change_no_text(v: Seq<StyledModel>, room: nat, i: int)
    requires
        0 <= i < fitted(v, v.len(), room).len(),
    ensures
        ({
            let shown = fitted(v, v.len(), room);
            &&& shown.len() <= v.len()
            &&& shown[i].0 == v[i].0
            &&& shown[i].1.is_prefix_of(v[i].1)
            &&& byte_len(joined(shown)) <= room
            &&& byte_len(joined(v)) <= room ==> joined(shown) == joined(v)
        }),
{
    lemma_fitted(v, v.len(), room, i);
    assert(v.take(v.len() as int) =~= v);
}

proof fn lemma_colored_bytes(v: Seq<StyledModel>)
    ensures
        colored_bytes(v) == byte_len(joined(v)),
    decreases v.len(),
{
    if v.len() > 0 {
        lemma_colored_bytes(v.drop_last());
        lemma_byte_len_concat(joined(v.drop_last()), v.last().1);
    }
}

proof fn lemma_fitted(v: Seq<StyledModel>, n: nat, room: nat, i: int)
    requires
        n <= v.len(),
    ensures
        fitted(v, n, room).len() <= n,
        0 <= i < fitted(v, n, room).len() ==> fitted(v, n, room)[i].0 == v[i].0 && fitted(
            v,
            n,
            room,
        )[i].1.is_prefix_of(v[i].1),
        byte_len(joined(v.take(n as int))) < room ==> fitted(v, n, room).len() == n,
        byte_len(joined(v.take(n as int))) <= room ==> joined(fitted(v, n, room)) == joined(
            v.take(n as int),
        ),
        fitted(v, n, room).len() < n ==> colored_bytes(fitted(v, n, room)) >= room,
        byte_len(joined(fitted(v, n, room))) <= room,
    decreases n,
{
    let all = v.take(n as int);
    if n == 0 {
        assert(all =~= Seq::<StyledModel>::empty());
    } else {
        let m = (n - 1) as nat;
        lemma_fitted(v, m, room, i);
        let front = v.take(m as int);
        let before = fitted(v, m, room);
        let own = v[n - 1].1;
        assert(all.drop_last() =~= front);
        assert(all.last() == v[n - 1]);
        lemma_byte_len_concat(joined(front), own);
        lemma_colored_bytes(before);
        let left = crate::tui::ui::less(room as int, colored_bytes(before) as int) as nat;
        let cut = cut_to(own, left);
        cutting_keeps_the_start(own, left);
        let now = fitted(v, n, room);
        if n > 1 && colored_bytes(before) >= room {
            assert(now == before);
            lemma_byte_len_bounds(own);
            assert(byte_len(joined(all)) <= room ==> own =~= Seq::<char>::empty());
            assert(joined(front) + Seq::<char>::empty() =~= joined(front));
        } else {
            assert(now.drop_last() =~= before);
            assert(now.last().1 == cut);
            lemma_byte_len_concat(joined(before), cut);
        }
    }
}

/// Tabs are filled up with spaces to the next of the stops, which are four
/// columns apart; other characters stay, and a new line starts at the first
/// column.
pub proof fn tabs_reach_their_stops(s: Seq<char>, c: char)
    requires
        c != '\t',
    ensures
        ({
            let (text, column) = expanded(s);
            let (tabbed, stop) = expanded(s.push('\t'));
            let (other, next) = expanded(s.push(c));
            &&& column < stop <= column + 4 && stop % 4 == 0
            &&& tabbed == text + spaces((stop - column) as nat)
            &&& other == text.push(c)
            &&& next == if c == '\n' || c == '\r' {
                0
            } else {
                column + 1
            }
        }),
{
    assert(s.push('\t').drop_last() =~= s);
    assert(s.push(c).drop_last() =~= s);
}

/// A text without tabs is previewed as it is.
pub proof fn text_without_tabs_stays(s: Seq<char>)
    requires
        !s.contains('\t'),
    ensures
        expanded(s).0 == s,
    decreases s.len(),
{
    if s.len() > 0 {
        let front = s.drop_last();
        if front.contains('\t') {
            let i = choose|i: int| 0 <= i < front.len() && front[i] == '\t';
            assert(s[i] == '\t');
        }
        assert(s[s.len() - 1] != '\t');
        text_without_tabs_stays(front);
        assert(front.push(s.last()) =~= s);
    }
}

/// Once the selected file has been read, its text is in the preview, and the line
/// of the match is among the first five that are seen.
pub proof fn the_match_comes_into_view(app: AppModel, content: Seq<char>)
    requires
        app.selected < app.results.len(),
        app.results[app.selected as int].line > 0,
        !content.contains('\t'),
    ensures
        ({
            let shown = app.previewed(Some(content));
            let line = app.results[app.selected as int].line;
            &&& shown.preview == Some(content)
            &&& shown.preview_scroll < line <= shown.preview_scroll + 5
            &&& shown.results == app.results && shown.selected == app.selected
        }),
        app.previewed(None).preview is None,
{
    text_without_tabs_stays(content);
}

/// Moving the selection up by one or down by up to two comes to a file that has
/// been read ahead, and no file further away is.
pub proof fn neighbours_are_read_ahead(selected: usize, count: usize, step: int)
    requires
        0 <= selected + step < count,
    ensures
        is_nearby(selected + step, selected, count) <==> -1 <= step <= 2,
{
}

/// The list has a row for each result, and sets off that of the selected one
/// alone.
pub proof fn each_result_has_its_row(app: AppModel, width: u16, i: int)
    requires
        0 <= i < app.results.len(),
    ensures
        result_rows(app, width).len() == app.results.len(),
        result_rows(app, width)[i].1 <==> i == app.selected,
{
}

} // verus!
