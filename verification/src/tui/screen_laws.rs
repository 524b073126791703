//! The interactive screen: what its keys do, what a result shows, and how an
//! editor is called.
use crate::print_laws::{lemma_place, lemma_within};
use crate::query::grammar::meaning;
use crate::query::ranking::RankedHit;
use crate::text::{byte_len, chars_within, decimal_text, white_space};
use crate::tui::app::{
    up_to_space, without_end_spaces, without_last_word, Action, AppModel, IndexLoadState, Key,
    KeyCode, Mode, Modifiers,
};
use crate::tui::preview::{command_words, place_args, read_words, LineStyle, WordState};
use crate::tui::ui::{result_spans, set_off, UiRole};
use vstd::prelude::*;

verus! {

/// A key without modifiers.
pub open spec fn bare(code: KeyCode) -> Key {
    Key { modifiers: Modifiers::Bare, code }
}

/// A character with the control key.
pub open spec fn with_control(c: char) -> Key {
    Key { modifiers: Modifiers::Control, code: KeyCode::Char(c) }
}

/// In the search, Up and Shift+Tab select the result before, Down and Tab the one
/// after, and neither leaves the list; nothing else changes.
pub proof fn arrows_select_neighbours(s: AppModel)
    requires
        s.mode == Mode::Search,
        s.editing || s.pending_key is None,
        s.selected < s.results.len() <= usize::MAX,
    ensures
        ({
            let down = s.pressed(bare(KeyCode::Down)).0;
            let up = s.pressed(bare(KeyCode::Up)).0;
            &&& s.pressed(bare(KeyCode::Tab)).0 == down
            &&& s.pressed(bare(KeyCode::BackTab)).0 == up
            &&& down == (AppModel {
                selected: if s.selected + 1 < s.results.len() {
                    (s.selected + 1) as usize
                } else {
                    s.selected
                },
                ..s
            })
            &&& up == (AppModel {
                selected: if s.selected > 0 {
                    (s.selected - 1) as usize
                } else {
                    s.selected
                },
                ..s
            })
            &&& s.selected + 1 < s.results.len() ==> down.pressed(bare(KeyCode::Up)).0 == s
            &&& s.selected > 0 ==> up.pressed(bare(KeyCode::Down)).0 == s
        }),
{
}

/// Whatever moves the selection keeps it within the results.
pub proof fn the_selection_stays_in_the_list(s: AppModel, by: int)
    requires
        s.selected < s.results.len() <= usize::MAX,
        by >= 0,
    ensures
        s.selecting_on(by).0.selected < s.results.len(),
        s.selecting_on(by).0.selected >= s.selected,
        s.selecting_previous().0.selected <= s.selected,
        s.selecting_page_up().0.selected <= s.selected,
        s.selecting_first().0.selected == 0,
        s.selecting_last().0.selected == s.results.len() - 1,
        s.selecting_on(by).0.results == s.results && s.selecting_previous().0.results == s.results,
        s.selecting_first().0.results == s.results && s.selecting_last().0.results == s.results,
{
}

/// A character that is typed is added to the query, and Backspace or `Ctrl+h`
/// takes the last one away again.
pub proof fn typing_and_erasing(s: AppModel, c: char)
    requires
        s.mode == Mode::Search,
        s.editing,
    ensures
        ({
            let typed = s.pressed(bare(KeyCode::Char(c))).0;
            &&& typed == (AppModel { query: s.query.push(c), ..s })
            &&& typed.pressed(bare(KeyCode::Backspace)).0 == s
            &&& typed.pressed(with_control('h')).0 == s
        }),
{
    assert(s.query.push(c).drop_last() =~= s.query);
}

/// Typing after a search edits the query again.
pub proof fn typing_resumes_editing(s: AppModel, c: char)
    requires
        s.mode == Mode::Search,
        s.pending_key is None,
        c != 'g' && c != 'G' && c != '?',
    ensures
        s.pressed(bare(KeyCode::Char(c))).0 == (AppModel {
            query: s.query.push(c),
            editing: true,
            ..s
        }),
{
}

/// Enter in the search submits the query: it starts the search of a valid query,
/// by the daemon where one is used.
pub proof fn enter_submits_the_query(s: AppModel)
    requires
        s.mode == Mode::Search,
        s.editing,
        !s.searching,
        s.load_state != crate::tui::app::IndexLoadState::Loading,
        s.query.len() > 0,
        crate::query::grammar::meaning(s.query) is Ok,
    ensures
        ({
            let (t, action) = s.pressed(bare(KeyCode::Enter));
            &&& t.query == s.query
            &&& !t.editing
            &&& s.using_daemon ==> action == Action::SearchByDaemon && t.searching
            &&& !s.using_daemon && s.reader_docs is Some
                && !crate::query::grammar::meaning(s.query)->Ok_0.asks_nothing() ==> action
                == Action::SearchDirectly && t.searching
        }),
{
}

/// `Ctrl+c` and `Ctrl+q` leave from anywhere; Esc in the search clears a query and
/// leaves where there is none.
pub proof fn keys_that_leave(s: AppModel)
    ensures
        s.pressed(with_control('c')).1 == Action::Quit,
        s.pressed(with_control('q')).1 == Action::Quit,
        s.mode == Mode::Search && s.editing && s.query.len() == 0 ==> s.pressed(
            bare(KeyCode::Esc),
        ).1 == Action::Quit,
        s.mode == Mode::Search && s.editing && s.query.len() > 0 ==> {
            let (t, action) = s.pressed(bare(KeyCode::Esc));
            action == Action::Nothing && t.query.len() == 0 && t.results.len() == 0 && t.mode
                == Mode::Search
        },
{
}

/// `Ctrl+p` changes between search and preview, and back; `q` and Esc lead from the
/// preview to the search.
pub proof fn preview_and_search_change_places(s: AppModel)
    requires
        s.pending_key is None,
    ensures
        s.mode == Mode::Search ==> s.pressed(with_control('p')).0 == (AppModel {
            mode: Mode::Preview,
            ..s
        }),
        s.mode == Mode::Preview ==> s.pressed(with_control('p')).0 == (AppModel {
            mode: Mode::Search,
            ..s
        }),
        s.mode == Mode::Preview ==> s.pressed(bare(KeyCode::Char('q'))).0 == (AppModel {
            mode: Mode::Search,
            ..s
        }),
        s.mode == Mode::Preview ==> s.pressed(bare(KeyCode::Esc)).0 == (AppModel {
            mode: Mode::Search,
            ..s
        }),
{
}

/// In the preview `j` scrolls down a line and `k` up one, `n` selects the next
/// result and `N` the one before, `gg` jumps to the start, and Enter or `o` opens
/// the selected file.
pub proof fn keys_of_the_preview(s: AppModel)
    requires
        s.mode == Mode::Preview,
        s.pending_key is None,
        s.preview_scroll < usize::MAX,
        s.selected < s.results.len() <= usize::MAX,
    ensures
        ({
            let down = s.pressed(bare(KeyCode::Char('j'))).0;
            &&& down == (AppModel { preview_scroll: (s.preview_scroll + 1) as usize, ..s })
            &&& down.pressed(bare(KeyCode::Char('k'))).0 == s
            &&& s.selected + 1 < s.results.len() ==> s.pressed(bare(KeyCode::Char('n'))).0 == (
            AppModel { selected: (s.selected + 1) as usize, ..s })
            &&& s.selected > 0 ==> s.pressed(bare(KeyCode::Char('N'))).0 == (AppModel {
                selected: (s.selected - 1) as usize,
                ..s
            })
            &&& s.pressed(bare(KeyCode::Char('g'))).0.pressed(bare(KeyCode::Char('g'))).0 == (
            AppModel { preview_scroll: 0, ..s })
            &&& s.pressed(bare(KeyCode::Enter)).1 == Action::OpenEditor
            &&& s.pressed(bare(KeyCode::Char('o'))).1 == Action::OpenEditor
        }),
{
}

/// F5 in the search rebuilds the index, once at a time.
pub proof fn rebuilding_happens_once(s: AppModel)
    requires
        s.mode == Mode::Search,
        s.editing,
        s.load_state != crate::tui::app::IndexLoadState::Loading,
    ensures
        ({
            let (t, action) = s.pressed(bare(KeyCode::F(5)));
            &&& action == Action::BuildIndex
            &&& t.query == s.query
            &&& t.pressed(bare(KeyCode::F(5))).1 == Action::Nothing
        }),
{
}

proof fn lemma_end_spaces(s: Seq<char>, n: nat)
    requires
        s.len() == 0 || s.last() != ' ',
    ensures
        without_end_spaces(s + crate::tui::preview::spaces(n)) == s,
    decreases n,
{
    let t = s + crate::tui::preview::spaces(n);
    if n > 0 {
        assert(t.drop_last() =~= s + crate::tui::preview::spaces((n - 1) as nat));
        assert(t.last() == ' ');
        lemma_end_spaces(s, (n - 1) as nat);
    } else {
        assert(t =~= s);
    }
}

proof fn lemma_word_dropped(s: Seq<char>, w: Seq<char>)
    requires
        s.len() == 0 || s.last() == ' ',
        !w.contains(' '),
    ensures
        up_to_space(s + w) == s,
    decreases w.len(),
{
    let t = s + w;
    if w.len() > 0 {
        assert(t.drop_last() =~= s + w.drop_last());
        assert(t.last() == w.last());
        assert(w.contains(w.last()));
        assert(!w.drop_last().contains(' ')) by {
            if w.drop_last().contains(' ') {
                let i = choose|i: int| 0 <= i < w.len() - 1 && w.drop_last()[i] == ' ';
                assert(w[i] == ' ');
                assert(w.contains(' '));
            }
        }
        lemma_word_dropped(s, w.drop_last());
    } else {
        assert(t =~= s);
    }
}

/// `Ctrl+w` takes the last word of the query away, and the spaces behind it, and
/// leaves what stands before the word.
pub proof fn the_last_word_is_deleted(before: Seq<char>, w: Seq<char>, n: nat)
    requires
        before.len() == 0 || before.last() == ' ',
        w.len() > 0,
        !w.contains(' '),
    ensures
        without_last_word(before + w + crate::tui::preview::spaces(n)) == before,
{
    assert(w.contains(w.last()));
    assert((before + w).last() == w.last());
    lemma_end_spaces(before + w, n);
    lemma_word_dropped(before, w);
}

/// The text of pieces, one after the other.
pub open spec fn drawn(v: Seq<(UiRole, Seq<char>)>) -> Seq<char>
    decreases v.len(),
{
    if v.len() == 0 {
        Seq::empty()
    } else {
        v[0].1 + drawn(v.drop_first())
    }
}

/// A line with its match set off is the line: nothing of it is lost.
pub proof fn setting_off_loses_nothing(text: Seq<char>, start: nat, end: nat)
    ensures
        drawn(set_off(text, start, end)) == text,
{
    let a = chars_within(text, start) as int;
    let e = chars_within(text, end) as int;
    let b = if e < a {
        a
    } else {
        e
    };
    lemma_within(text, start);
    lemma_within(text, end);
    let v = set_off(text, start, end);
    let none: Seq<(UiRole, Seq<char>)> = Seq::empty();
    reveal_with_fuel(drawn, 4);
    if v.len() > 0 {
        if v.len() == 1 {
            assert(v.drop_first() =~= none);
        } else if v.len() == 2 {
            assert(v.drop_first() =~= seq![v[1]]);
            assert(seq![v[1]].drop_first() =~= none);
        } else {
            assert(v.drop_first() =~= seq![v[1], v[2]]);
            assert(seq![v[1], v[2]].drop_first() =~= seq![v[2]]);
            assert(seq![v[2]].drop_first() =~= none);
        }
    }
    assert(drawn(v) =~= text.take(a) + text.subrange(a, b) + text.skip(b));
    assert(text.take(a) + text.subrange(a, b) + text.skip(b) =~= text);
}

/// What is set off is the match.
pub proof fn the_hit_is_set_off(x: Seq<char>, y: Seq<char>, z: Seq<char>)
    requires
        y.len() > 0,
    ensures
        set_off(x + y + z, byte_len(x), byte_len(x + y)).contains((UiRole::Hit, y)),
        forall|i: int|
            0 <= i < set_off(x + y + z, byte_len(x), byte_len(x + y)).len() && (
            #[trigger] set_off(x + y + z, byte_len(x), byte_len(x + y))[i]).0 == UiRole::Hit
                ==> set_off(x + y + z, byte_len(x), byte_len(x + y))[i].1 == y,
{
    let text = x + y + z;
    let a = x.len() as int;
    let b = a + y.len();
    lemma_place(text, a);
    lemma_place(text, b);
    assert(text.take(a) =~= x);
    assert(text.take(b) =~= x + y);
    assert(text.subrange(a, b) =~= y);
    let v = set_off(text, byte_len(x), byte_len(x + y));
    let k: int = if a > 0 {
        1
    } else {
        0
    };
    assert(v[k] == (UiRole::Hit, y));
}

/// A result in the list starts with its path and the number of its line.
pub proof fn results_show_path_and_line(
    path: Seq<char>,
    line: u32,
    text: Seq<char>,
    start: usize,
    end: usize,
    width: u16,
)
    ensures
        ({
            let v = result_spans(path, line, text, start, end, width);
            &&& v.len() >= 3
            &&& v[0] == (UiRole::Path, path.push(':'))
            &&& v[1] == (UiRole::LineNumber, decimal_text(line as nat))
        }),
{
    reveal_strlit(":");
    assert(path + ":"@ =~= path.push(':'));
}

/// Characters that stand for themselves in a command line.
pub open spec fn is_bare_word(w: Seq<char>) -> bool {
    w.len() > 0 && forall|i: int|
        0 <= i < w.len() ==> !white_space(#[trigger] w[i]) && w[i] != '\'' && w[i] != '"' && w[i]
            != '\\'
}

proof fn lemma_bare_run(s: Seq<char>, n: nat, m: nat)
    requires
        n <= m <= s.len(),
        read_words(s, n).quote is None,
        !read_words(s, n).escaped,
        forall|i: int|
            n <= i < m ==> !white_space(#[trigger] s[i]) && s[i] != '\'' && s[i] != '"' && s[i]
                != '\\',
    ensures
        read_words(s, m) == (WordState {
            word: read_words(s, n).word + s.subrange(n as int, m as int),
            started: read_words(s, n).started || m > n,
            ..read_words(s, n)
        }),
    decreases m - n,
{
    if n == m {
        assert(read_words(s, n).word + s.subrange(n as int, m as int) =~= read_words(s, n).word);
    } else {
        lemma_bare_run(s, n, (m - 1) as nat);
        assert(s.subrange(n as int, m as int) =~= s.subrange(n as int, m - 1).push(s[m - 1]));
        assert((read_words(s, n).word + s.subrange(n as int, m - 1)).push(s[m - 1]) =~= read_words(
            s,
            n,
        ).word + s.subrange(n as int, m as int));
    }
}

proof fn lemma_quoted_run(s: Seq<char>, n: nat, m: nat)
    requires
        n <= m <= s.len(),
        read_words(s, n).quote == Some('\''),
        !read_words(s, n).escaped,
        forall|i: int| n <= i < m ==> #[trigger] s[i] != '\'',
    ensures
        read_words(s, m) == (WordState {
            word: read_words(s, n).word + s.subrange(n as int, m as int),
            ..read_words(s, n)
        }),
    decreases m - n,
{
    if n == m {
        assert(read_words(s, n).word + s.subrange(n as int, m as int) =~= read_words(s, n).word);
    } else {
        lemma_quoted_run(s, n, (m - 1) as nat);
        assert(s.subrange(n as int, m as int) =~= s.subrange(n as int, m - 1).push(s[m - 1]));
        assert((read_words(s, n).word + s.subrange(n as int, m - 1)).push(s[m - 1]) =~= read_words(
            s,
            n,
        ).word + s.subrange(n as int, m as int));
    }
}

/// Words of a command line stand apart by white space.
pub proof fn words_of_a_command_stand_apart(a: Seq<char>, b: Seq<char>)
    requires
        is_bare_word(a),
        is_bare_word(b),
    ensures
        command_words(a) == Ok::<Seq<Seq<char>>, Seq<char>>(seq![a]),
        command_words(a + seq![' '] + b) == Ok::<Seq<Seq<char>>, Seq<char>>(seq![a, b]),
{
    let e: Seq<char> = Seq::empty();
    let none: Seq<Seq<char>> = Seq::empty();
    lemma_bare_run(a, 0, a.len());
    assert(a.subrange(0, a.len() as int) =~= a);
    assert(e + a =~= a);
    assert(none.push(a) =~= seq![a]);
    let s = a + seq![' '] + b;
    let n = a.len();
    assert forall|i: int| 0 <= i < n implies !white_space(#[trigger] s[i]) && s[i] != '\'' && s[i]
        != '"' && s[i] != '\\' by {
        assert(s[i] == a[i]);
    }
    lemma_bare_run(s, 0, n);
    assert(s.subrange(0, n as int) =~= a);
    assert(s[n as int] == ' ');
    let t = read_words(s, n + 1);
    assert(t.words =~= seq![a]);
    assert(t.word =~= e && !t.started);
    assert forall|i: int| n + 1 <= i < s.len() implies !white_space(#[trigger] s[i]) && s[i] != '\''
        && s[i] != '"' && s[i] != '\\' by {
        assert(s[i] == b[i - n - 1]);
    }
    lemma_bare_run(s, n + 1, s.len());
    assert(s.subrange((n + 1) as int, s.len() as int) =~= b);
    assert(e + b =~= b);
    assert(seq![a].push(b) =~= seq![a, b]);
}

/// What stands in single quotes is one word, white space included.
pub proof fn quotes_keep_a_word_together(a: Seq<char>, b: Seq<char>)
    requires
        a.len() > 0,
        !a.contains('\''),
        is_bare_word(b),
    ensures
        command_words(seq!['\''] + a + seq!['\'', ' '] + b) == Ok::<Seq<Seq<char>>, Seq<char>>(
            seq![a, b],
        ),
{
    let s = seq!['\''] + a + seq!['\'', ' '] + b;
    let e: Seq<char> = Seq::empty();
    let n = a.len() + 1;
    reveal_with_fuel(read_words, 3);
    let s1 = read_words(s, 1);
    assert(s[0] == '\'');
    assert(s1.quote == Some('\'') && s1.started && s1.word == e);
    assert forall|i: int| 1 <= i < n implies #[trigger] s[i] != '\'' by {
        assert(s[i] == a[i - 1]);
        assert(a.contains(a[i - 1]));
    }
    lemma_quoted_run(s, 1, n);
    assert(s.subrange(1, n as int) =~= a);
    assert(e + a =~= a);
    assert(s[n as int] == '\'' && s[n as int + 1] == ' ');
    let s2 = read_words(s, n + 1);
    assert(s2.quote is None && s2.word == a && s2.started);
    let s3 = read_words(s, n + 2);
    assert(s3.words =~= seq![a]);
    assert(s3.word =~= e && !s3.started);
    assert forall|i: int| n + 2 <= i < s.len() implies !white_space(#[trigger] s[i]) && s[i] != '\''
        && s[i] != '"' && s[i] != '\\' by {
        assert(s[i] == b[i - n - 2]);
    }
    lemma_bare_run(s, n + 2, s.len());
    assert(s.subrange((n + 2) as int, s.len() as int) =~= b);
    assert(e + b =~= b);
    assert(seq![a].push(b) =~= seq![a, b]);
}

/// However an editor is told the line, the file is among its arguments, and an
/// editor that is not known gets the file alone.
pub proof fn editors_get_the_file(style: LineStyle, path: Seq<char>, line: u32)
    ensures
        style == LineStyle::Absent ==> place_args(style, path, line) == seq![path],
        style == LineStyle::Plus ==> place_args(style, path, line).len() == 2 && place_args(
            style,
            path,
            line,
        )[0] == seq!['+'] + decimal_text(line as nat) && place_args(style, path, line)[1] == path,
        style == LineStyle::Goto || style == LineStyle::Suffix ==> place_args(
            style,
            path,
            line,
        ).last() == path + seq![':'] + decimal_text(line as nat),
{
    reveal_strlit(":");
    reveal_strlit("+");
    assert(":"@ =~= seq![':']);
    assert("+"@ =~= seq!['+']);
}

/// What a search found is shown with the first result selected, and its number is
/// told; what it found for another query than the present one is not, nor what
/// it found before a search that waits.
pub proof fn results_are_those_of_the_query(
    s: AppModel,
    query: Seq<char>,
    found: Seq<RankedHit>,
    elapsed: Seq<char>,
)
    ensures
        ({
            let (t, action) = s.search_ended(query, Ok(found), elapsed);
            &&& !t.searching
            &&& query == s.query && !s.search_queued ==> t.results == found && t.selected == 0
                && action == Action::UpdatePreview && decimal_text(found.len()).is_prefix_of(
                t.status,
            )
            &&& query != s.query || s.search_queued ==> t.results == s.results && t.selected
                == s.selected
        }),
{
    let n = decimal_text(found.len());
    let (t, action) = s.search_ended(query, Ok(found), elapsed);
    if query == s.query && !s.search_queued {
        assert(t.status.take(n.len() as int) =~= n);
        assert(n.is_prefix_of(t.status));
    }
}

/// A search that waits starts once none is running, and only then.
pub proof fn waiting_searches_are_started(s: AppModel, done: Action)
    requires
        s.query.len() > 0,
        meaning(s.query) is Ok,
        s.using_daemon,
        s.load_state != IndexLoadState::Loading,
    ensures
        ({
            let (t, action) = s.next_queued(done);
            &&& s.search_queued && !s.searching ==> action == Action::SearchByDaemon && t.searching
                && !t.search_queued && t.query == s.query
            &&& s.searching || !s.search_queued ==> t == s && action == done
        }),
{
}

/// Once the index is loaded it can be searched, and the query that was typed
/// meanwhile is; where it cannot be loaded nothing is searched.
pub proof fn a_loaded_index_is_searched(s: AppModel, docs: u32, reason: Seq<char>)
    requires
        !s.using_daemon,
        !s.searching,
        s.query.len() > 0,
        meaning(s.query) is Ok,
        !meaning(s.query)->Ok_0.asks_nothing(),
    ensures
        ({
            let (t, action) = s.load_ended(Ok(docs), None);
            &&& t.load_state == IndexLoadState::Ready && t.index_available && t.reader_docs == Some(
                docs,
            )
            &&& action == Action::SearchDirectly && t.searching
        }),
        ({
            let (t, action) = s.load_ended(Err(reason), None);
            &&& t.load_state == IndexLoadState::Failed && t.status == reason
            &&& action == Action::Nothing && t.results == s.results
        }),
{
}

} // verus!
