//! What keys and the ends of searches and loads do.
use crate::query::ranking::{ranked_hits, RankedHit, SearchMatch};
use crate::text::{decimal_text, number_text};
use crate::tui::app::{
    bottom_scroll, Action, App, AppModel, IndexLoadState, Key, KeyCode, Mode, Modifiers, Step,
};
use vstd::prelude::*;

verus! {

/// Whether a key is a character with the control key held down.
pub open spec fn control(key: Key, c: char) -> bool {
    key.modifiers == Modifiers::Control && key.code == KeyCode::Char(c)
}

/// Whether a key is pressed alone or with shift.
pub open spec fn unmodified(key: Key) -> bool {
    key.modifiers == Modifiers::Bare || key.modifiers == Modifiers::Shift
}

impl AppModel {
    /// What a key with the control key does while searching. Keys that move the
    /// selection do nothing while the query is edited.
    pub open spec fn control_in_search(self, c: char) -> Step {
        if !self.editing && (c == 'j' || c == 'n') {
            self.selecting_on(1)
        } else if !self.editing && c == 'k' {
            self.selecting_previous()
        } else if !self.editing && c == 'd' {
            self.selecting_on(10)
        } else if !self.editing && c == 'u' {
            self.selecting_page_up()
        } else if c == 'w' {
            (AppModel { editing: true, ..self.word_deleted() }, Action::Nothing)
        } else if c == 'h' {
            (self.erased(), Action::Nothing)
        } else if !self.editing && c == 'a' {
            self.selecting_first()
        } else if !self.editing && c == 'e' {
            self.selecting_last()
        } else if c == 'p' {
            self.toggling_preview()
        } else {
            (self, Action::Nothing)
        }
    }

    /// What a key alone does while searching.
    pub open spec fn plain_in_search(self, code: KeyCode) -> Step {
        match code {
            KeyCode::Esc => if self.query.len() == 0 {
                (self, Action::Quit)
            } else {
                (self.cleared(), Action::Nothing)
            },
            KeyCode::Enter => {
                let (s, action) = self.searched();
                (AppModel { editing: false, ..s }, action)
            },
            KeyCode::Down | KeyCode::Tab => self.selecting_on(1),
            KeyCode::Up | KeyCode::BackTab => self.selecting_previous(),
            KeyCode::PageDown => self.selecting_on(10),
            KeyCode::PageUp => self.selecting_page_up(),
            KeyCode::Char(c) => if !self.editing && c == 'g' {
                (AppModel { pending_key: Some('g'), ..self }, Action::Nothing)
            } else if !self.editing && c == 'G' {
                self.selecting_last()
            } else if !self.editing && c == '?' {
                (self.helped(), Action::Nothing)
            } else {
                (AppModel { query: self.query.push(c), editing: true, ..self }, Action::Nothing)
            },
            KeyCode::Backspace => (self.erased(), Action::Nothing),
            KeyCode::F(n) => if n == 1 {
                (self.helped(), Action::Nothing)
            } else if n == 5 {
                self.reindexed()
            } else {
                (self, Action::Nothing)
            },
            KeyCode::Other => (self, Action::Nothing),
        }
    }

    /// What a key does while searching, a started command aside.
    pub open spec fn key_in_search(self, key: Key) -> Step {
        if unmodified(key) {
            self.plain_in_search(key.code)
        } else if key.modifiers == Modifiers::Control && key.code is Char {
            self.control_in_search(key.code->Char_0)
        } else {
            (self, Action::Nothing)
        }
    }

    /// What a key with the control key does in the preview.
    pub open spec fn control_in_preview(self, c: char) -> Step {
        if c == 'd' {
            (self.scrolled_down(10), Action::Nothing)
        } else if c == 'u' {
            (self.scrolled_up(10), Action::Nothing)
        } else if c == 'f' {
            (self.scrolled_down(20), Action::Nothing)
        } else if c == 'b' {
            (self.scrolled_up(20), Action::Nothing)
        } else if c == 'p' {
            self.toggling_preview()
        } else {
            (self, Action::Nothing)
        }
    }

    /// Opens the selected result, if there is one.
    pub open spec fn opening(self) -> Step {
        if self.selected < self.results.len() {
            (self, Action::OpenEditor)
        } else {
            (self, Action::Nothing)
        }
    }

    /// What a key alone does in the preview.
    pub open spec fn plain_in_preview(self, code: KeyCode) -> Step {
        match code {
            KeyCode::Esc => (AppModel { mode: Mode::Search, ..self }, Action::Nothing),
            KeyCode::Down => (self.scrolled_down(1), Action::Nothing),
            KeyCode::Up => (self.scrolled_up(1), Action::Nothing),
            KeyCode::PageDown => (self.scrolled_down(20), Action::Nothing),
            KeyCode::PageUp => (self.scrolled_up(20), Action::Nothing),
            KeyCode::Enter => self.opening(),
            KeyCode::F(n) => if n == 1 {
                (self.helped(), Action::Nothing)
            } else {
                (self, Action::Nothing)
            },
            KeyCode::Char(c) => if c == 'q' {
                (AppModel { mode: Mode::Search, ..self }, Action::Nothing)
            } else if c == 'j' {
                (self.scrolled_down(1), Action::Nothing)
            } else if c == 'k' {
                (self.scrolled_up(1), Action::Nothing)
            } else if c == 'o' {
                self.opening()
            } else if c == 'g' {
                (AppModel { pending_key: Some('g'), ..self }, Action::Nothing)
            } else if c == 'G' {
                (AppModel { preview_scroll: bottom_scroll(self), ..self }, Action::Nothing)
            } else if c == 'n' {
                self.selecting_on(1)
            } else if c == 'N' || c == 'p' {
                self.selecting_previous()
            } else if c == '?' {
                (self.helped(), Action::Nothing)
            } else {
                (self, Action::Nothing)
            },
            _ => (self, Action::Nothing),
        }
    }

    /// What a key does in the preview, a started command aside.
    pub open spec fn key_in_preview(self, key: Key) -> Step {
        if unmodified(key) {
            self.plain_in_preview(key.code)
        } else if key.modifiers == Modifiers::Control && key.code is Char {
            self.control_in_preview(key.code->Char_0)
        } else {
            (self, Action::Nothing)
        }
    }

    /// What a key does.
    pub open spec fn pressed(self, key: Key) -> Step {
        if control(key, 'c') || control(key, 'q') {
            (self, Action::Quit)
        } else {
            match self.mode {
                Mode::Help => (self.unhelped(), Action::Nothing),
                Mode::Search => if !self.editing && self.pending_key == Some('g') {
                    let s = AppModel { pending_key: None, ..self };
                    if key.code == KeyCode::Char('g') {
                        s.selecting_first()
                    } else {
                        s.key_in_search(key)
                    }
                } else {
                    self.key_in_search(key)
                },
                Mode::Preview => if self.pending_key == Some('g') {
                    let s = AppModel { pending_key: None, ..self };
                    if key.code == KeyCode::Char('g') {
                        (AppModel { preview_scroll: 0, ..s }, Action::Nothing)
                    } else {
                        s.key_in_preview(key)
                    }
                } else {
                    self.key_in_preview(key)
                },
            }
        }
    }

    /// The state after a search has ended, before one that is queued: results
    /// of another query than the present one are dropped.
    pub open spec fn search_ended(
        self,
        query: Seq<char>,
        outcome: Result<Seq<RankedHit>, Seq<char>>,
        elapsed: Seq<char>,
    ) -> Step {
        let s = AppModel { searching: false, ..self };
        if query == s.query && !s.search_queued {
            match outcome {
                Ok(v) => (
                    AppModel {
                        status: decimal_text(v.len()) + " matches ("@ + elapsed + "ms)"@,
                        results: v,
                        selected: 0,
                        ..s
                    },
                    Action::UpdatePreview,
                ),
                Err(e) => (
                    AppModel { status: "Error: "@ + e, results: Seq::empty(), ..s },
                    Action::Nothing,
                ),
            }
        } else {
            (s, Action::Nothing)
        }
    }

    /// Starts the search that is queued, once none is running.
    pub open spec fn next_queued(self, done: Action) -> Step {
        if !self.searching && self.search_queued {
            (AppModel { search_queued: false, ..self }).searched()
        } else {
            (self, done)
        }
    }

    /// The state after the index has been loaded, or could not be.
    pub open spec fn load_ended(
        self,
        outcome: Result<u32, Seq<char>>,
        root_name: Option<Seq<char>>,
    ) -> Step {
        match outcome {
            Ok(docs) => {
                let counted = decimal_text(docs as nat) + " files indexed"@;
                let s = AppModel {
                    reader_docs: Some(docs),
                    index_available: true,
                    status: match root_name {
                        Some(name) => counted + " (root: "@ + name + ")"@,
                        None => counted,
                    },
                    load_state: IndexLoadState::Ready,
                    ..self
                };
                if s.query.len() > 0 {
                    s.searched()
                } else {
                    (s, Action::Nothing)
                }
            },
            Err(e) => (
                AppModel { status: e, load_state: IndexLoadState::Failed, ..self },
                Action::Nothing,
            ),
        }
    }
}

impl App {
    fn erase(&mut self)
        ensures
            final(self)@ == old(self)@.erased(),
    {
        self.query.pop();
        self.editing = true;
    }

    fn search_control(&mut self, c: char) -> (r: Action)
        ensures
            final(self).stepped(r) == old(self)@.control_in_search(c),
    {
        if !self.editing && (c == 'j' || c == 'n') {
            self.select_next()
        } else if !self.editing && c == 'k' {
            self.select_prev()
        } else if !self.editing && c == 'd' {
            self.select_page_down()
        } else if !self.editing && c == 'u' {
            self.select_page_up()
        } else if c == 'w' {
            self.delete_word();
            self.editing = true;
            Action::Nothing
        } else if c == 'h' {
            self.erase();
            Action::Nothing
        } else if !self.editing && c == 'a' {
            self.select_first()
        } else if !self.editing && c == 'e' {
            self.select_last()
        } else if c == 'p' {
            self.toggle_preview()
        } else {
            Action::Nothing
        }
    }

    fn search_plain(&mut self, code: KeyCode) -> (r: Action)
        ensures
            final(self).stepped(r) == old(self)@.plain_in_search(code),
    {
        match code {
            KeyCode::Esc => {
                if self.query.as_str().is_empty() {
                    return Action::Quit;
                }
                self.clear_query();
                Action::Nothing
            },
            KeyCode::Enter => {
                let action = self.execute_search();
                self.editing = false;
                action
            },
            KeyCode::Down | KeyCode::Tab => self.select_next(),
            KeyCode::Up | KeyCode::BackTab => self.select_prev(),
            KeyCode::PageDown => self.select_page_down(),
            KeyCode::PageUp => self.select_page_up(),
            KeyCode::Char(c) => {
                if !self.editing && c == 'g' {
                    self.pending_key = Some('g');
                    Action::Nothing
                } else if !self.editing && c == 'G' {
                    self.select_last()
                } else if !self.editing && c == '?' {
                    self.show_help();
                    Action::Nothing
                } else {
                    self.query.push(c);
                    self.editing = true;
                    Action::Nothing
                }
            },
            KeyCode::Backspace => {
                self.erase();
                Action::Nothing
            },
            KeyCode::F(n) => {
                if n == 1 {
                    self.show_help();
                    Action::Nothing
                } else if n == 5 {
                    self.reindex()
                } else {
                    Action::Nothing
                }
            },
            KeyCode::Other => Action::Nothing,
        }
    }

    fn search_key(&mut self, key: Key) -> (r: Action)
        ensures
            final(self).stepped(r) == old(self)@.key_in_search(key),
    {
        match key.modifiers {
            Modifiers::Bare | Modifiers::Shift => self.search_plain(key.code),
            Modifiers::Control => match key.code {
                KeyCode::Char(c) => self.search_control(c),
                _ => Action::Nothing,
            },
            Modifiers::Other => Action::Nothing,
        }
    }

    fn preview_control(&mut self, c: char) -> (r: Action)
        ensures
            final(self).stepped(r) == old(self)@.control_in_preview(c),
    {
        if c == 'd' {
            self.scroll_preview_half_page_down();
            Action::Nothing
        } else if c == 'u' {
            self.scroll_preview_half_page_up();
            Action::Nothing
        } else if c == 'f' {
            self.scroll_preview_page_down();
            Action::Nothing
        } else if c == 'b' {
            self.scroll_preview_page_up();
            Action::Nothing
        } else if c == 'p' {
            self.toggle_preview()
        } else {
            Action::Nothing
        }
    }

    /// Opens the selected result, if there is one.
    pub fn open_selected(&self) -> (r: Action)
        ensures
            self.stepped(r) == self@.opening(),
    {
        assert(self@.results.len() == self.results@.len());
        if self.selected < self.results.len() {
            Action::OpenEditor
        } else {
            Action::Nothing
        }
    }

    fn preview_char(&mut self, c: char) -> (r: Action)
        ensures
            final(self).stepped(r) == old(self)@.plain_in_preview(KeyCode::Char(c)),
    {
        if c == 'q' {
            self.mode = Mode::Search;
            Action::Nothing
        } else if c == 'j' {
            self.scroll_preview_down();
            Action::Nothing
        } else if c == 'k' {
            self.scroll_preview_up();
            Action::Nothing
        } else if c == 'o' {
            self.open_selected()
        } else if c == 'g' {
            self.pending_key = Some('g');
            Action::Nothing
        } else if c == 'G' {
            self.scroll_preview_to_bottom();
            Action::Nothing
        } else if c == 'n' {
            self.select_next()
        } else if c == 'N' || c == 'p' {
            self.select_prev()
        } else if c == '?' {
            self.show_help();
            Action::Nothing
        } else {
            Action::Nothing
        }
    }

    fn preview_plain(&mut self, code: KeyCode) -> (r: Action)
        ensures
            final(self).stepped(r) == old(self)@.plain_in_preview(code),
    {
        match code {
            KeyCode::Esc => {
                self.mode = Mode::Search;
                Action::Nothing
            },
            KeyCode::Down => {
                self.scroll_preview_down();
                Action::Nothing
            },
            KeyCode::Up => {
                self.scroll_preview_up();
                Action::Nothing
            },
            KeyCode::PageDown => {
                self.scroll_preview_page_down();
                Action::Nothing
            },
            KeyCode::PageUp => {
                self.scroll_preview_page_up();
                Action::Nothing
            },
            KeyCode::Enter => self.open_selected(),
            KeyCode::F(n) => {
                if n == 1 {
                    self.show_help();
                }
                Action::Nothing
            },
            KeyCode::Char(c) => self.preview_char(c),
            _ => Action::Nothing,
        }
    }

    fn preview_key(&mut self, key: Key) -> (r: Action)
        ensures
            final(self).stepped(r) == old(self)@.key_in_preview(key),
    {
        match key.modifiers {
            Modifiers::Bare | Modifiers::Shift => self.preview_plain(key.code),
            Modifiers::Control => match key.code {
                KeyCode::Char(c) => self.preview_control(c),
                _ => Action::Nothing,
            },
            Modifiers::Other => Action::Nothing,
        }
    }

    /// Handles a key that is pressed.
    pub fn handle_key(&mut self, key: Key) -> (r: Action)
        ensures
            final(self).stepped(r) == old(self)@.pressed(key),
    {
        if key.modifiers == Modifiers::Control && (key.code == KeyCode::Char('c') || key.code
            == KeyCode::Char('q')) {
            return Action::Quit;
        }
        let starts_over = self.pending_key == Some('g');
        match self.mode {
            Mode::Help => {
                self.hide_help();
                Action::Nothing
            },
            Mode::Search => {
                if !self.editing && starts_over {
                    self.clear_pending_key();
                    if key.code == KeyCode::Char('g') {
                        return self.select_first();
                    }
                }
                self.search_key(key)
            },
            Mode::Preview => {
                if starts_over {
                    self.clear_pending_key();
                    if key.code == KeyCode::Char('g') {
                        self.scroll_preview_to_top();
                        return Action::Nothing;
                    }
                }
                self.preview_key(key)
            },
        }
    }

    /// Starts the search that is queued, once none is running.
    fn run_queued(&mut self, done: Action) -> (r: Action)
        ensures
            final(self).stepped(r) == old(self)@.next_queued(done),
    {
        if !self.searching && self.search_queued {
            self.search_queued = false;
            self.execute_search()
        } else {
            done
        }
    }

    /// Takes in the end of a search.
    pub fn finish_search(
        &mut self,
        query: String,
        outcome: Result<Vec<SearchMatch>, String>,
        elapsed_ms: &str,
    ) -> (r: Action)
        ensures
            final(self).stepped(r) == ({
                let (s, done) = old(self)@.search_ended(
                    query@,
                    match outcome {
                        Ok(v) => Ok(ranked_hits(v@)),
                        Err(e) => Err(e@),
                    },
                    elapsed_ms@,
                );
                s.next_queued(done)
            }),
    {
        self.searching = false;
        let mut done = Action::Nothing;
        if query == self.query && !self.search_queued {
            match outcome {
                Ok(v) => {
                    assert(ranked_hits(v@).len() == v@.len());
                    let mut message = number_text(v.len() as u64);
                    message.append(" matches (");
                    message.append(elapsed_ms);
                    message.append("ms)");
                    self.status_message = message;
                    self.results = v;
                    self.selected = 0;
                    done = Action::UpdatePreview;
                },
                Err(e) => {
                    let mut message = "Error: ".to_owned();
                    message.append(e.as_str());
                    self.status_message = message;
                    self.results.clear();
                    assert(ranked_hits(self.results@) =~= Seq::<RankedHit>::empty());
                },
            }
        }
        self.run_queued(done)
    }

    /// Takes in that a search ended without an answer.
    pub fn lose_search(&mut self) -> (r: Action)
        ensures
            final(self).stepped(r) == (AppModel {
                searching: false,
                status: "Search thread terminated unexpectedly"@,
                ..old(self)@
            }).next_queued(Action::Nothing),
    {
        self.searching = false;
        self.status_message = "Search thread terminated unexpectedly".to_owned();
        self.run_queued(Action::Nothing)
    }

    /// Takes in that the index has been loaded, with the number of its
    /// documents, or why it could not be. The name of the root is shown where
    /// the search was started elsewhere.
    pub fn finish_load(&mut self, outcome: Result<u32, String>, root_name: Option<String>) -> (r:
        Action)
        ensures
            final(self).stepped(r) == old(self)@.load_ended(
                match outcome {
                    Ok(n) => Ok(n),
                    Err(e) => Err("Index load failed: "@ + e@),
                },
                crate::query::ast::text_option(root_name),
            ),
    {
        match outcome {
            Ok(docs) => {
                let mut message = number_text(docs as u64);
                message.append(" files indexed");
                match root_name {
                    Some(name) => {
                        message.append(" (root: ");
                        message.append(name.as_str());
                        message.append(")");
                    },
                    None => {},
                }
                self.reader_docs = Some(docs);
                self.index_available = true;
                self.status_message = message;
                self.load_state = IndexLoadState::Ready;
                if !self.query.as_str().is_empty() {
                    self.execute_search()
                } else {
                    Action::Nothing
                }
            },
            Err(e) => {
                let mut message = "Index load failed: ".to_owned();
                message.append(e.as_str());
                self.status_message = message;
                self.load_state = IndexLoadState::Failed;
                Action::Nothing
            },
        }
    }

    /// Takes in that the index was not loaded, without a reason.
    pub fn lose_load(&mut self)
        ensures
            final(self)@ == (AppModel {
                status: "Index load thread terminated unexpectedly"@,
                load_state: IndexLoadState::Failed,
                ..old(self)@
            }),
    {
        self.status_message = "Index load thread terminated unexpectedly".to_owned();
        self.load_state = IndexLoadState::Failed;
    }
}

/// Submissions while a search is running coalesce: the running search goes on,
/// and any number of them leave one search for the latest query.
pub proof fn submissions_coalesce(s: AppModel, other: Seq<char>)
    requires
        s.searching,
    ensures
        s.searched().1 == Action::Nothing,
        s.searched().0.searching && s.searched().0.search_queued,
        (AppModel { query: other, ..s.searched().0 }).searched().0 == (AppModel {
            query: other,
            ..s.searched().0
        }),
{
}

/// Results of an earlier query never replace those of a later one: where the
/// query has changed since, or another search is queued, they are dropped.
pub proof fn stale_results_are_dropped(
    s: AppModel,
    query: Seq<char>,
    outcome: Result<Seq<RankedHit>, Seq<char>>,
    elapsed: Seq<char>,
)
    requires
        query != s.query || s.search_queued,
    ensures
        s.search_ended(query, outcome, elapsed).0.results == s.results,
        s.search_ended(query, outcome, elapsed).0.status == s.status,
{
}

/// A query that is refused leaves the results that are shown.
pub proof fn refused_query_keeps_results(s: AppModel)
    requires
        !s.searching,
        s.query.len() > 0,
        crate::query::grammar::meaning(s.query) is Err,
    ensures
        s.searched().0.results == s.results,
        !s.searched().0.searching,
{
}

/// Help is left by any key, and leads back to where it was shown.
pub proof fn help_leads_back(s: AppModel, key: Key)
    requires
        s.mode != Mode::Help,
        !control(key, 'c'),
        !control(key, 'q'),
    ensures
        s.helped().pressed(key).0.mode == s.mode,
{
}

} // verus!
