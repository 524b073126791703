//! The state of the interactive search, and what keys and events do to it.
use crate::query::grammar::meaning;
use crate::query::parser::try_parse_query;
use crate::query::ranking::{ranked_hits, RankedHit, SearchMatch};
use crate::server::requests::error_text;
use crate::text::{chars_of, decimal_text, join3, number_text};
use vstd::prelude::*;

verus! {

/// What is on the screen.
#[derive(Debug, Clone, Copy, PartialEq, Eq, Structural)]
pub enum Mode {
    Search,
    Preview,
    Help,
}

/// How far the index is loaded.
#[derive(Debug, Clone, Copy, PartialEq, Eq, Structural)]
pub enum IndexLoadState {
    /// It is being loaded or built.
    Loading,
    Ready,
    /// There is none.
    NotFound,
    Failed,
}

/// Keys held down together with another.
#[derive(Debug, Clone, Copy, PartialEq, Eq, Structural)]
pub enum Modifiers {
    Bare,
    Shift,
    Control,
    Other,
}

/// A key.
#[derive(Debug, Clone, Copy, PartialEq, Eq, Structural)]
pub enum KeyCode {
    Char(char),
    Esc,
    Enter,
    Down,
    Up,
    Tab,
    BackTab,
    PageDown,
    PageUp,
    Backspace,
    F(u8),
    Other,
}

/// A key that is pressed.
#[derive(Debug, Clone, Copy, PartialEq, Eq, Structural)]
pub struct Key {
    pub modifiers: Modifiers,
    pub code: KeyCode,
}

/// What is to be done outside.
#[derive(Debug, Clone, Copy, PartialEq, Eq, Structural)]
pub enum Action {
    Nothing,
    Quit,
    /// Show the file of the selected result.
    UpdatePreview,
    /// Have the daemon search for the query.
    SearchByDaemon,
    /// Search for the query in the loaded index.
    SearchDirectly,
    /// Open the selected result in the editor.
    OpenEditor,
    /// Build the index anew.
    BuildIndex,
}

/// The state of the interactive search.
#[derive(Debug)]
pub struct App {
    pub query: String,
    pub results: Vec<SearchMatch>,
    pub selected: usize,
    pub mode: Mode,
    /// The mode to go back to from help.
    pub previous_mode: Mode,
    pub preview_scroll: usize,
    pub preview_content: Option<String>,
    pub status_message: String,
    pub index_available: bool,
    /// The first key of a command of two keys.
    pub pending_key: Option<char>,
    /// Whether the query is being edited, so that keys are text.
    pub editing: bool,
    pub load_state: IndexLoadState,
    pub searching: bool,
    /// Whether another search follows the one that is running.
    pub search_queued: bool,
    /// Whether previews read ahead are out of date.
    pub previews_stale: bool,
    pub using_daemon: bool,
    /// Number of documents of the index that is loaded here, if one is.
    pub reader_docs: Option<u32>,
}

/// The mathematical content of an [`App`].
pub struct AppModel {
    pub query: Seq<char>,
    pub results: Seq<RankedHit>,
    pub selected: usize,
    pub mode: Mode,
    pub previous_mode: Mode,
    pub preview_scroll: usize,
    pub preview: Option<Seq<char>>,
    pub status: Seq<char>,
    pub index_available: bool,
    pub pending_key: Option<char>,
    pub editing: bool,
    pub load_state: IndexLoadState,
    pub searching: bool,
    pub search_queued: bool,
    pub previews_stale: bool,
    pub using_daemon: bool,
    pub reader_docs: Option<u32>,
}

impl View for App {
    type V = AppModel;

    open spec fn view(&self) -> AppModel {
        AppModel {
            query: self.query@,
            results: ranked_hits(self.results@),
            selected: self.selected,
            mode: self.mode,
            previous_mode: self.previous_mode,
            preview_scroll: self.preview_scroll,
            preview: crate::query::ast::text_option(self.preview_content),
            status: self.status_message@,
            index_available: self.index_available,
            pending_key: self.pending_key,
            editing: self.editing,
            load_state: self.load_state,
            searching: self.searching,
            search_queued: self.search_queued,
            previews_stale: self.previews_stale,
            using_daemon: self.using_daemon,
            reader_docs: self.reader_docs,
        }
    }
}

/// What a search starts with.
#[derive(Debug)]
pub enum Startup {
    /// A daemon that answers, and the name of the root.
    Daemon(String),
    /// An index that is being loaded.
    Loading,
    /// No index.
    NotFound,
}

/// The state that a search starts in: nothing is searched for yet.
pub open spec fn started(startup: Startup) -> AppModel {
    AppModel {
        query: Seq::empty(),
        results: Seq::empty(),
        selected: 0,
        mode: Mode::Search,
        previous_mode: Mode::Search,
        preview_scroll: 0,
        preview: None,
        status: match startup {
            Startup::Daemon(root) => "Connected to daemon (root: "@ + root@ + ")"@,
            Startup::Loading => "Loading index..."@,
            Startup::NotFound => "No index found. Press F5 to build index."@,
        },
        index_available: startup is Daemon,
        pending_key: None,
        editing: true,
        load_state: match startup {
            Startup::Daemon(_) => IndexLoadState::Ready,
            Startup::Loading => IndexLoadState::Loading,
            Startup::NotFound => IndexLoadState::NotFound,
        },
        searching: false,
        search_queued: false,
        previews_stale: false,
        using_daemon: startup is Daemon,
        reader_docs: None,
    }
}

impl App {
    /// The state that a search starts in.
    pub fn new(startup: Startup) -> (r: App)
        ensures
            r@ == started(startup),
    {
        let using_daemon = matches!(startup, Startup::Daemon(_));
        let (status_message, load_state) = match &startup {
            Startup::Daemon(root) => (
                join3("Connected to daemon (root: ", root.as_str(), ")"),
                IndexLoadState::Ready,
            ),
            Startup::Loading => ("Loading index...".to_owned(), IndexLoadState::Loading),
            Startup::NotFound => (
                "No index found. Press F5 to build index.".to_owned(),
                IndexLoadState::NotFound,
            ),
        };
        let r = App {
            query: String::new(),
            results: Vec::new(),
            selected: 0,
            mode: Mode::Search,
            previous_mode: Mode::Search,
            preview_scroll: 0,
            preview_content: None,
            status_message,
            index_available: using_daemon,
            pending_key: None,
            editing: true,
            load_state,
            searching: false,
            search_queued: false,
            previews_stale: false,
            using_daemon,
            reader_docs: None,
        };
        assert(r@.query =~= Seq::<char>::empty());
        assert(r@.results =~= Seq::<RankedHit>::empty());
        r
    }
}

/// A state and what is to be done.
pub type Step = (AppModel, Action);

/// A place further on, within the range of machine sizes.
pub open spec fn forward(n: usize, by: int) -> usize {
    if n + by > usize::MAX {
        usize::MAX
    } else {
        (n + by) as usize
    }
}

/// A place further back, but not before the start.
pub open spec fn back(n: usize, by: int) -> usize {
    if n < by {
        0
    } else {
        (n - by) as usize
    }
}

impl AppModel {
    /// Selects the result `by` places further on, or the last.
    pub open spec fn selecting_on(self, by: int) -> Step {
        if self.results.len() == 0 {
            (self, Action::Nothing)
        } else if self.selected + by < self.results.len() {
            (
                AppModel { selected: (self.selected + by) as usize, ..self },
                Action::UpdatePreview,
            )
        } else {
            (
                AppModel { selected: (self.results.len() - 1) as usize, ..self },
                Action::UpdatePreview,
            )
        }
    }

    /// Selects the result before, unless the first is selected.
    pub open spec fn selecting_previous(self) -> Step {
        if self.selected == 0 {
            (self, Action::Nothing)
        } else {
            (
                AppModel { selected: (self.selected - 1) as usize, ..self },
                Action::UpdatePreview,
            )
        }
    }

    /// Selects a result a page back.
    pub open spec fn selecting_page_up(self) -> Step {
        (AppModel { selected: back(self.selected, 10), ..self }, Action::UpdatePreview)
    }

    /// Selects the first result.
    pub open spec fn selecting_first(self) -> Step {
        if self.results.len() == 0 {
            (self, Action::Nothing)
        } else {
            (AppModel { selected: 0, ..self }, Action::UpdatePreview)
        }
    }

    /// Selects the last result.
    pub open spec fn selecting_last(self) -> Step {
        if self.results.len() == 0 {
            (self, Action::Nothing)
        } else {
            (
                AppModel { selected: (self.results.len() - 1) as usize, ..self },
                Action::UpdatePreview,
            )
        }
    }

    /// Changes between search and preview.
    pub open spec fn toggling_preview(self) -> Step {
        (
            AppModel {
                mode: match self.mode {
                    Mode::Search => Mode::Preview,
                    Mode::Preview => Mode::Search,
                    Mode::Help => Mode::Help,
                },
                ..self
            },
            Action::UpdatePreview,
        )
    }

    /// Shows the help.
    pub open spec fn helped(self) -> AppModel {
        if self.mode == Mode::Help {
            self
        } else {
            AppModel { previous_mode: self.mode, mode: Mode::Help, ..self }
        }
    }

    /// Goes back from the help.
    pub open spec fn unhelped(self) -> AppModel {
        if self.mode == Mode::Help {
            AppModel { mode: self.previous_mode, ..self }
        } else {
            self
        }
    }

    /// The preview scrolled down.
    pub open spec fn scrolled_down(self, by: int) -> AppModel {
        AppModel { preview_scroll: forward(self.preview_scroll, by), ..self }
    }

    /// The preview scrolled up.
    pub open spec fn scrolled_up(self, by: int) -> AppModel {
        AppModel { preview_scroll: back(self.preview_scroll, by), ..self }
    }

    /// The query without its last character.
    pub open spec fn erased(self) -> AppModel {
        AppModel {
            query: if self.query.len() == 0 {
                self.query
            } else {
                self.query.drop_last()
            },
            editing: true,
            ..self
        }
    }

    /// The query, its results and the selection cleared.
    pub open spec fn cleared(self) -> AppModel {
        AppModel {
            query: Seq::empty(),
            results: Seq::empty(),
            selected: 0,
            editing: true,
            ..self
        }
    }

    /// The message where there is no query.
    pub open spec fn idle_message(self) -> Seq<char> {
        if !self.index_available {
            "No index. Press F5 to build."@
        } else if self.using_daemon {
            "Connected to daemon"@
        } else {
            decimal_text(
                match self.reader_docs {
                    Some(n) => n as nat,
                    None => 0,
                },
            ) + " files indexed"@
        }
    }

    /// Starts a search for the query. While one is running another is queued;
    /// while the index is loading nothing is done, as the search follows then.
    /// A query that is refused leaves the results as they are.
    pub open spec fn searched(self) -> Step {
        if self.searching {
            (
                AppModel {
                    search_queued: true,
                    status: "Waiting for current search; latest query queued..."@,
                    ..self
                },
                Action::Nothing,
            )
        } else if self.load_state == IndexLoadState::Loading {
            (self, Action::Nothing)
        } else {
            let s = AppModel { search_queued: false, previews_stale: true, ..self };
            if s.query.len() == 0 {
                (
                    AppModel { results: Seq::empty(), status: s.idle_message(), ..s },
                    Action::Nothing,
                )
            } else {
                match meaning(s.query) {
                    Err(e) => (
                        AppModel { status: "Invalid query: "@ + error_text(e), ..s },
                        Action::Nothing,
                    ),
                    Ok(q) => {
                        let t = AppModel { results: Seq::empty(), selected: 0, ..s };
                        if t.using_daemon {
                            (
                                AppModel {
                                    status: "Searching (daemon)..."@,
                                    searching: true,
                                    ..t
                                },
                                Action::SearchByDaemon,
                            )
                        } else if t.reader_docs is None {
                            (
                                AppModel { status: "No index available"@, ..t },
                                Action::Nothing,
                            )
                        } else if q.asks_nothing() {
                            (t, Action::Nothing)
                        } else {
                            (
                                AppModel { status: "Searching..."@, searching: true, ..t },
                                Action::SearchDirectly,
                            )
                        }
                    },
                }
            }
        }
    }

    /// Starts to build the index anew, unless it is being loaded or built.
    pub open spec fn reindexed(self) -> Step {
        let s = AppModel {
            status: "Building index..."@,
            previews_stale: true,
            search_queued: true,
            ..self
        };
        if s.load_state == IndexLoadState::Loading {
            (s, Action::Nothing)
        } else {
            (AppModel { load_state: IndexLoadState::Loading, ..s }, Action::BuildIndex)
        }
    }

    /// The query without its last word.
    pub open spec fn word_deleted(self) -> AppModel {
        AppModel { query: without_last_word(self.query), ..self }
    }
}

/// A text without spaces at its end.
pub open spec fn without_end_spaces(s: Seq<char>) -> Seq<char>
    decreases s.len(),
{
    if s.len() > 0 && s.last() == ' ' {
        without_end_spaces(s.drop_last())
    } else {
        s
    }
}

/// A text up to and with its last space.
pub open spec fn up_to_space(s: Seq<char>) -> Seq<char>
    decreases s.len(),
{
    if s.len() > 0 && s.last() != ' ' {
        up_to_space(s.drop_last())
    } else {
        s
    }
}

/// A text without its last word and the spaces behind it.
pub open spec fn without_last_word(s: Seq<char>) -> Seq<char> {
    up_to_space(without_end_spaces(s))
}

impl App {
    /// The step that was done.
    pub open spec fn stepped(self, action: Action) -> Step {
        (self@, action)
    }

    /// Whether the index is being loaded or built.
    pub fn is_loading(&self) -> (r: bool)
        ensures
            r == (self@.load_state == IndexLoadState::Loading),
    {
        self.load_state == IndexLoadState::Loading
    }

    /// Whether a search goes on.
    pub fn is_searching(&self) -> (r: bool)
        ensures
            r == self@.searching,
    {
        self.searching
    }

    /// Changes the query.
    pub fn set_query(&mut self, query: &str)
        ensures
            final(self)@ == (AppModel { query: query@, ..old(self)@ }),
    {
        self.query = query.to_owned();
    }

    /// Changes the query and starts a search, unless the index is being loaded:
    /// the search follows then.
    pub fn set_initial_query(&mut self, query: &str) -> (r: Action)
        ensures
            final(self).stepped(r) == ({
                let s = AppModel { query: query@, ..old(self)@ };
                if s.load_state == IndexLoadState::Loading {
                    (s, Action::Nothing)
                } else {
                    s.searched()
                }
            }),
    {
        self.set_query(query);
        if !self.is_loading() {
            self.execute_search()
        } else {
            Action::Nothing
        }
    }

    /// Clears the query, its results and the selection.
    pub fn clear_query(&mut self)
        ensures
            final(self)@ == old(self)@.cleared(),
    {
        self.query = String::new();
        self.drop_results();
        self.selected = 0;
        self.editing = true;
    }

    /// Drops the results.
    fn drop_results(&mut self)
        ensures
            final(self)@ == (AppModel { results: Seq::empty(), ..old(self)@ }),
    {
        self.results.clear();
        assert(ranked_hits(self.results@) =~= Seq::<RankedHit>::empty());
    }

    /// Starts a search for the query.
    pub fn execute_search(&mut self) -> (r: Action)
        ensures
            final(self).stepped(r) == old(self)@.searched(),
    {
        if self.searching {
            self.search_queued = true;
            self.status_message = "Waiting for current search; latest query queued...".to_owned();
            return Action::Nothing;
        }
        if self.is_loading() {
            return Action::Nothing;
        }
        self.search_queued = false;
        self.previews_stale = true;
        if self.query.as_str().is_empty() {
            self.drop_results();
            self.status_message = if self.index_available {
                if self.using_daemon {
                    "Connected to daemon".to_owned()
                } else {
                    let docs: u64 = match self.reader_docs {
                        Some(n) => n as u64,
                        None => 0,
                    };
                    let mut message = number_text(docs);
                    message.append(" files indexed");
                    message
                }
            } else {
                "No index. Press F5 to build.".to_owned()
            };
            return Action::Nothing;
        }
        let parsed = match try_parse_query(self.query.as_str()) {
            Ok(q) => q,
            Err(e) => {
                let mut message = "Invalid query: ".to_owned();
                message.append(e.to_string().as_str());
                self.status_message = message;
                return Action::Nothing;
            },
        };
        self.drop_results();
        self.selected = 0;
        if self.using_daemon {
            self.status_message = "Searching (daemon)...".to_owned();
            self.searching = true;
            return Action::SearchByDaemon;
        }
        if self.reader_docs.is_none() {
            self.status_message = "No index available".to_owned();
            return Action::Nothing;
        }
        if parsed.is_empty() {
            return Action::Nothing;
        }
        self.status_message = "Searching...".to_owned();
        self.searching = true;
        Action::SearchDirectly
    }

    fn select_on(&mut self, by: usize) -> (r: Action)
        ensures
            final(self).stepped(r) == old(self)@.selecting_on(by as int),
    {
        assert(self@.results.len() == self.results@.len());
        let n = self.results.len();
        if n == 0 {
            return Action::Nothing;
        }
        let next = self.selected.saturating_add(by);
        self.selected = if next < n - 1 {
            next
        } else {
            n - 1
        };
        Action::UpdatePreview
    }

    /// Selects the next result.
    pub fn select_next(&mut self) -> (r: Action)
        ensures
            final(self).stepped(r) == old(self)@.selecting_on(1),
    {
        self.select_on(1)
    }

    /// Selects the result before.
    pub fn select_prev(&mut self) -> (r: Action)
        ensures
            final(self).stepped(r) == old(self)@.selecting_previous(),
    {
        if self.selected > 0 {
            self.selected -= 1;
            Action::UpdatePreview
        } else {
            Action::Nothing
        }
    }

    /// Selects a result a page on.
    pub fn select_page_down(&mut self) -> (r: Action)
        ensures
            final(self).stepped(r) == old(self)@.selecting_on(10),
    {
        self.select_on(10)
    }

    /// Selects a result a page back.
    pub fn select_page_up(&mut self) -> (r: Action)
        ensures
            final(self).stepped(r) == old(self)@.selecting_page_up(),
    {
        self.selected = self.selected.saturating_sub(10);
        Action::UpdatePreview
    }

    /// Selects the first result.
    pub fn select_first(&mut self) -> (r: Action)
        ensures
            final(self).stepped(r) == old(self)@.selecting_first(),
    {
        assert(self@.results.len() == self.results@.len());
        if self.results.len() > 0 {
            self.selected = 0;
            Action::UpdatePreview
        } else {
            Action::Nothing
        }
    }

    /// Selects the last result.
    pub fn select_last(&mut self) -> (r: Action)
        ensures
            final(self).stepped(r) == old(self)@.selecting_last(),
    {
        assert(self@.results.len() == self.results@.len());
        if self.results.len() > 0 {
            self.selected = self.results.len() - 1;
            Action::UpdatePreview
        } else {
            Action::Nothing
        }
    }

    /// Switches between search and preview.
    pub fn toggle_preview(&mut self) -> (r: Action)
        ensures
            final(self).stepped(r) == old(self)@.toggling_preview(),
    {
        self.mode = match self.mode {
            Mode::Search => Mode::Preview,
            Mode::Preview => Mode::Search,
            Mode::Help => Mode::Help,
        };
        Action::UpdatePreview
    }

    /// Shows the help.
    pub fn show_help(&mut self)
        ensures
            final(self)@ == old(self)@.helped(),
    {
        if self.mode != Mode::Help {
            self.previous_mode = self.mode;
            self.mode = Mode::Help;
        }
    }

    /// Goes back to where the help was asked for.
    pub fn hide_help(&mut self)
        ensures
            final(self)@ == old(self)@.unhelped(),
    {
        if self.mode == Mode::Help {
            self.mode = self.previous_mode;
        }
    }

    fn scroll_down(&mut self, by: usize)
        ensures
            final(self)@ == old(self)@.scrolled_down(by as int),
    {
        self.preview_scroll = self.preview_scroll.saturating_add(by);
    }

    fn scroll_up(&mut self, by: usize)
        ensures
            final(self)@ == old(self)@.scrolled_up(by as int),
    {
        self.preview_scroll = self.preview_scroll.saturating_sub(by);
    }

    /// Scrolls the preview a line down.
    pub fn scroll_preview_down(&mut self)
        ensures
            final(self)@ == old(self)@.scrolled_down(1),
    {
        self.scroll_down(1)
    }

    /// Scrolls the preview a line up.
    pub fn scroll_preview_up(&mut self)
        ensures
            final(self)@ == old(self)@.scrolled_up(1),
    {
        self.scroll_up(1)
    }

    /// Scrolls the preview a page down.
    pub fn scroll_preview_page_down(&mut self)
        ensures
            final(self)@ == old(self)@.scrolled_down(20),
    {
        self.scroll_down(20)
    }

    /// Scrolls the preview a page up.
    pub fn scroll_preview_page_up(&mut self)
        ensures
            final(self)@ == old(self)@.scrolled_up(20),
    {
        self.scroll_up(20)
    }

    /// Scrolls the preview half a page down.
    pub fn scroll_preview_half_page_down(&mut self)
        ensures
            final(self)@ == old(self)@.scrolled_down(10),
    {
        self.scroll_down(10)
    }

    /// Scrolls the preview half a page up.
    pub fn scroll_preview_half_page_up(&mut self)
        ensures
            final(self)@ == old(self)@.scrolled_up(10),
    {
        self.scroll_up(10)
    }

    /// Scrolls to the start of the preview.
    pub fn scroll_preview_to_top(&mut self)
        ensures
            final(self)@ == (AppModel { preview_scroll: 0, ..old(self)@ }),
    {
        self.preview_scroll = 0;
    }

    /// Scrolls so that the last lines are shown.
    pub fn scroll_preview_to_bottom(&mut self)
        ensures
            final(self)@ == (AppModel {
                preview_scroll: bottom_scroll(old(self)@),
                ..old(self)@
            }),
    {
        match &self.preview_content {
            Some(content) => {
                let v = crate::query::lines::lines_of(content.as_str());
                assert(crate::query::ast::texts(v@).len() == v@.len());
                self.preview_scroll = v.len().saturating_sub(20);
            },
            None => {},
        }
    }

    /// Deletes the last word of the query.
    pub fn delete_word(&mut self)
        ensures
            final(self)@ == old(self)@.word_deleted(),
    {
        let mut chars = chars_of(self.query.as_str());
        let ghost start = chars@;
        while chars.len() > 0 && chars[chars.len() - 1] == ' '
            invariant
                without_end_spaces(start) == without_end_spaces(chars@),
            decreases chars@.len(),
        {
            assert(chars@.drop_last() =~= chars@.take(chars@.len() - 1));
            chars.pop();
        }
        assert(without_end_spaces(start) == chars@);
        while chars.len() > 0 && chars[chars.len() - 1] != ' '
            invariant
                without_last_word(start) == up_to_space(chars@),
            decreases chars@.len(),
        {
            chars.pop();
        }
        self.query = crate::text::text_of(&chars);
    }

    /// Forgets the first key of a pair.
    pub fn clear_pending_key(&mut self)
        ensures
            final(self)@ == (AppModel { pending_key: None, ..old(self)@ }),
    {
        self.pending_key = None;
    }

    /// The selected result.
    pub fn get_selected_result(&self) -> (r: Option<&SearchMatch>)
        ensures
            match r {
                Some(m) => self.selected < self.results@.len() && *m
                    == self.results@[self.selected as int],
                None => self.selected >= self.results@.len(),
            },
    {
        if self.selected < self.results.len() {
            Some(&self.results[self.selected])
        } else {
            None
        }
    }

    /// Starts to build the index anew.
    pub fn reindex(&mut self) -> (r: Action)
        ensures
            final(self).stepped(r) == old(self)@.reindexed(),
    {
        self.status_message = "Building index...".to_owned();
        self.previews_stale = true;
        self.search_queued = true;
        if self.is_loading() {
            return Action::Nothing;
        }
        self.load_state = IndexLoadState::Loading;
        Action::BuildIndex
    }
}

/// Where the preview is scrolled to so that the last lines are shown.
pub open spec fn bottom_scroll(s: AppModel) -> usize {
    match s.preview {
        Some(t) => {
            let n = crate::query::lines::lines(t).len();
            if n < 20 {
                0
            } else {
                (n - 20) as usize
            }
        },
        None => s.preview_scroll,
    }
}

} // verus!
