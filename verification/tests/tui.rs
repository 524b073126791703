//! The interactive search.
use fxi::query::ranking::SearchMatch;
use fxi::tui::app::{Action, App, IndexLoadState, Key, KeyCode, Mode, Modifiers, Startup};
use fxi::tui::highlighter::{
    clean_lines, clean_text, take_lines, StyledText, SyntaxHighlighter, TextStyle,
    MAX_HIGHLIGHT_LINES, PLAIN_TEXT, THEME,
};
use fxi::tui::preview::{editor_command, expand_tabs, nearby, preview_text, PREVIEW_LIMIT};
use fxi::tui::ui::{
    cut_text, draw_preview, draw_result, draw_results_list, draw_status_bar, effective_mode,
    fit_spans, help_area, highlight_match, preview_colors, Area, PreviewBody, PreviewPanel,
    StatusKind, UiRole, UiSpan,
};

fn app() -> App {
    let mut app = App::new(Startup::NotFound);
    app.status_message = String::new();
    app.load_state = IndexLoadState::Ready;
    app
}

/// A piece of text in a shade of red.
fn piece(red: u8, text: &str) -> StyledText {
    let style =
        TextStyle { red, green: 0, blue: 0, bold: false, italic: false, underline: false };
    StyledText { style, text: text.to_string() }
}

fn result(path: &str, line_number: u32) -> SearchMatch {
    SearchMatch { doc_id: 1, path: path.to_string(), line_number, score: 1 }
}

fn bare(code: KeyCode) -> Key {
    Key { modifiers: Modifiers::Bare, code }
}

fn control(c: char) -> Key {
    Key { modifiers: Modifiers::Control, code: KeyCode::Char(c) }
}

#[test]
fn initial_query_runs_when_ready_and_waits_for_loading() {
    let mut ready = app();
    ready.set_initial_query("needle");
    assert_eq!(ready.status_message, "No index available");
    let mut loading = app();
    loading.load_state = IndexLoadState::Loading;
    loading.set_initial_query("needle");
    assert!(loading.status_message.is_empty());
    assert_eq!(loading.query, "needle");
}

#[test]
fn repeated_submissions_coalesce_without_replacing_running_receiver() {
    let mut app = app();
    app.searching = true;
    for query in ["one", "two", "latest"] {
        app.set_query(query);
        app.execute_search();
        assert!(app.is_searching());
    }
    assert!(app.search_queued);
    app.finish_search("old".to_string(), Ok(Vec::new()), "1.0");
    assert!(!app.is_searching());
    assert!(!app.search_queued);
    assert_eq!(app.query, "latest");
    assert_eq!(app.status_message, "No index available");
}

#[test]
fn invalid_query_keeps_previous_results_and_reports_error() {
    let mut app = app();
    app.results.push(result("old.rs", 1));
    app.set_query("\"unterminated");
    app.execute_search();
    assert_eq!(app.results.len(), 1);
    assert!(app.status_message.starts_with("Invalid query:"));
    assert!(!app.is_searching());
}

#[test]
fn editor_arguments_are_parsed_without_shell_execution() {
    let path = "/tmp/a b.rs";
    let command = editor_command("code --wait", path, 12).unwrap();
    assert_eq!(command.program, "code");
    assert_eq!(command.args, ["--wait", "--goto", "/tmp/a b.rs:12"]);
    let command = editor_command("'/path with spaces/vim' -f", path, 12).unwrap();
    assert_eq!(command.program, "/path with spaces/vim");
    assert_eq!(command.args, ["-f", "+12", "/tmp/a b.rs"]);
    let command = editor_command("editor '$(touch malicious)'", path, 1).unwrap();
    assert_eq!(command.args[0], "$(touch malicious)");
    let command =
        editor_command(r#""C:\Program Files\Editor\editor.exe" --wait"#, path, 1).unwrap();
    assert_eq!(command.program, r"C:\Program Files\Editor\editor.exe");
    assert!(editor_command("'unclosed", path, 1).is_err());
    assert!(editor_command("", path, 1).is_err());
}

#[test]
fn preview_is_bounded_and_handles_split_utf8() {
    let mut text = "x".repeat(1024 * 1024 - 1);
    text.push_str("é remaining text");
    let start = text.as_bytes()[..PREVIEW_LIMIT].to_vec();
    let preview = preview_text(start).unwrap();
    assert_eq!(preview.len(), 1024 * 1024 - 1);
    assert!(preview_text(vec![0xff, 0xfe]).is_none());
    assert!(preview_text(vec![0xc3]).is_none());
}

#[test]
fn tabs_reach_to_the_next_stop() {
    assert_eq!(expand_tabs("\ta\tbc"), "    a   bc");
    assert_eq!(expand_tabs("plain"), "plain");
}

#[test]
fn a_search_ends_in_results_and_a_preview() {
    let mut app = app();
    app.using_daemon = true;
    app.index_available = true;
    app.set_query("needle");
    assert!(matches!(app.execute_search(), Action::SearchByDaemon));
    assert!(app.is_searching());
    let action =
        app.finish_search("needle".to_string(), Ok(vec![result("a.rs", 3), result("b.rs", 4)]), "2.5");
    assert!(matches!(action, Action::UpdatePreview));
    assert_eq!(app.status_message, "2 matches (2.5ms)");
    assert_eq!(app.get_selected_result().unwrap().path, "a.rs");
    app.select_next();
    assert_eq!(app.selected, 1);
    app.select_next();
    assert_eq!(app.selected, 1);
    app.select_first();
    assert_eq!(app.selected, 0);
}

#[test]
fn keys_edit_the_query_and_leave() {
    let mut app = app();
    for c in "fn main".chars() {
        app.handle_key(bare(KeyCode::Char(c)));
    }
    assert_eq!(app.query, "fn main");
    app.handle_key(control('w'));
    assert_eq!(app.query, "fn ");
    app.handle_key(bare(KeyCode::Backspace));
    assert_eq!(app.query, "fn");
    assert!(matches!(app.handle_key(bare(KeyCode::Esc)), Action::Nothing));
    assert_eq!(app.query, "");
    assert!(matches!(app.handle_key(bare(KeyCode::Esc)), Action::Quit));
    assert!(matches!(app.handle_key(control('c')), Action::Quit));
}

#[test]
fn help_goes_back_to_where_it_came_from() {
    let mut app = app();
    app.handle_key(bare(KeyCode::F(1)));
    assert!(app.mode == Mode::Help);
    assert!(effective_mode(app.mode, app.previous_mode) == Mode::Search);
    app.handle_key(bare(KeyCode::Esc));
    assert!(app.mode == Mode::Search);
}

#[test]
fn a_loaded_index_is_announced() {
    let mut app = app();
    app.load_state = IndexLoadState::Loading;
    assert!(matches!(app.finish_load(Ok(7), Some("project".to_string())), Action::Nothing));
    assert_eq!(app.status_message, "7 files indexed (root: project)");
    assert!(app.index_available);
    app.finish_load(Err("damaged".to_string()), None);
    assert_eq!(app.status_message, "Index load failed: damaged");
}

#[test]
fn neighbours_are_read_ahead() {
    assert_eq!(nearby(5, 10), [4, 5, 6, 7]);
    assert_eq!(nearby(0, 2), [0, 1]);
    assert!(nearby(0, 0).is_empty());
}

fn pieces(spans: &[UiSpan]) -> Vec<(UiRole, &str)> {
    spans.iter().map(|s| (s.role, s.text.as_str())).collect()
}

#[test]
fn matches_are_set_off_at_character_boundaries() {
    assert_eq!(
        pieces(&highlight_match("a needle b", 2, 8)),
        [(UiRole::Text, "a "), (UiRole::Hit, "needle"), (UiRole::Text, " b")]
    );
    // The second byte of a character counts as its start.
    assert_eq!(
        pieces(&highlight_match("é!", 1, 2)),
        [(UiRole::Hit, "é"), (UiRole::Text, "!")]
    );
    assert_eq!(pieces(&highlight_match("abc", 5, 9)), [(UiRole::Text, "abc")]);
}

#[test]
fn a_result_is_cut_to_the_list() {
    let spans = draw_result("a.rs", 12, "    let needle = 1;  ", 8, 14, 40);
    assert_eq!(
        pieces(&spans),
        [
            (UiRole::Path, "a.rs:"),
            (UiRole::LineNumber, "12"),
            (UiRole::Gap, "  "),
            (UiRole::Text, "let "),
            (UiRole::Hit, "needle"),
            (UiRole::Text, " = 1;"),
            (UiRole::Gap, "              "),
        ]
    );
    let spans = draw_result("a.rs", 1, "0123456789", 0, 0, 20);
    assert_eq!(
        pieces(&spans),
        [
            (UiRole::Path, "a.rs:"),
            (UiRole::LineNumber, "1"),
            (UiRole::Gap, "  "),
            (UiRole::Text, "012..."),
            (UiRole::Gap, "    "),
        ]
    );
}

/// What lines of a preview show: number, text, filling, and whether they match.
fn shown(panel: PreviewPanel) -> Vec<(String, String, usize, bool)> {
    let text = |body: PreviewBody| match body {
        PreviewBody::Plain(t) => t,
        PreviewBody::Colored(v) => {
            v.into_iter().map(|p| format!("{}<{}>", p.style.red, p.text)).collect()
        }
    };
    let lines = panel.lines.expect("there should be a preview").into_iter();
    lines.map(|l| (l.gutter, text(l.body), l.fill, l.is_match)).collect()
}

#[test]
fn lines_of_a_preview_have_numbers() {
    let mut app = app();
    let panel = draw_preview(&app, &Vec::new(), 0, 20, 5);
    assert_eq!(panel.title, " Preview ");
    assert!(panel.lines.is_none());
    app.results.push(result("src/main.rs", 3));
    app.preview_content = Some("one\ntwo\nthree\nfour\nfive\n".to_string());
    app.preview_scroll = 1;
    let panel = draw_preview(&app, &Vec::new(), 0, 11, 5);
    assert_eq!(panel.title, " src/main.rs ");
    let row = |n: &str, t: &str, fill, hit| (n.to_string(), t.to_string(), fill, hit);
    assert_eq!(
        shown(panel),
        [row("   2 ", "two", 0, false), row("   3 ", "thre", 0, true), row("   4 ", "four", 0, false)]
    );
    let colors = vec![vec![piece(0, "th"), piece(1, "ree")]];
    assert_eq!(
        shown(draw_preview(&app, &colors, 2, 17, 4)),
        [row("   2 ", "two", 0, false), row("   3 ", "0<th>1<ree>", 5, true)]
    );
    app.preview_scroll = 9;
    assert!(shown(draw_preview(&app, &colors, 2, 17, 4)).is_empty());
    assert_eq!(cut_text("aé", 2), "a");
}

#[test]
fn the_selected_row_is_told_from_the_others() {
    let mut app = app();
    app.results.push(result("a.rs", 1));
    app.results.push(result("b.rs", 22));
    app.selected = 1;
    let (title, rows) = draw_results_list(&app, 14);
    assert_eq!(title, " Results (2) ");
    let selected: Vec<bool> = rows.iter().map(|r| r.selected).collect();
    assert_eq!(selected, [false, true]);
    assert_eq!(
        pieces(&rows[1].spans),
        [
            (UiRole::Path, "b.rs:"),
            (UiRole::LineNumber, "22"),
            (UiRole::Gap, "  "),
            (UiRole::Text, ""),
            (UiRole::Gap, "   "),
        ]
    );
}

#[test]
fn colored_pieces_are_cut_to_the_room() {
    let v = vec![piece(0, "fn "), piece(1, "main"), piece(2, "()")];
    let (cut, used) = fit_spans(&v, 5);
    assert_eq!(cut, [piece(0, "fn "), piece(1, "ma")]);
    assert_eq!(used, 5);
    let (all, used) = fit_spans(&v, 80);
    assert_eq!(all, v);
    assert_eq!(used, 9);
}

#[test]
fn the_bar_shows_what_goes_on() {
    let mut app = app();
    app.status_message = "ready".to_string();
    let (kind, text) = draw_status_bar(&app, 0, 0);
    assert!(kind == StatusKind::Message);
    assert_eq!(text, "ready");
    app.searching = true;
    let (kind, text) = draw_status_bar(&app, 80, 12);
    assert!(kind == StatusKind::Searching);
    assert_eq!(text, "⣽ Searching... (12ms)");
    app.load_state = IndexLoadState::Loading;
    let (kind, text) = draw_status_bar(&app, 300, 0);
    assert!(kind == StatusKind::Loading);
    assert_eq!(text, "⠸ Loading index.");
}

#[test]
fn help_stands_in_the_middle() {
    let screen = Area { x: 0, y: 0, width: 100, height: 40 };
    assert_eq!(help_area(screen), Area { x: 20, y: 6, width: 60, height: 28 });
    let small = Area { x: 1, y: 1, width: 3, height: 2 };
    assert_eq!(help_area(small), Area { x: 2, y: 2, width: 0, height: 0 });
}

#[test]
fn selection_moves_within_the_results() {
    let mut app = app();
    assert_eq!(app.select_last(), Action::Nothing);
    for n in 0..25 {
        app.results.push(result("a.rs", n));
    }
    assert_eq!(app.select_prev(), Action::Nothing);
    assert_eq!(app.select_page_down(), Action::UpdatePreview);
    assert_eq!(app.selected, 10);
    app.select_page_down();
    app.select_page_down();
    assert_eq!(app.selected, 24);
    app.select_page_up();
    assert_eq!(app.selected, 14);
    assert_eq!(app.select_prev(), Action::UpdatePreview);
    assert_eq!(app.get_selected_result().unwrap().line_number, 13);
    app.select_first();
    app.select_page_up();
    assert_eq!(app.selected, 0);
    assert_eq!(app.select_last(), Action::UpdatePreview);
    assert_eq!(app.selected, 24);
}

#[test]
fn the_preview_scrolls() {
    let mut app = app();
    app.scroll_preview_up();
    assert_eq!(app.preview_scroll, 0);
    app.scroll_preview_down();
    app.scroll_preview_page_down();
    app.scroll_preview_half_page_down();
    assert_eq!(app.preview_scroll, 31);
    app.scroll_preview_half_page_up();
    app.scroll_preview_page_up();
    assert_eq!(app.preview_scroll, 1);
    app.scroll_preview_to_bottom();
    assert_eq!(app.preview_scroll, 1);
    app.preview_content = Some("line\n".repeat(50));
    app.scroll_preview_to_bottom();
    assert_eq!(app.preview_scroll, 30);
    app.scroll_preview_to_top();
    assert_eq!(app.preview_scroll, 0);
}

#[test]
fn words_of_the_query_are_deleted() {
    let mut app = app();
    app.set_query("one two  ");
    app.delete_word();
    assert_eq!(app.query, "one ");
    app.delete_word();
    assert_eq!(app.query, "");
    app.delete_word();
    assert_eq!(app.query, "");
}

#[test]
fn building_anew_waits_for_a_load_that_goes_on() {
    let mut app = app();
    assert_eq!(app.reindex(), Action::BuildIndex);
    assert!(app.is_loading());
    assert_eq!(app.reindex(), Action::Nothing);
    app.lose_load();
    assert!(!app.is_loading());
}

#[test]
fn a_preview_ends_before_a_character_that_is_cut() {
    let whole = "x".repeat(PREVIEW_LIMIT);
    for (tail, kept) in [
        (vec![0xe2u8, 0x82], Some(PREVIEW_LIMIT - 2)),
        (vec![0xf0, 0x9f, 0x98], Some(PREVIEW_LIMIT - 3)),
        // No more bytes make a character of these.
        (vec![0xed, 0xa0], None),
        (vec![0xc0], None),
    ] {
        let mut bytes = whole.as_bytes()[..PREVIEW_LIMIT - tail.len()].to_vec();
        bytes.extend(tail);
        assert_eq!(preview_text(bytes).map(|t| t.len()), kept);
    }
}

#[test]
fn a_search_starts_with_what_there_is() {
    let app = App::new(Startup::Daemon("fxi".to_string()));
    assert_eq!(app.status_message, "Connected to daemon (root: fxi)");
    assert_eq!(app.load_state, IndexLoadState::Ready);
    assert!(app.index_available && app.using_daemon && app.editing);
    assert_eq!((app.mode, app.previous_mode), (Mode::Search, Mode::Search));
    assert!(app.query.is_empty() && app.results.is_empty() && app.preview_content.is_none());
    let app = App::new(Startup::Loading);
    assert_eq!(app.status_message, "Loading index...");
    assert_eq!(app.load_state, IndexLoadState::Loading);
    assert!(!app.index_available && !app.using_daemon);
    let app = App::new(Startup::NotFound);
    assert_eq!(app.status_message, "No index found. Press F5 to build index.");
    assert_eq!(app.load_state, IndexLoadState::NotFound);
    assert!(!app.index_available && !app.searching && !app.search_queued && !app.previews_stale);
}

/// The texts of the pieces of lines, put together again.
fn joined(lines: &[Vec<StyledText>]) -> Vec<String> {
    lines.iter().map(|v| v.iter().map(|p| p.text.as_str()).collect()).collect()
}

#[test]
fn source_text_gets_its_colors() {
    let highlighter = SyntaxHighlighter::new();
    let content = "// note\nfn main() {}\r\nlet x = 1;";
    let lines = highlighter.highlight_content(content, "src/main.rs");
    assert_eq!(joined(&lines), ["// note", "fn main() {}", "let x = 1;"]);
    // A comment is one color, code is several.
    let styles = |v: &Vec<StyledText>| -> Vec<TextStyle> {
        let mut styles: Vec<TextStyle> = Vec::new();
        for p in v.iter().filter(|p| !p.text.is_empty()) {
            if !styles.contains(&p.style) {
                styles.push(p.style);
            }
        }
        styles
    };
    assert_eq!(styles(&lines[0]).len(), 1);
    assert!(styles(&lines[1]).len() > 1);
    assert_ne!(styles(&lines[0]), styles(&lines[1]));
    // The comment color of the theme.
    let gray = styles(&lines[0])[0];
    assert_eq!((gray.red, gray.green, gray.blue), (0x74, 0x73, 0x69));
}

#[test]
fn the_syntax_is_found_by_extension_then_by_the_first_line() {
    let highlighter = SyntaxHighlighter::default();
    let script = "#!/bin/sh\nif true; then echo $x; fi\n";
    let by_name = highlighter.highlight_content(script, "run.sh");
    assert_eq!(highlighter.highlight_content(script, "run"), by_name);
    assert_eq!(highlighter.highlight_content(script, "RUN.SH"), by_name);
    let plain = highlighter.highlight_content("if true; then echo $x; fi\n", "run.unheard");
    assert_eq!(plain[0].len(), 1);
    assert!(by_name[1].len() > 1);
    assert_ne!(highlighter.highlight_content(script, "run.rs"), by_name);
    assert!(highlighter.highlight_content("", "a.rs").is_empty());
}

#[test]
fn only_so_many_lines_get_colors() {
    let highlighter = SyntaxHighlighter::new();
    let content = "x\n".repeat(MAX_HIGHLIGHT_LINES + 5);
    assert_eq!(highlighter.highlight_content(&content, "a.txt").len(), MAX_HIGHLIGHT_LINES);
    assert_eq!(highlighter.highlight_range(&content, "a.txt", 2999, 3002).len(), 4);
    assert_eq!(highlighter.highlight_range(&content, "a.txt", 3004, usize::MAX).len(), 1);
}

#[test]
fn a_range_of_lines_is_colored_as_in_the_whole() {
    let highlighter = SyntaxHighlighter::new();
    let content = "/* one\ntwo */ fn f() {}\nlet x = \"a\";\nlast";
    let whole = highlighter.highlight_content(content, "a.rs");
    for (start, end) in [(0, 0), (0, 3), (1, 2), (2, 2), (3, 9)] {
        let expected: Vec<String> = joined(&whole)[start..=end.min(3)].to_vec();
        let range = highlighter.highlight_range(content, "a.rs", start, end);
        assert_eq!(joined(&range), expected);
        assert_eq!(range[..], whole[start..=end.min(3)]);
    }
    assert!(highlighter.highlight_range(content, "a.rs", 2, 1).is_empty());
    assert!(highlighter.highlight_range(content, "a.rs", 4, 9).is_empty());
}

#[test]
fn line_ends_are_not_shown() {
    assert_eq!(clean_text("a\r\n"), "a");
    assert_eq!(clean_text("a\r\r\n\n"), "a");
    assert_eq!(clean_text("a\n\r"), "a\n");
    assert_eq!(clean_text("\n"), "");
    assert_eq!(take_lines("a\n\nb", 9), ["a\n", "\n", "b"]);
    assert_eq!(take_lines("a\n\nb\n", 2), ["a\n", "\n"]);
    assert!(take_lines("a", 0).is_empty());
    let lines = clean_lines(&vec![Some(vec![piece(1, "a"), piece(2, "\r\n")]), None]);
    assert_eq!(lines, [vec![piece(1, "a"), piece(2, "")], vec![]]);
}

#[test]
fn syntaxes_have_names_of_their_own() {
    let set = syntect::parsing::SyntaxSet::load_defaults_newlines();
    let mut names: Vec<&str> = set.syntaxes().iter().map(|s| s.name.as_str()).collect();
    let count = names.len();
    names.sort();
    names.dedup();
    assert_eq!(names.len(), count);
    assert_eq!(set.find_syntax_plain_text().name, PLAIN_TEXT);
    assert!(syntect::highlighting::ThemeSet::load_defaults().themes.contains_key(THEME));
}

#[test]
fn the_preview_has_the_colors_of_its_file() {
    let highlighter = SyntaxHighlighter::new();
    let mut app = app();
    assert!(preview_colors(&app, &highlighter).is_empty());
    app.results.push(result("src/main.rs", 1));
    assert!(preview_colors(&app, &highlighter).is_empty());
    app.preview_content = Some("fn main() {}\n".to_string());
    let colors = preview_colors(&app, &highlighter);
    assert_eq!(colors, highlighter.highlight_content("fn main() {}\n", "src/main.rs"));
    assert_eq!(joined(&colors), ["fn main() {}"]);
}
