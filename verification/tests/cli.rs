//! The command line and its output.
use fxi::cli::{
    already_running, build_pattern, check_supported, daemon_step, encode_pattern, listed_paths,
    may_search_directly, prepare_grep, reload_outcome, reload_running_daemon, search_index,
    start_progress, status_lines, stop_progress, use_color, use_heading, warn_if_stale, Cli,
    ColorChoice, DaemonCommand, DaemonStep, GrepOptions, Waiting, START_SECONDS, STOP_SECONDS,
    WAIT_MILLIS,
};
use fxi::output::{
    print_content_matches, print_file_counts, print_file_paths, print_match_counts, Piece, Role,
};
use fxi::query::ast::QueryNode;
use fxi::query::index::{Document, Index, Language};
use fxi::query::parser::try_parse_query;
use fxi::server::client_windows::ClientError;
use fxi::server::protocol::{ContentMatch, StatusResponse, SEARCH_OVERLOADED_PREFIX};

fn cli() -> Cli {
    Cli {
        pattern: None,
        patterns: vec![],
        search_path: None,
        fixed_strings: false,
        regex: false,
        json: false,
        null: false,
        heading: false,
        no_heading: false,
        path: None,
        after_context: 0,
        before_context: 0,
        context: None,
        ignore_case: false,
        invert_match: false,
        word_regexp: false,
        max_count: 0,
        files_with_matches: false,
        count: false,
        color: ColorChoice::default(),
    }
}

fn some(t: &str) -> Option<String> {
    Some(t.to_string())
}

fn strings(v: &[&str]) -> Vec<String> {
    v.iter().map(|t| t.to_string()).collect()
}

fn options(pattern: &str) -> GrepOptions {
    GrepOptions::from_cli(&Cli { pattern: some(pattern), ..cli() })
}

#[test]
fn a_lone_argument_beside_patterns_is_the_path() {
    let opts = GrepOptions::from_cli(&Cli {
        pattern: some("src"),
        patterns: strings(&["foo", "bar"]),
        ..cli()
    });
    assert_eq!(opts.patterns, ["foo", "bar"]);
    assert_eq!(opts.path, "src");
    let opts = GrepOptions::from_cli(&Cli {
        pattern: some("foo"),
        patterns: strings(&["bar"]),
        search_path: some("src"),
        ..cli()
    });
    assert_eq!(opts.patterns, ["foo", "bar"]);
    assert_eq!(opts.path, "src");
    let opts = GrepOptions::from_cli(&Cli {
        pattern: some("foo"),
        patterns: strings(&["bar"]),
        path: some("src"),
        ..cli()
    });
    assert_eq!(opts.patterns, ["foo", "bar"]);
    assert_eq!(opts.path, "src");
    let opts = options("TODO");
    assert_eq!(opts.patterns, ["TODO"]);
    assert_eq!(opts.path, ".");
}

#[test]
fn patterns_keep_their_meaning_when_joined() {
    assert_eq!(build_pattern(&strings(&["foo bar"]), false, false).unwrap(), "foo bar");
    assert_eq!(build_pattern(&strings(&["a", "b c"]), false, false).unwrap(), "(a) | (b c)");
    assert_eq!(build_pattern(&vec![], false, false).unwrap(), "");
    assert_eq!(encode_pattern("a/b.c", true, false), "re:/a\\x2fb\\.c/");
    assert_eq!(encode_pattern("a\\/b[/]\\\\", false, true), "re:/a\\x2fb[\\x2f]\\\\/");
    assert_eq!(encode_pattern("ext:rs", false, false), "ext:rs");
    let error = build_pattern(&strings(&["ok", "(open"]), false, false).unwrap_err();
    assert_eq!(error.to_string(), "Unclosed parenthesized expression at byte 5");
}

#[test]
fn a_fixed_pattern_is_taken_literally() {
    for pattern in ["fn main", "ext:rs", "-excluded", "a|b", "path/to", "[x]", "\"q\"", "^2:y"] {
        let query = try_parse_query(&encode_pattern(pattern, true, false)).unwrap();
        match query.root {
            QueryNode::Regex(regex) => {
                let found = regex::Regex::new(&regex).unwrap();
                assert_eq!(found.find(pattern).map(|m| m.as_str()), Some(pattern));
            }
            other => panic!("{other:?}"),
        }
    }
}

#[test]
fn inverse_matching_and_ranked_limits_are_refused() {
    let opts = GrepOptions::from_cli(&Cli { pattern: some("x"), invert_match: true, ..cli() });
    assert!(check_supported(&opts).unwrap_err().contains("not supported"));
    assert!(check_supported(&options("x")).is_ok());
    let error = prepare_grep(&options("x top:5"), "/root", "/root").unwrap_err();
    assert!(error.starts_with("top:N applies to ranked interactive search"));
    let opts = GrepOptions::from_cli(&Cli { pattern: some("^x"), word_regexp: true, ..cli() });
    let error = prepare_grep(&opts, "/root", "/root").unwrap_err();
    assert!(error.starts_with("Whole-word mode"));
    assert!(prepare_grep(&options("(x"), "/root", "/root").is_err());
}

#[test]
fn options_become_a_search() {
    let opts = GrepOptions::from_cli(&Cli {
        pattern: some("needle"),
        context: Some(2),
        before_context: 7,
        ignore_case: true,
        count: true,
        files_with_matches: true,
        ..cli()
    });
    let grep = prepare_grep(&opts, "/root/src", "/root").unwrap();
    assert_eq!(grep.pattern, "needle");
    assert_eq!(grep.query.filters.search_scope.as_deref(), Some("src"));
    assert!(grep.query.options.case_insensitive);
    assert_eq!((grep.options.context_before, grep.options.context_after), (2, 2));
    assert!(grep.options.files_only && grep.options.compact_files);
    assert!(!grep.options.counts_only);
}

fn index() -> Index {
    let file = |path: &str, text: &str| Document {
        path: path.to_string(),
        language: Language::Unknown,
        size: text.len() as u64,
        mtime: 0,
        valid: true,
        content: Some(text.to_string()),
    };
    let documents = vec![
        file("b.txt", "one needle\ntwo\nneedle three\n"),
        file("a.txt", "needle\n"),
        file("c.txt", "nothing\n"),
    ];
    let mut all = roaring::RoaringBitmap::new();
    all.insert_range(0..3);
    let mut trigram_docs = Vec::new();
    for gram in ["nee", "eed", "edl", "dle"] {
        let b = gram.as_bytes();
        trigram_docs.push((
            ((b[0] as u32) << 16) | ((b[1] as u32) << 8) | b[2] as u32,
            all.clone(),
        ));
    }
    Index { documents, stop_grams: vec![], trigram_docs, token_docs: vec![] }
}

#[test]
fn an_index_is_searched_without_a_server() {
    let index = index();
    let search = |args: Cli, max: usize| {
        let opts = GrepOptions::from_cli(&args);
        let grep = prepare_grep(&opts, "/root", "/root").unwrap();
        search_index(&index, &grep.query, max, grep.options, "/root".to_string()).unwrap()
    };
    let args = || Cli { pattern: some("re:/needle/"), ..cli() };
    let all = search(Cli { context: Some(1), ..args() }, 0);
    let found: Vec<_> = all.matches.iter().map(|m| (m.path.as_str(), m.line_number)).collect();
    assert_eq!(found, [("a.txt", 1), ("b.txt", 1), ("b.txt", 3)]);
    assert_eq!(all.matches[1].context_after, [(2, "two".to_string())]);
    assert_eq!(all.files_with_matches, 2);
    assert_eq!(all.resolved_root.as_deref(), Some("/root"));
    let limited = search(args(), 1);
    assert_eq!(limited.matches.len(), 1);
    assert_eq!(limited.files_with_matches, 1);
    let files = search(Cli { files_with_matches: true, ..args() }, 0);
    assert_eq!(listed_paths(files), ["a.txt", "b.txt"]);
    let counts = search(Cli { count: true, ..args() }, 0).file_counts.unwrap();
    assert_eq!(counts, [("a.txt".to_string(), 1), ("b.txt".to_string(), 2)]);
    let empty = search(Cli { pattern: some(" "), ..cli() }, 0);
    assert!(empty.matches.is_empty());
    assert_eq!(listed_paths(limited), ["a.txt"]);
}

#[test]
fn overload_is_not_bypassed() {
    let overloaded = format!("{SEARCH_OVERLOADED_PREFIX}try again");
    assert!(!may_search_directly(&ClientError::ServerError(overloaded)));
    assert!(may_search_directly(&ClientError::ServerError("other".to_string())));
    assert!(may_search_directly(&ClientError::InvalidResponse));
}

#[test]
fn colors_and_headings_follow_the_terminal() {
    assert!(use_color(ColorChoice::Always, false, true, None));
    assert!(!use_color(ColorChoice::Never, true, false, Some("xterm")));
    assert!(use_color(ColorChoice::Auto, true, false, Some("xterm")));
    assert!(!use_color(ColorChoice::Auto, true, false, Some("dumb")));
    assert!(!use_color(ColorChoice::Auto, true, true, Some("xterm")));
    assert!(!use_color(ColorChoice::Auto, false, false, Some("xterm")));
    assert!(!use_color(ColorChoice::Auto, true, false, None));
    let plain = options("x");
    assert!(use_heading(&plain, true));
    assert!(!use_heading(&plain, false));
    let never = GrepOptions::from_cli(&Cli { pattern: some("x"), no_heading: true, ..cli() });
    assert!(!use_heading(&never, true));
    let always = GrepOptions::from_cli(&Cli { pattern: some("x"), heading: true, ..cli() });
    assert!(use_heading(&always, false));
}

#[test]
fn an_old_index_is_noted() {
    let day = 24 * 3600;
    assert_eq!(
        warn_if_stale("/root", 0, day + 90, None).unwrap(),
        "note: index for /root was last updated 24h 1m ago; run `fxi index` or `fxi daemon start --watch` to keep it fresh"
    );
    assert!(warn_if_stale("/root", 0, 3600, None).is_none());
    assert!(warn_if_stale("/root", 0, 3601, None).is_some());
    assert!(warn_if_stale("/root", 0, day, Some("0")).is_none());
    assert!(warn_if_stale("/root", 0, 61, Some("60")).is_some());
    assert!(warn_if_stale("/root", 0, 61, Some("sixty")).is_none());
    assert!(warn_if_stale("/root", 10, 5, Some("1")).is_none());
}

#[test]
fn the_daemon_is_started_stopped_and_reloaded() {
    assert_eq!(already_running(true, true).unwrap(), "Daemon is already running (watching: true)");
    assert!(already_running(true, false).is_err());
    assert!(already_running(false, false).is_ok());
    assert!(matches!(start_progress(true, true, false), Waiting::Done(t) if t == "Daemon started (watching: false)"));
    assert!(matches!(start_progress(false, false, false), Waiting::Wait));
    let Waiting::Failed(late) = start_progress(false, true, false) else { panic!() };
    assert!(late.contains(&format!("within {START_SECONDS} seconds")));
    assert_eq!((STOP_SECONDS, WAIT_MILLIS), (5, 25));
    assert!(matches!(stop_progress(false, true), Waiting::Done(t) if t == "Daemon stopped"));
    assert!(matches!(stop_progress(true, false), Waiting::Wait));
    assert!(matches!(stop_progress(true, true), Waiting::Failed(_)));
    assert_eq!(reload_outcome(true, "x").unwrap(), "Reloaded: x");
    assert_eq!(reload_outcome(false, "x").unwrap_err(), "Reload failed: x");
    assert!(reload_running_daemon(Some((true, String::new())), true).is_ok());
    assert_eq!(
        reload_running_daemon(Some((false, "busy".to_string())), true).unwrap_err(),
        "Index published, but daemon reload failed: busy"
    );
    assert!(reload_running_daemon(None, true).is_err());
    assert!(reload_running_daemon(None, false).is_ok());
}

#[test]
fn the_status_is_told_in_lines() {
    let status = StatusResponse {
        uptime_secs: 61,
        indexes_loaded: 2,
        total_docs: 12,
        queries_served: 3,
        memory_bytes: 0,
        loaded_roots: strings(&["/a", "/b"]),
        protocol_version: 2,
        server_version: "1.0".to_string(),
        watch_enabled: true,
        watched_roots: strings(&["/b"]),
    };
    assert_eq!(
        status_lines(&status),
        [
            "fxid daemon status:",
            "  Uptime: 61s",
            "  Watching enabled: true",
            "  Indexes loaded: 2",
            "  Live documents: 12",
            "  Queries served: 3",
            "  Protocol version: 2",
            "  Server version: 1.0",
            "  /a (watching: false)",
            "  /b (watching: true)",
        ]
    );
}

fn hit(path: &str, line_number: u32, text: &str, start: usize, end: usize) -> ContentMatch {
    ContentMatch {
        path: path.to_string(),
        line_number,
        line_content: text.to_string(),
        match_start: start,
        match_end: end,
        context_before: vec![],
        context_after: vec![],
    }
}

fn text(pieces: &[Piece]) -> String {
    pieces.iter().map(|p| p.text.as_str()).collect()
}

#[test]
fn matches_are_printed_by_path_and_line() {
    let matches = vec![hit("b.rs", 2, "let x", 4, 5), hit("a.rs", 1, "x", 0, 1)];
    assert_eq!(text(&print_content_matches(&matches, false, false)), "a.rs:1:x\nb.rs:2:let x\n");
    assert_eq!(text(&print_content_matches(&matches, false, true)), "a.rs\n1:x\n\nb.rs\n2:let x\n");
    let colored = print_content_matches(&matches, true, false);
    assert!(colored.iter().any(|p| p.role == Role::Highlight && p.text == "x"));
}

#[test]
fn lines_around_matches_are_printed_once() {
    let mut first = hit("a.rs", 2, "two", 0, 3);
    first.context_before = vec![(1, "one".to_string())];
    first.context_after = vec![(3, "three".to_string())];
    let mut second = hit("a.rs", 3, "three", 0, 5);
    second.context_before = vec![(2, "two".to_string())];
    let mut third = hit("a.rs", 9, "nine", 0, 4);
    third.context_before = vec![(8, "eight".to_string())];
    let out = text(&print_content_matches(&vec![first, second, third], false, false));
    assert_eq!(
        out,
        "a.rs-1-one\na.rs:2:two\na.rs:3:three\n--\na.rs-8-eight\na.rs:9:nine\n"
    );
}

#[test]
fn files_and_counts_are_printed_once_each() {
    let paths = strings(&["a.rs", "b.rs", "a.rs"]);
    assert_eq!(text(&print_file_paths(&paths, false)), "a.rs\nb.rs\n");
    let counts = vec![("a.rs".to_string(), 2)];
    assert_eq!(text(&print_file_counts(&counts, false)), "a.rs:2\n");
    let matches = vec![hit("a.rs", 1, "x", 0, 1), hit("a.rs", 2, "x", 0, 1), hit("b.rs", 1, "x", 0, 1)];
    assert_eq!(text(&print_match_counts(&matches, false)), "a.rs:2\nb.rs:1\n");
}

#[test]
fn search_flags_need_a_search() {
    let refused = |cli: &Cli, sub: bool| cli.check_flags(sub).unwrap_err();
    let json = Cli { json: true, ..cli() };
    assert_eq!(refused(&json, false), "Search flags require a pattern");
    assert_eq!(refused(&json, true), "Search flags cannot be mixed with subcommands");
    let paths = Cli { path: some("src"), ..cli() };
    assert!(paths.check_flags(false).is_ok());
    assert!(paths.check_flags(true).is_err());
    for flags in [
        Cli { regex: true, ..cli() },
        Cli { files_with_matches: true, ..cli() },
        Cli { context: Some(0), ..cli() },
        Cli { max_count: 1, ..cli() },
        Cli { color: ColorChoice::Never, ..cli() },
    ] {
        assert!(flags.check_flags(false).is_err());
        assert!(flags.check_flags(true).is_err());
        assert!(Cli { pattern: some("stats"), ..flags }.check_flags(false).is_ok());
    }
    assert!(Cli { patterns: strings(&["a"]), ..cli() }.check_flags(false).is_ok());
    assert!(cli().check_flags(false).is_ok());
    assert!(cli().check_flags(true).is_ok());
}

#[test]
fn a_command_on_the_daemon_takes_its_steps() {
    let stop = DaemonCommand::Stop { force: false };
    let kill = DaemonCommand::Stop { force: true };
    assert!(matches!(daemon_step(stop, false, None), DaemonStep::Say(t) if t == "Daemon is not running"));
    assert!(matches!(daemon_step(kill, false, None), DaemonStep::Say(_)));
    assert!(matches!(daemon_step(kill, true, None), DaemonStep::Kill));
    assert!(matches!(daemon_step(stop, true, None), DaemonStep::Connect));
    assert!(matches!(daemon_step(stop, true, Some(true)), DaemonStep::ShutDown));
    assert!(matches!(
        daemon_step(stop, true, Some(false)),
        DaemonStep::Refuse(t) if t.starts_with("Daemon is unresponsive")
    ));
    let start = DaemonCommand::Start { watch: true };
    assert!(matches!(daemon_step(start, false, None), DaemonStep::Launch { watch: true }));
    assert!(matches!(daemon_step(start, true, None), DaemonStep::Connect));
    assert!(matches!(daemon_step(start, true, Some(true)), DaemonStep::AskStatus));
    assert!(matches!(
        daemon_step(start, true, Some(false)),
        DaemonStep::Refuse(t) if t == "Daemon is running but not responding"
    ));
    assert!(matches!(daemon_step(DaemonCommand::Status, false, None), DaemonStep::Say(_)));
    assert!(matches!(daemon_step(DaemonCommand::Status, true, Some(true)), DaemonStep::AskStatus));
    assert!(matches!(daemon_step(DaemonCommand::Status, true, Some(false)), DaemonStep::Refuse(_)));
    let here = DaemonCommand::Foreground { watch: false };
    assert!(matches!(daemon_step(here, false, None), DaemonStep::Serve { watch: false }));
    assert!(matches!(daemon_step(here, true, None), DaemonStep::Refuse(_)));
    assert!(matches!(daemon_step(DaemonCommand::SocketPath, true, None), DaemonStep::ShowSocket));
    assert!(matches!(daemon_step(DaemonCommand::Reload, false, None), DaemonStep::Connect));
    assert!(matches!(daemon_step(DaemonCommand::Reload, true, Some(true)), DaemonStep::Reload));
    assert!(matches!(
        daemon_step(DaemonCommand::Reload, true, Some(false)),
        DaemonStep::Refuse(t) if t == "Daemon is not responding; start it with `fxi daemon start`"
    ));
}

#[test]
fn a_file_is_shown_under_the_first_spelling_of_its_path() {
    let found = |path: &str, line_number: u32| ContentMatch {
        path: path.to_string(),
        line_number,
        line_content: "x".to_string(),
        match_start: 0,
        match_end: 1,
        context_before: vec![],
        context_after: vec![(line_number + 1, "y".to_string())],
    };
    let matches = vec![found("a//b", 4), found("c", 1), found("a/b", 1), found("a/./b", 9)];
    let text = |heading| -> String {
        print_content_matches(&matches, false, heading).iter().map(|p| p.text.as_str()).collect()
    };
    assert_eq!(
        text(false),
        "a//b:1:x\na//b-2-y\n--\na//b:4:x\na//b-5-y\n--\na//b:9:x\na//b-10-y\nc:1:x\nc-2-y\n"
    );
    assert_eq!(
        text(true),
        "a//b\n1:x\n2-y\n--\n4:x\n5-y\n--\n9:x\n10-y\n\nc\n1:x\n2-y\n"
    );
}
