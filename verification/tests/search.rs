//! Searches as a whole: what they find and in what order.
use fxi::cli::{build_pattern, encode_pattern};
use fxi::query::ast::{Query, QueryNode};
use fxi::query::calendar::{is_leap_year, parse_date, parse_timestamp};
use fxi::query::content::{
    find_literal_matches, find_regex_matches, has_literal_match, has_match, matches_at,
    verify_content,
};
use fxi::query::filter::name_filter_passes;
use fxi::query::index::{Document, Index, Language};
use fxi::query::lines::lines_of;
use fxi::query::parser::{parse_query, try_parse_query};
use fxi::query::plan::{FilterStep, QueryPlan, VerificationStep};
use fxi::query::regex_plan::{finite, is_line_local, no_line_context};
use fxi::query::search::{sort_paths, tally_paths};
use fxi::query::shape::Shape;

fn document(path: &str, language: Language, text: &str) -> Document {
    Document {
        path: path.to_string(),
        language,
        size: text.len() as u64,
        mtime: 1_700_000_000,
        valid: true,
        content: Some(text.to_string()),
    }
}

fn index() -> Index {
    let mut gone = document("gone.rs", Language::Rust, "needle is gone\n");
    gone.valid = false;
    Index::new(vec![
        document("src/main.rs", Language::Rust, "fn main() {\n    needle();\n}\n"),
        document("src/lib.rs", Language::Rust, "// Needle and thread\npub fn other() {}\n"),
        document("tools/run.py", Language::Python, "needle = 1\nneedle = 2\n"),
        document("a-b/notes.txt", Language::Unknown, "nothing here\n"),
        gone,
    ])
}

fn query(text: &str) -> Query {
    try_parse_query(text).expect("the query should be accepted")
}

/// The paths and lines that a search shows.
fn shown(index: &Index, text: &str) -> Vec<(String, u32)> {
    let found = index.execute_with_content(&query(text), 0, 0).unwrap();
    found.into_iter().map(|m| (m.path, m.line_number)).collect()
}

/// The paths of a search for files.
fn files(index: &Index, text: &str) -> Vec<String> {
    index.execute_files_only(&query(text), 0).unwrap()
}

fn pairs(v: &[(&str, u32)]) -> Vec<(String, u32)> {
    v.iter().map(|(p, n)| (p.to_string(), *n)).collect()
}

fn no_filter() -> FilterStep {
    FilterStep {
        path_glob: None,
        filename: None,
        extension: None,
        language: None,
        size_min: None,
        size_max: None,
        mtime_min: None,
        mtime_max: None,
        line_start: None,
        line_end: None,
        scope: None,
    }
}

#[test]
fn a_search_finds_what_reading_every_file_finds() {
    let index = index();
    for text in ["needle", "\"needle\"", "needle | other", "fn -needle", "re:/n[ea]+dle/", "zzz"] {
        let plan = QueryPlan::from_query(&query(text));
        let mut by_reading: Vec<String> = index
            .documents
            .iter()
            .filter(|d| d.valid)
            .filter(|d| match &plan.verification {
                Some(check) => has_match(d.content.as_ref().unwrap(), check),
                None => true,
            })
            .map(|d| d.path.clone())
            .collect();
        by_reading.sort();
        assert_eq!(files(&index, text), by_reading, "{text}");
    }
}

#[test]
fn terms_ignore_case_and_phrases_do_not() {
    let index = index();
    assert_eq!(
        shown(&index, "needle"),
        pairs(&[("src/lib.rs", 1), ("src/main.rs", 2), ("tools/run.py", 1), ("tools/run.py", 2)])
    );
    assert_eq!(
        shown(&index, "\"needle\""),
        pairs(&[("src/main.rs", 2), ("tools/run.py", 1), ("tools/run.py", 2)])
    );
}

#[test]
fn terms_may_stand_on_different_lines() {
    let index = index();
    assert_eq!(files(&index, "needle other"), ["src/lib.rs"]);
    assert_eq!(files(&index, "other needle"), ["src/lib.rs"]);
    assert!(files(&index, "needle nothing").is_empty());
    assert_eq!(files(&index, "needle | nothing").len(), 4);
    assert_eq!(files(&index, "needle -other"), ["src/main.rs", "tools/run.py"]);
}

#[test]
fn documents_that_are_gone_are_not_found() {
    let index = index();
    assert!(files(&index, "gone").is_empty());
    assert_eq!(index.valid_doc_ids().iter().collect::<Vec<u32>>(), [0, 1, 2, 3]);
}

#[test]
fn filters_narrow_a_search() {
    let index = index();
    assert_eq!(files(&index, "needle ext:rs"), ["src/lib.rs", "src/main.rs"]);
    assert_eq!(files(&index, "needle lang:PY"), ["tools/run.py"]);
    assert_eq!(files(&index, "needle path:src/*"), ["src/lib.rs", "src/main.rs"]);
    assert_eq!(files(&index, "needle path:src/main.rs"), ["src/main.rs"]);
    assert!(files(&index, "needle path:main.rs").is_empty());
    assert_eq!(files(&index, "needle file:MAIN.rs"), ["src/main.rs"]);
    assert_eq!(files(&index, "needle file:*.PY"), ["tools/run.py"]);
    assert_eq!(files(&index, "needle size:<25"), ["tools/run.py"]);
    assert_eq!(shown(&index, "needle line:2"), pairs(&[("src/main.rs", 2), ("tools/run.py", 2)]));
}

#[test]
fn a_glob_nested_too_deeply_lets_every_path_pass() {
    let index = index();
    let deep = format!("{}a{}", "{".repeat(300), "}".repeat(300));
    assert_eq!(files(&index, &format!("needle path:{deep}")).len(), 3);
}

#[test]
fn globs_are_checked_when_a_query_is_read() {
    assert!(try_parse_query("path:src/*.r? x").is_ok());
    let error = try_parse_query("path:[a x").unwrap_err();
    assert!(error.to_string().contains("Invalid glob: "));
    assert!(try_parse_query("path:a} x").is_err());
}

#[test]
fn counts_are_those_of_the_lines_shown() {
    let index = index();
    let counts = index.execute_match_counts(&query("needle"), 0).unwrap();
    let lines = shown(&index, "needle");
    assert_eq!(counts.iter().map(|(_, n)| n).sum::<usize>(), lines.len());
    assert!(counts.contains(&("tools/run.py".to_string(), 2)));
    let paths: Vec<String> = lines.into_iter().map(|(p, _)| p).collect();
    assert_eq!(tally_paths(&paths), counts);
}

#[test]
fn context_surrounds_a_match() {
    let found = index().execute_with_content(&query("\"needle();\""), 1, 1).unwrap();
    assert_eq!(found.len(), 1);
    assert_eq!(found[0].line_content, "    needle();");
    assert_eq!((found[0].match_start, found[0].match_end), (4, 13));
    assert_eq!(found[0].context_before, [(1, "fn main() {".to_string())]);
    assert_eq!(found[0].context_after, [(3, "}".to_string())]);
}

#[test]
fn paths_are_ordered_by_their_components() {
    let paths = ["a-b/x", "a/b", "a", "b"].map(str::to_string).to_vec();
    assert_eq!(sort_paths(paths), ["a", "a/b", "a-b/x", "b"]);
}

#[test]
fn an_index_narrows_by_trigrams_and_tokens() {
    let index = index();
    let gram = |t: &str| {
        let b = t.as_bytes();
        ((b[0] as u32) << 16) | ((b[1] as u32) << 8) | (b[2] as u32)
    };
    let all = |v: &[&str]| -> Vec<u32> {
        index.get_trigram_docs_all(&v.iter().map(|t| gram(t)).collect()).iter().collect()
    };
    assert_eq!(all(&["nee"]), [0, 2]);
    assert_eq!(all(&["nee", "fn "]), [0]);
    assert!(all(&["zzz"]).is_empty());
    assert!(index.get_token_docs("needle").is_empty());
    assert!(!index.is_stop_gram(gram("nee")));
}

#[test]
fn a_fixed_pattern_finds_its_text() {
    let text = "a+b (c) [d] /e\nplain\n";
    for pattern in ["a+b", "(c)", "[d]", "/e", "a"] {
        let asked = query(&encode_pattern(pattern, true, false));
        let QueryNode::Regex(expression) = &asked.root else { panic!("{pattern}") };
        let by_pattern = find_regex_matches(text, expression);
        assert_eq!(by_pattern, find_literal_matches(text, pattern, true), "{pattern}");
        assert!(!by_pattern.is_empty());
    }
}

#[test]
fn alternatives_ask_for_one_of_them() {
    let patterns = ["a.b", "c|d"].map(str::to_string).to_vec();
    let asked = query(&build_pattern(&patterns, true, false).unwrap());
    let QueryNode::Or(nodes) = &asked.root else { panic!() };
    assert_eq!(nodes.len(), 2);
    let alone: Vec<String> = patterns.iter().map(|p| encode_pattern(p, true, false)).collect();
    for (node, text) in nodes.iter().zip(alone) {
        assert_eq!(format!("{node:?}"), format!("{:?}", query(&text).root));
    }
    let words = ["foo", "bar"].map(str::to_string).to_vec();
    let asked = query(&build_pattern(&words, false, false).unwrap());
    let or = |v: &[&str]| QueryNode::Or(v.iter().map(|t| QueryNode::Literal(t.to_string())).collect());
    assert_eq!(format!("{:?}", asked.root), format!("{:?}", or(&["foo", "bar"])));
}

#[test]
fn the_text_of_a_simple_query_is_known() {
    assert_eq!(query("needle").get_search_text(), Some("needle"));
    assert_eq!(query("\"a b\"").get_search_text(), Some("a b"));
    assert_eq!(query("a | b").get_search_text(), None);
    assert_eq!(parse_query("re:/x/").get_search_text(), None);
}

#[test]
fn lines_with_a_place_become_matches() {
    let lines = lines_of("one\ntwo\nthree\n");
    let found = matches_at(&lines, &vec![None, Some((0, 2)), Some((1, 5))]);
    assert_eq!(found, [(2, "two".to_string(), 0, 2), (3, "three".to_string(), 1, 5)]);
    assert!(matches_at(&lines, &vec![None, None, None]).is_empty());
}

#[test]
fn patterns_are_found_line_by_line() {
    let found = find_regex_matches("ab\nxaab\n", "a+b");
    assert_eq!(found, [(1, "ab".to_string(), 0, 2), (2, "xaab".to_string(), 1, 4)]);
    assert!(find_regex_matches("ab\n", "(").is_empty());
    assert!(!has_match("ab", &VerificationStep::Regex("(".to_string())));
}

#[test]
fn a_text_is_found_whatever_its_case() {
    assert!(has_literal_match("Straße ÄRGER", "ärger"));
    assert!(has_literal_match("ABC", "bc"));
    assert!(!has_literal_match("ABC", "bd"));
}

#[test]
fn line_local_patterns_are_told_from_others() {
    assert!(is_line_local("foo[a-z]+"));
    assert!(!is_line_local("foo\\s+bar"));
    assert!(!is_line_local("^foo"));
    assert!(!is_line_local("(foo)?"));
    assert!(no_line_context(&Shape::Literal(b"foo".to_vec())));
    assert!(!no_line_context(&Shape::Literal(b"a\nb".to_vec())));
    assert!(!no_line_context(&Shape::Concat(vec![Shape::Empty, Shape::Look])));
    assert!(!no_line_context(&Shape::Unicode(vec![(0, 12)])));
    assert!(no_line_context(&Shape::Bytes(vec![(14, 255)])));
}

#[test]
fn words_of_a_tree_are_enumerated() {
    let either = Shape::Alternation(vec![
        Shape::Literal(b"a".to_vec()),
        Shape::Bytes(vec![(b'x', b'y')]),
    ]);
    let twice = Shape::Repetition { min: 2, max: Some(2), sub: Box::new(either) };
    let words = finite(&twice).unwrap();
    let expected: Vec<Vec<u8>> =
        ["aa", "ax", "ay", "xa", "xx", "xy", "ya", "yx", "yy"].map(|w| w.as_bytes().to_vec()).to_vec();
    assert_eq!(words, expected);
}

#[test]
fn a_document_passes_a_filter_with_its_answers() {
    let doc = document("src/main.rs", Language::Rust, "x");
    let mut filter = no_filter();
    assert!(doc.passes_filter(&filter, false, false));
    filter.path_glob = Some("src/*".to_string());
    assert!(doc.passes_filter(&filter, true, false));
    assert!(!doc.passes_filter(&filter, false, true));
    filter.filename = Some("main.rs".to_string());
    assert!(doc.passes_filter(&filter, true, true));
    assert!(!doc.passes_filter(&filter, true, false));
    for wrong in [
        FilterStep { extension: Some("py".to_string()), ..no_filter() },
        FilterStep { language: Some("go".to_string()), ..no_filter() },
        FilterStep { size_min: Some(2), ..no_filter() },
        FilterStep { mtime_max: Some(1), ..no_filter() },
        FilterStep { scope: Some("tools".to_string()), ..no_filter() },
    ] {
        assert!(!doc.passes_filter(&wrong, true, true));
    }
}

#[test]
fn a_name_passes_by_its_glob_or_as_it_is() {
    assert!(name_filter_passes("x*", "src/main.rs", Some(true)));
    assert!(!name_filter_passes("main.rs", "src/main.rs", Some(false)));
    assert!(name_filter_passes("MAIN.RS", "src/main.rs", None));
    assert!(!name_filter_passes("main", "src/main.rs", None));
    assert!(!name_filter_passes("x", "..", Some(true)));
}

#[test]
fn errors_point_at_a_character() {
    for text in ["ä \"b", "ü (", "path:[ö x", "é a)", "size:>1 ñ size:>2", "ß near:a", "re:/ö"] {
        let error = try_parse_query(text).unwrap_err();
        assert!(text.is_char_boundary(error.offset), "{text}: {}", error.offset);
    }
}

#[test]
fn filters_are_given_once() {
    for text in ["ext:rs ext:py x", "x path:a path:a", "sort:path sort:path x", "size:>1 size:>2 x"] {
        assert!(try_parse_query(text).unwrap_err().to_string().contains("Duplicate"), "{text}");
    }
    assert!(try_parse_query("size:>1 size:<9 x").is_ok());
}

#[test]
fn bounds_on_sizes_and_times_are_strict() {
    let mut documents = Vec::new();
    for (path, size, mtime) in [("a", 9, 86_399), ("b", 10, 86_400), ("c", 11, 172_800)] {
        documents.push(Document { size, mtime, ..document(path, Language::Unknown, "x y z") });
    }
    let index = Index::new(documents);
    assert_eq!(files(&index, "size:>9 size:<11 x"), ["b"]);
    assert_eq!(files(&index, "size:>10 x"), ["c"]);
    assert_eq!(files(&index, "mtime:1970-01-02 x"), ["b"]);
    assert_eq!(files(&index, "mtime:<1970-01-02 x"), ["a"]);
    assert_eq!(files(&index, "mtime:>1970-01-02 x"), ["c"]);
}

#[test]
fn a_limit_is_for_the_whole_answer() {
    let index = index();
    let counts = index.execute_match_counts(&query("needle"), 3).unwrap();
    assert_eq!(counts.iter().map(|(_, n)| n).sum::<usize>(), 3);
    assert_eq!(index.execute_files_only(&query("needle"), 2).unwrap().len(), 2);
}

#[test]
fn days_follow_each_other() {
    let day = |t: &str| parse_date(&t.chars().collect());
    for (a, b) in [
        ("2024-02-28", "2024-02-29"),
        ("2024-02-29", "2024-03-01"),
        ("2023-02-28", "2023-03-01"),
        ("1999-12-31", "2000-01-01"),
        ("2100-02-28", "2100-03-01"),
    ] {
        assert_eq!(day(a).unwrap() + 86_400, day(b).unwrap(), "{a}");
    }
    assert_eq!(day("1970-01-01"), Some(0));
    assert_eq!(day("2024-01-01"), Some(1_704_067_200));
    for wrong in ["2023-02-29", "2024-13-01", "2024-00-10", "2024-1-01", "1969-12-31", "2024-01-00"] {
        assert_eq!(day(wrong), None, "{wrong}");
    }
    assert!(is_leap_year(2000) && !is_leap_year(1900) && is_leap_year(2024));
    assert_eq!(parse_timestamp(&"42".chars().collect()), Some(42));
    assert_eq!(parse_timestamp(&"1970-01-02".chars().collect()), Some(86_400));
    assert_eq!(parse_timestamp(&"x".chars().collect()), None);
}

#[test]
fn ignoring_case_loses_nothing() {
    let phrase = |case_insensitive| VerificationStep::Phrase {
        text: "Needle and".to_string(),
        case_insensitive,
    };
    for (text, exact, any) in [
        ("a Needle and b", true, true),
        ("a needle AND b", false, true),
        ("a Needle\nand b", false, false),
    ] {
        assert_eq!(has_match(text, &phrase(false)), exact, "{text}");
        assert_eq!(has_match(text, &phrase(true)), any, "{text}");
    }
}

#[test]
fn a_pattern_is_present_where_one_of_its_lines_is() {
    let step = VerificationStep::Regex("^foo$".to_string());
    assert!(has_match("bar\nfoo\n", &step));
    assert_eq!(verify_content("bar\nfoo\n", &step), [(2, "foo".to_string(), 0, 3)]);
    assert!(!has_match("bar\nfoo x\n", &step));
    assert!(!has_match("foo\nbar\n", &VerificationStep::Regex("foo\\sbar".to_string())));
}

#[test]
fn a_text_with_a_line_break_is_on_no_line() {
    for case_insensitive in [false, true] {
        let step = VerificationStep::Phrase { text: "a\nb".to_string(), case_insensitive };
        assert!(!has_match("a\nb\n", &step));
        assert!(verify_content("a\nb\n", &step).is_empty());
    }
    assert!(!has_match("a\nb\n", &VerificationStep::Literal("a\nb".to_string())));
}

#[test]
fn a_letter_that_grows_in_lower_case_is_found() {
    let step = VerificationStep::Literal("\u{130}".to_string());
    assert!(has_match("x\n\u{130}\n", &step));
    assert_eq!(verify_content("x\n\u{130}\n", &step).len(), 1);
}

#[test]
fn whole_line_patterns_list_and_exclude_files() {
    let index = Index::new(vec![
        document("a.txt", Language::Unknown, "bar\nfoo\n"),
        document("b.txt", Language::Unknown, "bar\nfoo x\n"),
    ]);
    assert_eq!(files(&index, "re:/^foo$/"), ["a.txt"]);
    assert_eq!(files(&index, "bar -re:/^foo$/"), ["b.txt"]);
}

#[test]
fn files_are_listed_for_matches_within_the_lines() {
    let index = Index::new(vec![
        document("early.txt", Language::Unknown, "TODO\nx\nx\n"),
        document("late.txt", Language::Unknown, "x\nx\nTODO\n"),
    ]);
    assert_eq!(files(&index, "TODO"), ["early.txt", "late.txt"]);
    assert_eq!(files(&index, "line:2-3 TODO"), ["late.txt"]);
    assert_eq!(files(&index, "line:1 TODO"), ["early.txt"]);
    assert!(files(&index, "line:9-12 TODO").is_empty());
}

#[test]
fn one_plus_sign_may_stand_before_a_number() {
    let filters = query("size:>+5 line:+1-+2 top:+7 x");
    assert_eq!(filters.filters.size_min, Some(6));
    assert_eq!(filters.filters.line_start, Some(1));
    assert_eq!(filters.filters.line_end, Some(2));
    assert_eq!(filters.options.limit, 7);
    for text in ["size:>++5 x", "size:>+ x", "line:-1 x", "line:+1-++2 x", "top:-7 x", "top:+ x"] {
        assert!(try_parse_query(text).is_err(), "{text}");
    }
}

#[test]
fn dates_are_digits_and_dashes() {
    for (text, message) in [
        ("mtime:>2024-+1-01 x", "Invalid mtime lower bound"),
        ("mtime:+5 x", "Invalid date or timestamp"),
    ] {
        assert!(try_parse_query(text).unwrap_err().to_string().contains(message), "{text}");
    }
    for text in ["2024-+1-01", "2024-01-+1", "+024-01-01", "2024-1+-01"] {
        assert_eq!(parse_date(&text.chars().collect()), None, "{text}");
    }
    assert_eq!(parse_date(&"2024-01-01".chars().collect()), Some(1_704_067_200));
}

#[test]
fn repeated_filters_and_options_are_refused() {
    for (text, name) in [
        ("ext:rs EXT:py", "ext"),
        ("file:a name:b", "name"),
        ("top:1 top:1", "top"),
        ("a ext:rs \"b c\" -d ext:rs", "ext"),
        ("(a | b) mtime:>1 c mtime:>2", "mtime"),
    ] {
        let message = format!("Duplicate {name} filter/option");
        assert!(try_parse_query(text).unwrap_err().to_string().contains(&message), "{text}");
    }
    for text in ["size:>1 size:<9", "\"ext:rs\" ext:rs x", "near:a,b near:c,d"] {
        assert!(try_parse_query(text).is_ok(), "{text}");
    }
}

#[test]
fn files_are_listed_where_a_search_shows_a_line() {
    let index = index();
    for text in ["needle", "line:2 needle", "line:1-1 needle", "fn -needle", "re:/^needle/", "zzz"] {
        let mut paths: Vec<String> = shown(&index, text).into_iter().map(|m| m.0).collect();
        paths.dedup();
        assert_eq!(files(&index, text), paths, "{text}");
    }
}

#[test]
fn ascii_words_are_found_beside_other_letters() {
    let index = Index::new(vec![
        document("a.rs", Language::Rust, "// \u{a9} Müller\nlet Error = 1;\nlet fault = 2;\n"),
        document("b.rs", Language::Rust, "// \u{a9} Error\n"),
        document("c.rs", Language::Rust, "nothing\n"),
    ]);
    assert_eq!(shown(&index, "error"), pairs(&[("a.rs", 2), ("b.rs", 1)]));
    assert_eq!(files(&index, "error"), ["a.rs", "b.rs"]);
    assert_eq!(shown(&index, "^2:error"), pairs(&[("a.rs", 2), ("b.rs", 1)]));
    assert_eq!(files(&index, "near:error,fault,2"), ["a.rs"]);
    let mut phrase = query("\"ERROR\"");
    assert!(index.execute_files_only(&phrase, 0).unwrap().is_empty());
    phrase.options.case_insensitive = true;
    assert_eq!(index.execute_files_only(&phrase, 0).unwrap(), ["a.rs", "b.rs"]);
}

#[test]
fn words_are_found_as_they_are_written() {
    let index = Index::new(vec![
        document("a.txt", Language::Unknown, "viel ärger\n"),
        document("b.txt", Language::Unknown, "viel äRGER\n"),
        document("c.txt", Language::Unknown, "viel arger\n"),
    ]);
    assert_eq!(shown(&index, "ärger"), pairs(&[("a.txt", 1), ("b.txt", 1)]));
    assert_eq!(files(&index, "ärger"), ["a.txt", "b.txt"]);
    assert_eq!(files(&index, "near:viel,ärger,0"), ["a.txt", "b.txt"]);
    let mut phrase = query("\"ärger\"");
    assert_eq!(index.execute_files_only(&phrase, 0).unwrap(), ["a.txt"]);
    phrase.options.case_insensitive = true;
    assert_eq!(index.execute_files_only(&phrase, 0).unwrap(), ["a.txt", "b.txt"]);
}

#[test]
fn a_match_by_lower_case_alone_may_be_narrowed_away() {
    let index = Index::new(vec![document("a.txt", Language::Unknown, "XX\u{130}\n")]);
    assert!(has_literal_match("XX\u{130}", "xxi"));
    assert!(files(&index, "xxi").is_empty());
}

#[test]
fn filters_stand_alone() {
    for text in ["(ext:rs x)", "-ext:rs x", "^2:ext:rs x", "(sort:path x)", "-path:a x", "(x | lang:go)"] {
        let error = try_parse_query(text).unwrap_err().to_string();
        assert!(error.contains("Filters/options cannot be grouped, negated or boosted"), "{text}: {error}");
    }
    assert!(try_parse_query("(near:a,b)").is_ok());
    assert!(try_parse_query("-near:a,b x").is_ok());
}
