//! Searching an index.
use fxi::paths::{extension_of, file_name_of};
use fxi::query::ast::{Query, QueryError};
use fxi::query::content::{
    extract_context_from_lines, find_literal_matches, find_proximity_matches, verify_content,
};
use fxi::query::index::{parse_language, Document, Index, Language};
use fxi::query::lines::lines_of;
use fxi::query::parser::parse_query;
use fxi::query::plan::VerificationStep;
use fxi::query::ranking::SearchMatch;
use roaring::RoaringBitmap;

/// When the files of the tests were last changed.
const MTIME: u64 = 1_700_000_000;

/// The language of a file by its extension.
fn language_of(path: &str) -> Language {
    parse_language(&extension_of(path))
}

/// An index of files with every trigram of their texts.
fn index_of(files: &[(String, String)]) -> Index {
    let mut documents = Vec::new();
    let mut trigram_docs: Vec<(u32, RoaringBitmap)> = Vec::new();
    for (number, (path, text)) in files.iter().enumerate() {
        for w in text.as_bytes().windows(3) {
            let gram = ((w[0] as u32) << 16) | ((w[1] as u32) << 8) | (w[2] as u32);
            let place = match trigram_docs.iter().position(|(g, _)| *g == gram) {
                Some(place) => place,
                None => {
                    trigram_docs.push((gram, RoaringBitmap::new()));
                    trigram_docs.len() - 1
                }
            };
            trigram_docs[place].1.insert(number as u32);
        }
        documents.push(Document {
            path: path.clone(),
            language: language_of(path),
            size: text.len() as u64,
            mtime: MTIME,
            valid: true,
            content: Some(text.clone()),
        });
    }
    Index { documents, stop_grams: Vec::new(), trigram_docs, token_docs: Vec::new() }
}

/// An index of three files.
fn test_index() -> Index {
    index_of(&[
        (
            "main.rs".to_string(),
            r#"fn main() {
    println!("Hello, world!");
    let x = 42;
}

fn helper() {
    // TODO: implement
}
"#
            .to_string(),
        ),
        (
            "lib.rs".to_string(),
            r#"pub fn add(a: i32, b: i32) -> i32 {
    a + b
}

pub fn multiply(a: i32, b: i32) -> i32 {
    a * b
}

mod checks {
    use super::*;

    fn check_add() {
        assert_eq!(add(2, 3), 5);
    }
}
"#
            .to_string(),
        ),
        (
            "utils.py".to_string(),
            r#"def format_error(msg: str) -> str:
    return f"ERROR: {msg}"

def format_warning(msg: str) -> str:
    return f"WARNING: {msg}"
"#
            .to_string(),
        ),
    ])
}

/// The size of a file of an index.
fn size_of(index: &Index, path: &str) -> u64 {
    index.documents.iter().find(|d| d.path == path).expect("the file should exist").size
}

/// The matches of a query, all with the same score.
fn ranked(index: &Index, query: &Query) -> Result<Vec<SearchMatch>, QueryError> {
    let found = index.execute(query)?;
    let scores = vec![1; found.results.len()];
    Ok(index.rank(
        &found.results,
        &scores,
        &found.names,
        1,
        query.options.sort,
        query.options.limit,
    ))
}

#[test]
fn test_executor_simple_search() {
    let index = test_index();

    let query = parse_query("fn main");
    let results = ranked(&index, &query);

    assert!(results.is_ok(), "Search should succeed");
    let results = results.unwrap();
    assert!(!results.is_empty(), "Should find matches for 'fn main'");

    // Should find main.rs
    assert!(
        results
            .iter()
            .any(|m| m.path.contains("main.rs")),
        "Should find main.rs"
    );
}

#[test]
fn test_executor_phrase_search() {
    let index = test_index();

    let query = parse_query("\"Hello, world\"");
    let results = ranked(&index, &query);

    assert!(results.is_ok(), "Phrase search should succeed");
    let results = results.unwrap();
    assert!(!results.is_empty(), "Should find exact phrase");
}

#[test]
fn test_executor_no_results() {
    let index = test_index();

    let query = parse_query("xyznonexistent123abc");
    let results = ranked(&index, &query);

    assert!(
        results.is_ok(),
        "Search should succeed even with no matches"
    );
    let results = results.unwrap();
    assert!(results.is_empty(), "Should find no matches");
}

#[test]
fn test_executor_extension_filter() {
    let index = test_index();

    let query = parse_query("ext:rs fn");
    let results = ranked(&index, &query);

    assert!(results.is_ok(), "Extension filter search should succeed");
    let results = results.unwrap();

    // All results should be .rs files
    for result in &results {
        assert!(
            extension_of(&result.path) == "rs",
            "All results should be .rs files"
        );
    }
}

#[test]
fn test_executor_language_filter() {
    let index = test_index();

    let query = parse_query("lang:python def");
    let results = ranked(&index, &query);

    assert!(results.is_ok(), "Language filter search should succeed");
    let results = results.unwrap();

    // Should find Python files
    assert!(
        results
            .iter()
            .any(|m| m.path.contains(".py")),
        "Should find Python files"
    );
}

#[test]
fn test_executor_with_limit() {
    let index = test_index();

    let mut query = parse_query("fn");
    query.options.limit = 1;
    let results = ranked(&index, &query);

    assert!(results.is_ok(), "Limited search should succeed");
    let results = results.unwrap();
    assert!(results.len() <= 1, "Should respect limit of 1");
}

#[test]
fn test_verify_content_literal() {
    let content = "fn main() {\n    println!(\"hello\");\n}\n";
    let verification = VerificationStep::Literal("println".to_string());

    let matches = verify_content(content, &verification);

    assert!(!matches.is_empty(), "Should find literal match");
    assert_eq!(matches[0].0, 2, "Match should be on line 2");
}

#[test]
fn test_verify_content_phrase() {
    let content = "fn main() {\n    println!(\"hello world\");\n}\n";
    let verification = VerificationStep::Phrase {
        text: "hello world".to_string(),
        case_insensitive: false,
    };

    let matches = verify_content(content, &verification);

    assert!(!matches.is_empty(), "Should find phrase match");
}

#[test]
fn test_verify_content_regex() {
    let content = "fn main() {\n    let x = 42;\n    let y = 123;\n}\n";
    let verification = VerificationStep::Regex(r"\d+".to_string());

    let matches = verify_content(content, &verification);

    assert!(matches.len() >= 2, "Should find at least 2 number matches");
}

#[test]
fn test_verify_content_and() {
    let content = "fn main() {\n    println!(\"hello\");\n}\n";
    let verification = VerificationStep::And(vec![
        VerificationStep::Literal("fn".to_string()),
        VerificationStep::Literal("main".to_string()),
    ]);

    let matches = verify_content(content, &verification);

    assert!(!matches.is_empty(), "Should find AND match");
}

#[test]
fn test_verify_content_or() {
    let content = "fn helper() {\n    // nothing here\n}\n";
    let verification = VerificationStep::Or(vec![
        VerificationStep::Literal("main".to_string()),
        VerificationStep::Literal("helper".to_string()),
    ]);

    let matches = verify_content(content, &verification);

    assert!(!matches.is_empty(), "Should find OR match (helper)");
}

#[test]
fn test_extract_context_lines() {
    let content = "line1\nline2\nline3\nline4\nline5\n";
    let lines = lines_of(content);

    let (before, after) = extract_context_from_lines(&lines, 3, 1, 1);

    assert_eq!(before.len(), 1, "Should have 1 line before");
    assert_eq!(after.len(), 1, "Should have 1 line after");
    assert!(before[0].1.contains("line2"), "Before should be line2");
    assert!(after[0].1.contains("line4"), "After should be line4");
}

#[test]
fn test_extract_context_lines_at_start() {
    let content = "line1\nline2\nline3\n";
    let lines = lines_of(content);

    let (before, after) = extract_context_from_lines(&lines, 1, 2, 1);

    assert!(before.is_empty(), "Should have no lines before line 1");
    assert_eq!(after.len(), 1, "Should have 1 line after");
}

#[test]
fn test_extract_context_lines_at_end() {
    let content = "line1\nline2\nline3\n";
    let lines = lines_of(content);

    let (before, after) = extract_context_from_lines(&lines, 3, 1, 2);

    assert_eq!(before.len(), 1, "Should have 1 line before");
    assert!(after.is_empty(), "Should have no lines after line 3");
}

#[test]
fn test_parse_language() {
    assert_eq!(parse_language("rust"), Language::Rust);
    assert_eq!(parse_language("rs"), Language::Rust);
    assert_eq!(parse_language("PYTHON"), Language::Python);
    assert_eq!(parse_language("Py"), Language::Python);
    assert_eq!(parse_language("javascript"), Language::JavaScript);
    assert_eq!(parse_language("JS"), Language::JavaScript);
    assert_eq!(parse_language("unknown_lang"), Language::Unknown);
}

#[test]
fn test_find_literal_matches_case_sensitive() {
    let content = "Hello World\nhello world\nHELLO WORLD\n";

    let matches = find_literal_matches(content, "Hello", true);

    assert_eq!(
        matches.len(),
        1,
        "Case-sensitive should find exactly 1 match"
    );
    assert_eq!(matches[0].0, 1, "Match should be on line 1");
}

#[test]
fn test_find_literal_matches_case_insensitive() {
    let content = "Hello World\nhello world\nHELLO WORLD\n";

    let matches = find_literal_matches(content, "hello", false);

    assert_eq!(
        matches.len(),
        3,
        "Case-insensitive should find all 3 matches"
    );
}

#[test]
fn test_find_literal_matches_first_per_line_and_columns() {
    let content = "foo foo foo\nbar\nFOO\n";

    let matches = find_literal_matches(content, "foo", false);

    // Only first match per line is reported
    assert_eq!(matches.len(), 2);
    assert_eq!(matches[0], (1, "foo foo foo".to_string(), 0, 3));
    assert_eq!(matches[1], (3, "FOO".to_string(), 0, 3));
}

#[test]
fn test_find_literal_matches_crlf() {
    let content = "alpha\r\nBETA gamma\r\ndelta\r\n";

    let matches = find_literal_matches(content, "beta", false);

    assert_eq!(matches.len(), 1);
    // Line content must not include the trailing \r
    assert_eq!(matches[0], (2, "BETA gamma".to_string(), 0, 4));
}

#[test]
fn test_find_literal_matches_no_trailing_newline() {
    let content = "first\nlast line match";

    let matches = find_literal_matches(content, "MATCH", false);

    assert_eq!(matches.len(), 1);
    assert_eq!(matches[0], (2, "last line match".to_string(), 10, 15));
}

#[test]
fn test_find_literal_matches_unicode() {
    let content = "héllo wörld\nplain ascii line\nHÉLLO again\n";

    let matches = find_literal_matches(content, "héllo", false);

    assert_eq!(matches.len(), 2);
    assert_eq!(matches[0].0, 1);
    assert_eq!(matches[1].0, 3);

    // ASCII needle in a file with non-ASCII lines (scratch-buffer path)
    let matches = find_literal_matches(content, "ASCII", false);
    assert_eq!(matches.len(), 1);
    assert_eq!(matches[0], (2, "plain ascii line".to_string(), 6, 11));
}

#[test]
fn test_find_proximity_matches_within_distance() {
    let content = "error here\nfiller\nfiller\nhandle it\n";

    // 3 lines apart, distance 3 → match reported on the first term's line
    let terms = vec!["error".to_string(), "handle".to_string()];
    let matches = find_proximity_matches(content, &terms, 3);
    assert_eq!(matches.len(), 1);
    assert_eq!(matches[0], (1, "error here".to_string(), 0, 5));

    // distance 2 → too far apart
    let matches = find_proximity_matches(content, &terms, 2);
    assert!(matches.is_empty());
}

#[test]
fn test_find_proximity_matches_missing_term() {
    let content = "error here\nsomething else\n";
    let terms = vec!["error".to_string(), "nonexistent".to_string()];

    let matches = find_proximity_matches(content, &terms, 10);
    assert!(matches.is_empty());
}

#[test]
fn test_find_proximity_matches_case_insensitive() {
    let content = "ERROR detected\nHANDLE this\n";
    let terms = vec!["error".to_string(), "handle".to_string()];

    let matches = find_proximity_matches(content, &terms, 5);
    assert_eq!(matches.len(), 1);
    assert_eq!(matches[0].0, 1);
}

// ========================================================================
// NOT operator executor tests
// ========================================================================

#[test]
fn test_verify_content_not_excludes() {
    // Content that DOES contain the negated term → no match
    let content = "fn main() {\n    println!(\"hello\");\n}\n";
    let verification =
        VerificationStep::Not(Box::new(VerificationStep::Literal("println".to_string())));

    let matches = verify_content(content, &verification);
    assert!(
        matches.is_empty(),
        "NOT should produce no matches when term is present"
    );
}

#[test]
fn test_verify_content_not_includes() {
    // Content that does NOT contain the negated term → match
    let content = "fn main() {\n    let x = 42;\n}\n";
    let verification =
        VerificationStep::Not(Box::new(VerificationStep::Literal("println".to_string())));

    let matches = verify_content(content, &verification);
    assert!(
        !matches.is_empty(),
        "NOT should produce a match when term is absent"
    );
}

#[test]
fn test_verify_content_and_with_not() {
    // "fn -println" → has fn, but NOT println
    let content_with_both = "fn main() { println!(\"hi\"); }";
    let content_without = "fn helper() { let x = 1; }";

    let verification = VerificationStep::And(vec![
        VerificationStep::Literal("fn".to_string()),
        VerificationStep::Not(Box::new(VerificationStep::Literal("println".to_string()))),
    ]);

    let matches_both =
        verify_content(content_with_both, &verification);
    assert!(
        matches_both.is_empty(),
        "Should NOT match when negated term is present"
    );

    let matches_without =
        verify_content(content_without, &verification);
    assert!(
        !matches_without.is_empty(),
        "Should match when negated term is absent"
    );
}

#[test]
fn test_executor_not_operator() {
    // The Exclude step now verifies candidates by reading file content before
    // excluding, preventing trigram false positives from causing over-exclusion.
    let mut files: Vec<(String, String)> = vec![
        (
            "has_excluded.rs".to_string(),
            "pub fn xyzabc_unique_marker() {\n    println!(\"hello\");\n}\n".to_string(),
        ),
        (
            "no_excluded.rs".to_string(),
            "pub fn xyzabc_unique_marker() {\n    let result = 42;\n}\n".to_string(),
        ),
    ];
    // Add padding files to ensure trigram index has some noise
    for i in 0..20 {
        files.push((
            format!("padding_{}.txt", i),
            format!("padding content number {} with various words\n", i),
        ));
    }
    let index = index_of(&files);

    let query = parse_query("xyzabc_unique_marker -println");
    let results = ranked(&index, &query).unwrap();

    // Must NOT contain files with "println"
    for result in &results {
        let path_str = &result.path;
        assert!(
            !path_str.contains("has_excluded"),
            "File with println should never appear in NOT results, got: {}",
            path_str
        );
    }

    // Must contain the file WITHOUT "println" (the fix ensures this)
    let has_no_excluded = results
        .iter()
        .any(|r| r.path.contains("no_excluded"));
    assert!(
        has_no_excluded,
        "File without println should appear in results (Exclude verification fix)"
    );
}

// ========================================================================
// Near (proximity) executor tests
// ========================================================================

#[test]
fn test_verify_content_near_within_distance() {
    // Terms on adjacent lines → within distance
    let content = "line1: function\nline2: return\nline3: end\n";
    let verification = VerificationStep::Near {
        terms: vec!["function".to_string(), "return".to_string()],
        distance: 2,
    };

    let matches = verify_content(content, &verification);
    assert!(
        !matches.is_empty(),
        "Near should match when terms are within distance"
    );
}

#[test]
fn test_verify_content_near_beyond_distance() {
    // Terms far apart → should NOT match
    let content = "line1: function\nline2: a\nline3: b\nline4: c\nline5: d\nline6: e\nline7: f\nline8: g\nline9: h\nline10: return\n";
    let verification = VerificationStep::Near {
        terms: vec!["function".to_string(), "return".to_string()],
        distance: 2,
    };

    let matches = verify_content(content, &verification);
    assert!(
        matches.is_empty(),
        "Near should NOT match when terms are beyond distance (9 lines apart, distance=2)"
    );
}

#[test]
fn test_verify_content_near_same_line() {
    // Both terms on the same line → always within distance
    let content = "fn main() { return 42; }\n";
    let verification = VerificationStep::Near {
        terms: vec!["main".to_string(), "return".to_string()],
        distance: 1,
    };

    let matches = verify_content(content, &verification);
    assert!(
        !matches.is_empty(),
        "Near should match when terms are on the same line"
    );
}

#[test]
fn test_verify_content_near_missing_term() {
    // One term is absent entirely → no match
    let content = "fn main() {\n    let x = 42;\n}\n";
    let verification = VerificationStep::Near {
        terms: vec!["main".to_string(), "nonexistent".to_string()],
        distance: 100,
    };

    let matches = verify_content(content, &verification);
    assert!(
        matches.is_empty(),
        "Near should NOT match when a term is missing"
    );
}

#[test]
fn test_executor_near_search() {
    let index = test_index();

    // "near:println,Hello,3" - should find main.rs where println and Hello are close
    let query = parse_query("near:println,Hello,3");
    let results = ranked(&index, &query);
    assert!(results.is_ok());
    let results = results.unwrap();
    assert!(
        results
            .iter()
            .any(|m| m.path.contains("main.rs")),
        "Should find main.rs where println and Hello are close together"
    );
}

// ========================================================================
// Size filter executor tests
// ========================================================================

#[test]
fn test_executor_size_filter_min() {
    let index = test_index();

    // Get actual file sizes for the test
    let main_size = size_of(&index, "main.rs");

    // Search with size filter larger than all files → no results
    let query = parse_query(&format!("size:>{} fn", main_size + 10000));
    let results = ranked(&index, &query).unwrap();
    assert!(results.is_empty(), "size:>huge should find no files");
}

#[test]
fn test_executor_size_filter_max() {
    let index = test_index();

    // Search with very small max size → should exclude most/all files
    let query = parse_query("size:<1 fn");
    let results = ranked(&index, &query).unwrap();
    assert!(
        results.is_empty(),
        "size:<1 should find no files (all files are > 0 bytes)"
    );
}

#[test]
fn test_executor_size_filter_range() {
    let index = test_index();

    // Get actual file sizes
    let main_size = size_of(&index, "main.rs");
    let lib_size = size_of(&index, "lib.rs");

    // Use a range that includes all our files
    let min_size = main_size.min(lib_size);
    let query = parse_query(&format!("size:>0 size:<{} fn", min_size + 1));
    let results = ranked(&index, &query).unwrap();

    // Should find at least the smallest file
    assert!(
        !results.is_empty(),
        "size range should find at least one file"
    );
}

// ========================================================================
// Mtime filter executor tests
// ========================================================================

#[test]
fn test_executor_mtime_filter_future() {
    let index = test_index();

    // mtime is stored as seconds (matching the query parser's interpretation)
    let future_secs = 4102444800u64; // year ~2100 in seconds
    let query = parse_query(&format!("ext:rs mtime:>{}", future_secs));
    let results = ranked(&index, &query).unwrap();
    assert!(
        results.is_empty(),
        "mtime filter in far future should find no files, got {} results",
        results.len()
    );
}

#[test]
fn test_executor_mtime_filter_past() {
    let index = test_index();

    // mtime is stored as seconds. Files modified after epoch → all files
    let query = parse_query("ext:rs mtime:>0");
    let results = ranked(&index, &query).unwrap();
    assert!(
        !results.is_empty(),
        "mtime:>0 should find files (all files were recently created)"
    );
}

#[test]
fn test_executor_mtime_filter_max_excludes_recent() {
    let index = test_index();

    // mtime is stored as seconds. max=1 second → excludes all recent files
    let query = parse_query("ext:rs mtime:<1");
    let results = ranked(&index, &query).unwrap();
    assert!(
        results.is_empty(),
        "mtime:<1 should find no files (all files are recently created)"
    );
}

#[test]
fn test_executor_mtime_filter_with_real_timestamp() {
    let index = test_index();

    // mtime is now stored as seconds, matching the parser's interpretation.
    // Use a real-world seconds timestamp (Jan 1, 2020) that all test files
    // (created just now) should be newer than.
    let query = parse_query("ext:rs mtime:>1577836800");
    let results = ranked(&index, &query).unwrap();
    assert!(
        !results.is_empty(),
        "mtime:>1577836800 (Jan 2020 in seconds) should find recently created files"
    );
}

// ========================================================================
// Line filter executor tests
// ========================================================================

#[test]
fn test_executor_line_filter() {
    let index = test_index();

    // Search for "fn" but only on line 1
    let query = parse_query("line:1 fn");
    let results = ranked(&index, &query).unwrap();

    // main.rs has "fn main()" on line 1, lib.rs has "pub fn add" on line 1
    // All matches should be on line 1
    for result in &results {
        assert_eq!(
            result.line_number, 1,
            "Line filter line:1 should only return matches on line 1, got line {}",
            result.line_number
        );
    }
}

#[test]
fn test_executor_line_filter_range() {
    let index = test_index();

    // Search for "fn" in lines 5-10
    let query = parse_query("line:5-10 fn");
    let results = ranked(&index, &query).unwrap();

    // All matches should be within the line range
    for result in &results {
        assert!(
            result.line_number >= 5 && result.line_number <= 10,
            "Line filter line:5-10 should only return matches in range, got line {}",
            result.line_number
        );
    }
}

#[test]
fn test_executor_line_filter_out_of_range() {
    let index = test_index();

    // Search for "fn" on line 1000 — none of our test files are that long
    let query = parse_query("line:1000 fn");
    let results = ranked(&index, &query).unwrap();
    assert!(
        results.is_empty(),
        "line:1000 should find no matches in small test files"
    );
}

// ========================================================================
// Regex executor tests
// ========================================================================

#[test]
fn test_executor_regex_search() {
    let index = test_index();

    let query = parse_query(r"re:/fn\s+\w+/");
    let results = ranked(&index, &query).unwrap();
    assert!(
        !results.is_empty(),
        r"Regex re:/fn\s+\w+/ should match function definitions"
    );
}

#[test]
fn test_executor_regex_no_match() {
    let index = test_index();

    let query = parse_query(r"re:/zzzznonexistent\d+/");
    let results = ranked(&index, &query).unwrap();
    assert!(
        results.is_empty(),
        "Regex with no matching content should return empty"
    );
}

#[test]
fn test_verify_content_regex_digits() {
    let content = "let x = 42;\nlet y = hello;\nlet z = 99;\n";
    let verification = VerificationStep::Regex(r"\d+".to_string());

    let matches = verify_content(content, &verification);
    assert_eq!(
        matches.len(),
        2,
        "Regex \\d+ should match lines with 42 and 99"
    );
}

#[test]
fn test_verify_content_regex_no_match() {
    let content = "hello world\nfoo bar\n";
    let verification = VerificationStep::Regex(r"\d+".to_string());

    let matches = verify_content(content, &verification);
    assert!(
        matches.is_empty(),
        "Regex \\d+ should not match text-only content"
    );
}

// ========================================================================
// Boost executor tests
// ========================================================================

#[test]
fn test_executor_boosted_search() {
    let index = test_index();

    // Boosted search should still find results (boost affects scoring, not filtering)
    let query = parse_query("^main");
    let results = ranked(&index, &query).unwrap();
    assert!(!results.is_empty(), "Boosted search should find results");
    assert!(
        results
            .iter()
            .any(|m| m.path.contains("main.rs")),
        "Should find main.rs"
    );
}

// ========================================================================
// OR executor tests
// ========================================================================

#[test]
fn test_verify_content_or_neither_match() {
    let content = "fn main() {\n    let x = 42;\n}\n";
    let verification = VerificationStep::Or(vec![
        VerificationStep::Literal("nonexistent1".to_string()),
        VerificationStep::Literal("nonexistent2".to_string()),
    ]);

    let matches = verify_content(content, &verification);
    assert!(
        matches.is_empty(),
        "OR with no matching terms should be empty"
    );
}

// ========================================================================
// Parenthesized / compound executor tests
// ========================================================================

#[test]
fn test_executor_grouped_or_with_and() {
    let index = test_index();

    // (println | multiply) fn → files containing fn AND (println OR multiply)
    let query = parse_query("(println | multiply) fn");
    let results = ranked(&index, &query).unwrap();
    assert!(
        !results.is_empty(),
        "Grouped OR with AND should find results"
    );
    // main.rs has println+fn, lib.rs has multiply+fn
    let paths: Vec<String> = results
        .iter()
        .map(|m| m.path.clone())
        .collect();
    assert!(
        paths.iter().any(|p| p.contains("main.rs")),
        "Should find main.rs (has println and fn)"
    );
}

// ========================================================================
// File/path filter executor tests
// ========================================================================

#[test]
fn test_executor_file_filter() {
    let index = test_index();

    let query = parse_query("file:main.rs fn");
    let results = ranked(&index, &query).unwrap();

    assert!(!results.is_empty(), "file:main.rs should find main.rs");
    for result in &results {
        assert!(
            file_name_of(&result.path)
                .map(|f| f == "main.rs")
                .unwrap_or(false),
            "All results should be from main.rs"
        );
    }
}

#[test]
fn test_executor_file_glob_filter() {
    let index = test_index();

    let query = parse_query("file:*.rs fn");
    let results = ranked(&index, &query).unwrap();

    assert!(!results.is_empty(), "file:*.rs should find .rs files");
    for result in &results {
        assert!(
            extension_of(&result.path) == "rs",
            "file:*.rs should only return .rs files"
        );
    }
    // Should NOT include utils.py
    assert!(
        !results
            .iter()
            .any(|m| m.path.contains(".py")),
        "file:*.rs should not include .py files"
    );
}

// ========================================================================
// Edge case: empty results
// ========================================================================

#[test]
fn test_executor_all_filters_combined_no_match() {
    let index = test_index();

    // ext:json with fn → config.json doesn't contain "fn"
    let query = parse_query("ext:json fn");
    let results = ranked(&index, &query).unwrap();
    assert!(
        results.is_empty(),
        "ext:json with fn should find nothing (json file has no fn)"
    );
}

#[test]
fn terms_are_near_each_other_and_not_just_the_first() {
    let content = "b\n\n\n\na\n\n\n\nc\n";
    let terms: Vec<String> = ["a", "b", "c"].map(|t| t.to_string()).to_vec();
    assert!(find_proximity_matches(content, &terms, 4).is_empty());
    assert!(find_proximity_matches(content, &terms, 7).is_empty());
    let found = find_proximity_matches(content, &terms, 8);
    assert_eq!(found.iter().map(|m| m.0).collect::<Vec<_>>(), [5]);
    // Of several lines with a term, any may be the one that counts.
    let content = "b\na\nb\nc\n";
    let found = find_proximity_matches(content, &terms, 2);
    assert_eq!(found.iter().map(|m| m.0).collect::<Vec<_>>(), [2]);
    assert!(find_proximity_matches(content, &terms, 1).is_empty());
}

fn plain_document(path: &str, text: &str) -> Document {
    Document {
        path: path.to_string(),
        language: Language::Unknown,
        size: text.len() as u64,
        mtime: 1,
        valid: true,
        content: Some(text.to_string()),
    }
}

/// The paths that a query finds, by content or by name.
fn paths_found(index: &Index, text: &str) -> Vec<String> {
    let mut paths: Vec<String> =
        ranked(index, &parse_query(text)).unwrap().into_iter().map(|m| m.path).collect();
    paths.sort();
    paths
}

#[test]
fn names_are_found_among_the_files_that_a_query_is_about() {
    let index = Index::new(vec![
        plain_document("lib.rs", "fn a() {}\n"),
        plain_document("utils.py", "def b(): pass\n"),
    ]);
    assert!(paths_found(&index, "ext:rs utils").is_empty());
    assert_eq!(paths_found(&index, "ext:py utils"), ["utils.py"]);
    assert_eq!(paths_found(&index, "utils"), ["utils.py"]);
    // A file that the query excludes is not found by its name either.
    assert!(paths_found(&index, "utils -pass").is_empty());
    assert_eq!(paths_found(&index, "utils -fail"), ["utils.py"]);
    // A name stands for the first line.
    assert!(paths_found(&index, "line:2-9 utils").is_empty());
    assert_eq!(paths_found(&index, "line:1-9 utils"), ["utils.py"]);
    let mut scoped = parse_query("utils");
    scoped.filters.search_scope = Some("sub".to_string());
    assert!(ranked(&index, &scoped).unwrap().is_empty());
}

#[test]
fn names_are_found_without_a_limit() {
    let index = Index::new(vec![
        plain_document("a/utils.py", "x\n"),
        plain_document("b/utils.py", "x\n"),
        plain_document("c/utils.py", "x\n"),
    ]);
    assert_eq!(paths_found(&index, "utils top:0").len(), 3);
    assert_eq!(paths_found(&index, "utils top:2").len(), 2);
}
