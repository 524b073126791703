//! Reading queries.
use fxi::query::ast::{
    Boost, QueryFilters, QueryNode, SortOrder, MAX_QUERY_BYTES, MAX_QUERY_NODES,
};
use fxi::query::calendar::parse_date;
use fxi::query::parser::{parse_query, try_parse_query};
use fxi::text::chars_of;

/// The number that a boost stands for.
fn factor(boost: &Boost) -> f32 {
    boost.text.parse().unwrap()
}

#[test]
fn strict_parser_rejects_malformed_scoped_and_unbounded_queries() {
    for input in [
        "foo) bar",
        "(foo",
        "()",
        "foo |",
        "| foo",
        "-",
        "^",
        "\"unclosed",
        "re:/foo",
        "ext:",
        "ext:rs | ext:py",
        "-ext:rs",
        "(ext:rs foo)",
        "^ext:rs",
        "ext:rs ext:py",
        "size:bogus",
        "size:>18446744073709551615",
        "size:<0",
        "line:0",
        "line:3-2",
        "line:2-x",
        "mtime:2026-02-31",
        "mtime:2100-02-29",
        "mtime:18446744073709551615",
        "mtime:2026-01-01-extra",
        "sort:nope",
        "top:abc",
        "path:[",
        "file:[",
        "lang:nonesuch",
        "near:foo",
        "near:foo,,2",
        "^99999999999999999999999999999999999999999999999999999:foo",
    ] {
        assert!(try_parse_query(input).is_err(), "{input}");
        assert!(parse_query(input).validate().is_err(), "legacy: {input}");
    }
    let nested = format!("{}foo{}", "(".repeat(10000), ")".repeat(10000));
    let wide = "foo ".repeat(MAX_QUERY_NODES + 1);
    let large = "x".repeat(MAX_QUERY_BYTES + 1);
    for input in [&nested, &wide, &large] {
        assert!(try_parse_query(input).is_err());
        assert!(parse_query(input).validate().is_err());
    }
    assert!(try_parse_query("ext:rs (foo | bar) top:7").is_ok());
    assert!(try_parse_query("foo | bar top:7").is_ok());
}

#[test]
fn punctuation_and_delimiters_preserve_literal_intent() {
    for input in [
        "foo-bar",
        "foo.bar",
        "foo()",
        "foo(bar)",
        "std::vector",
        "src/foo.rs",
    ] {
        assert!(
            matches!(try_parse_query(input).unwrap().root,QueryNode::Literal(s) if s==input),
            "{input}"
        );
    }
    assert!(
        matches!(try_parse_query(r#""a\"b\\c""#).unwrap().root,QueryNode::Phrase(s) if s=="a\"b\\c")
    );
    for (input, expected) in [
        (r"re:/foo\/bar/", "foo/bar"),
        (r"re:/[/]/", "[/]"),
        (r"re:/[]/]/", "[]/]"),
        (r"re:/[^]/]/", "[^]/]"),
        (r"re:/(?x)[ ]/]/", "(?x)[ ]/]"),
        (r"re:/foo\\/", r"foo\\"),
    ] {
        assert!(
            matches!(try_parse_query(input).unwrap().root,QueryNode::Regex(s) if s==expected),
            "{input}"
        );
    }
    assert_eq!(
        try_parse_query(r#"path:"with space/*.rs" foo"#)
            .unwrap()
            .filters
            .path
            .as_deref(),
        Some("with space/*.rs")
    );
}

#[test]
fn calendar_and_comparison_bounds_are_exact() {
    assert_eq!(parse_date(&chars_of("1970-01-01")), Some(0));
    assert_eq!(parse_date(&chars_of("2000-03-01")), Some(951868800));
    assert_eq!(parse_date(&chars_of("2101-03-01")), Some(4139078400));
    assert_eq!(parse_date(&chars_of("2400-02-29")), Some(13574563200));
    let q = try_parse_query("mtime:2026-09-18 size:>8 size:<10").unwrap();
    assert_eq!(q.filters.size_min, Some(9));
    assert_eq!(q.filters.size_max, Some(9));
    assert_eq!(
        q.filters.mtime_max.unwrap() - q.filters.mtime_min.unwrap(),
        86399
    );
    assert!(try_parse_query("top:0 foo").unwrap().options.explicit_limit);
    assert!(!try_parse_query("foo").unwrap().options.explicit_limit);
}

#[test]
fn word_mode_preserves_literal_case_and_structural_boolean_meaning() {
    let mut query = try_parse_query(r#"(foo-bar | "Exact Case") -re:/skip\/this/"#).unwrap();
    query.apply_word_boundaries().unwrap();
    let QueryNode::And(nodes) = query.root else {
        panic!("expected AND")
    };
    let QueryNode::Or(branches) = &nodes[0] else {
        panic!("expected OR")
    };
    assert!(matches!(&branches[0],QueryNode::Regex(s) if s==r"(?i:\b(?:foo\-bar)\b)"));
    assert!(matches!(&branches[1],QueryNode::Regex(s) if s==r"\b(?:Exact Case)\b"));
    assert!(
        try_parse_query("^2:foo")
            .unwrap()
            .apply_word_boundaries()
            .is_err()
    );
    assert!(
        try_parse_query("near:foo,bar")
            .unwrap()
            .apply_word_boundaries()
            .is_err()
    );
}

#[test]
fn test_simple_query() {
    let q = parse_query("hello");
    assert!(matches!(q.root, QueryNode::Literal(s) if s == "hello"));
}

#[test]
fn test_phrase_query() {
    let q = parse_query("\"hello world\"");
    assert!(matches!(q.root, QueryNode::Phrase(s) if s == "hello world"));
}

#[test]
fn test_and_query() {
    let q = parse_query("foo bar");
    assert!(matches!(q.root, QueryNode::And(_)));
}

#[test]
fn test_or_query() {
    let q = parse_query("foo | bar");
    assert!(matches!(q.root, QueryNode::Or(_)));
}

#[test]
fn test_not_query() {
    let q = parse_query("-test");
    assert!(matches!(q.root, QueryNode::Not(_)));
}

#[test]
fn test_field_filter() {
    let q = parse_query("ext:rs foo");
    assert_eq!(q.filters.ext, Some("rs".to_string()));
}

#[test]
fn test_regex() {
    let q = parse_query("re:/foo.*bar/");
    assert!(matches!(q.root, QueryNode::Regex(_)));
}

#[test]
fn test_mtime_filter_min() {
    let q = parse_query("mtime:>1704067200 test");
    assert_eq!(q.filters.mtime_min, Some(1704067201));
    assert!(q.filters.mtime_max.is_none());
}

#[test]
fn test_mtime_filter_max() {
    let q = parse_query("mtime:<1704067200 test");
    assert_eq!(q.filters.mtime_max, Some(1704067199));
    assert!(q.filters.mtime_min.is_none());
}

#[test]
fn test_mtime_filter_date() {
    let q = parse_query("mtime:2024-01-01 test");
    assert!(q.filters.mtime_min.is_some());
    assert!(q.filters.mtime_max.is_some());
    // Inclusive upper bound ends one second before the next day.
    assert_eq!(
        q.filters.mtime_max.unwrap() - q.filters.mtime_min.unwrap(),
        86399
    );
}

#[test]
fn test_near_query() {
    let q = parse_query("near:function,return,10");
    assert!(
        matches!(q.root, QueryNode::Near { ref terms, distance } if terms.len() == 2 && distance == 10)
    );
}

#[test]
fn test_near_query_default_distance() {
    // If no valid distance is parsed, all elements are terms with default distance 10
    let q = parse_query("near:foo,bar,abc");
    assert!(
        matches!(q.root, QueryNode::Near { ref terms, distance } if terms.len() == 3 && distance == 10)
    );
}

#[test]
fn test_boost_simple() {
    let q = parse_query("^test");
    assert!(
        matches!(q.root, QueryNode::BoostedLiteral { ref text, ref boost } if text == "test" && factor(boost) == 2.0)
    );
}

#[test]
fn test_boost_with_value() {
    let q = parse_query("^3:important");
    assert!(
        matches!(q.root, QueryNode::BoostedLiteral { ref text, ref boost } if text == "important" && factor(boost) == 3.0)
    );
}

#[test]
fn test_boost_float_value() {
    let q = parse_query("^1.5:term");
    assert!(
        matches!(q.root, QueryNode::BoostedLiteral { ref text, ref boost } if text == "term" && (factor(boost) - 1.5).abs() < 0.01)
    );
}

#[test]
fn test_line_filter_single() {
    let q = parse_query("line:100 test");
    assert_eq!(q.filters.line_start, Some(100));
    assert_eq!(q.filters.line_end, Some(100));
}

#[test]
fn test_line_filter_range() {
    let q = parse_query("line:100-200 test");
    assert_eq!(q.filters.line_start, Some(100));
    assert_eq!(q.filters.line_end, Some(200));
}

#[test]
fn test_combined_filters() {
    let q = parse_query("ext:rs path:src mtime:>1704067200 ^important");
    assert_eq!(q.filters.ext, Some("rs".to_string()));
    assert_eq!(q.filters.path, Some("src".to_string()));
    assert_eq!(q.filters.mtime_min, Some(1704067201));
    // The query root contains the boosted term (filters produce Empty nodes that get filtered)
    match &q.root {
        QueryNode::BoostedLiteral { text, boost } => {
            assert_eq!(text, "important");
            assert!((factor(boost) - 2.0).abs() < 0.01);
        }
        QueryNode::And(nodes) => {
            // Should contain a BoostedLiteral among the nodes
            let has_boosted = nodes.iter().any(
                |n| matches!(n, QueryNode::BoostedLiteral { text, .. } if text == "important"),
            );
            assert!(has_boosted, "Expected BoostedLiteral in And nodes");
        }
        _ => panic!("Expected BoostedLiteral or And node"),
    }
}

#[test]
fn test_file_filter_exact() {
    let q = parse_query("file:main.rs");
    assert_eq!(q.filters.filename, Some("main.rs".to_string()));
    assert!(matches!(q.root, QueryNode::Empty));
}

#[test]
fn test_file_filter_glob() {
    let q = parse_query("file:*.rs");
    assert_eq!(q.filters.filename, Some("*.rs".to_string()));
}

#[test]
fn test_file_filter_with_search_term() {
    let q = parse_query("file:main.rs fn main");
    assert_eq!(q.filters.filename, Some("main.rs".to_string()));
    // Should have a search term in root
    assert!(!matches!(q.root, QueryNode::Empty));
}

#[test]
fn test_name_filter_alias() {
    // name: is an alias for file:
    let q = parse_query("name:test.rs");
    assert_eq!(q.filters.filename, Some("test.rs".to_string()));
}

#[test]
fn test_path_filter_simple() {
    let q = parse_query("path:src/lib.rs");
    assert_eq!(q.filters.path, Some("src/lib.rs".to_string()));
}

#[test]
fn test_path_filter_glob() {
    let q = parse_query("path:src/**/*.rs");
    assert_eq!(q.filters.path, Some("src/**/*.rs".to_string()));
}

#[test]
fn test_lang_filter() {
    let q = parse_query("lang:rust test");
    assert_eq!(q.filters.lang, Some("rust".to_string()));
}

#[test]
fn test_lang_filter_aliases() {
    // Test various language aliases
    let q1 = parse_query("lang:rs");
    assert_eq!(q1.filters.lang, Some("rs".to_string()));

    let q2 = parse_query("lang:python");
    assert_eq!(q2.filters.lang, Some("python".to_string()));

    let q3 = parse_query("lang:js");
    assert_eq!(q3.filters.lang, Some("js".to_string()));
}

#[test]
fn test_size_filter_min() {
    let q = parse_query("size:>1000 test");
    assert_eq!(q.filters.size_min, Some(1001));
    assert_eq!(q.filters.size_max, None);
}

#[test]
fn test_size_filter_max() {
    let q = parse_query("size:<5000 test");
    assert_eq!(q.filters.size_min, None);
    assert_eq!(q.filters.size_max, Some(4999));
}

#[test]
fn test_size_filter_both() {
    let q = parse_query("size:>100 size:<10000 test");
    assert_eq!(q.filters.size_min, Some(101));
    assert_eq!(q.filters.size_max, Some(9999));
}

#[test]
fn test_sort_score() {
    let q = parse_query("sort:score test");
    assert_eq!(q.options.sort, SortOrder::Score);
}

#[test]
fn test_sort_recency() {
    let q = parse_query("sort:recency test");
    assert_eq!(q.options.sort, SortOrder::Recency);
}

#[test]
fn test_sort_path() {
    let q = parse_query("sort:path test");
    assert_eq!(q.options.sort, SortOrder::Path);
}

#[test]
fn test_top_limit() {
    let q = parse_query("top:50 test");
    assert_eq!(q.options.limit, 50);
}

#[test]
fn test_top_limit_zero() {
    // top:0 means unlimited
    let q = parse_query("top:0 test");
    assert_eq!(q.options.limit, 0); // 0 = unlimited
}

#[test]
fn test_query_is_empty_no_filters() {
    let q = parse_query("");
    assert!(q.is_empty());
}

#[test]
fn test_query_is_empty_with_search_term() {
    let q = parse_query("test");
    assert!(!q.is_empty());
}

#[test]
fn test_query_is_empty_with_filter_only() {
    // file: filter only - should NOT be empty
    let q = parse_query("file:main.rs");
    assert!(!q.is_empty(), "Query with file filter should not be empty");
}

#[test]
fn test_query_is_empty_with_ext_filter_only() {
    let q = parse_query("ext:rs");
    assert!(!q.is_empty(), "Query with ext filter should not be empty");
}

#[test]
fn test_query_is_empty_with_path_filter_only() {
    let q = parse_query("path:src/*");
    assert!(!q.is_empty(), "Query with path filter should not be empty");
}

#[test]
fn test_filters_has_any_empty() {
    let filters = QueryFilters::default();
    assert!(!filters.has_any());
}

#[test]
fn test_filters_has_any_with_filename() {
    let filters = QueryFilters {
        filename: Some("test.rs".to_string()),
        ..Default::default()
    };
    assert!(filters.has_any());
}

#[test]
fn test_filters_has_any_with_ext() {
    let filters = QueryFilters {
        ext: Some("rs".to_string()),
        ..Default::default()
    };
    assert!(filters.has_any());
}

#[test]
fn test_filters_has_any_with_size() {
    let filters = QueryFilters {
        size_min: Some(100),
        ..Default::default()
    };
    assert!(filters.has_any());
}

#[test]
fn test_complex_query_with_multiple_filters() {
    let q =
        parse_query("file:*.rs ext:rs lang:rust size:>100 path:src/* sort:recency top:20 test");
    assert_eq!(q.filters.filename, Some("*.rs".to_string()));
    assert_eq!(q.filters.ext, Some("rs".to_string()));
    assert_eq!(q.filters.lang, Some("rust".to_string()));
    assert_eq!(q.filters.size_min, Some(101));
    assert_eq!(q.filters.path, Some("src/*".to_string()));
    assert_eq!(q.options.sort, SortOrder::Recency);
    assert_eq!(q.options.limit, 20);
    assert!(!q.is_empty());
}

#[test]
fn test_mtime_filter_both() {
    let q = parse_query("mtime:>1700000000 mtime:<1710000000 test");
    assert_eq!(q.filters.mtime_min, Some(1700000001));
    assert_eq!(q.filters.mtime_max, Some(1709999999));
}

// ========================================================================
// Parenthesized grouping tests
// ========================================================================

#[test]
fn test_paren_simple_or_group() {
    // (foo | bar) baz → And([Or([foo, bar]), baz])
    let q = parse_query("(foo | bar) baz");
    match &q.root {
        QueryNode::And(nodes) => {
            assert_eq!(nodes.len(), 2);
            assert!(matches!(&nodes[0], QueryNode::Or(inner) if inner.len() == 2));
            assert!(matches!(&nodes[1], QueryNode::Literal(s) if s == "baz"));
        }
        _ => panic!("Expected And node, got {:?}", q.root),
    }
}

#[test]
fn test_paren_nested() {
    // ((a | b) | c) → Or([Or([a, b]), c])
    let q = parse_query("((a | b) | c)");
    match &q.root {
        QueryNode::Or(nodes) => {
            assert_eq!(nodes.len(), 2);
            assert!(matches!(&nodes[0], QueryNode::Or(inner) if inner.len() == 2));
            assert!(matches!(&nodes[1], QueryNode::Literal(s) if s == "c"));
        }
        _ => panic!("Expected Or node, got {:?}", q.root),
    }
}

#[test]
fn test_paren_with_not() {
    // (foo | bar) -baz → And([Or([foo, bar]), Not(baz)])
    let q = parse_query("(foo | bar) -baz");
    match &q.root {
        QueryNode::And(nodes) => {
            assert_eq!(nodes.len(), 2);
            assert!(matches!(&nodes[0], QueryNode::Or(_)));
            assert!(matches!(&nodes[1], QueryNode::Not(_)));
        }
        _ => panic!("Expected And node, got {:?}", q.root),
    }
}

#[test]
fn test_paren_empty() {
    // Empty groups are rejected.
    let q = parse_query("()");
    assert!(matches!(q.root, QueryNode::Invalid(_)));
}

#[test]
fn test_paren_unclosed() {
    // Unclosed groups retain a safe error for legacy executor callers.
    let q = parse_query("(foo | bar");
    assert!(matches!(q.root, QueryNode::Invalid(_)));
}

#[test]
fn test_paren_multiple_groups() {
    // (a | b) (c | d) → And([Or([a, b]), Or([c, d])])
    let q = parse_query("(a | b) (c | d)");
    match &q.root {
        QueryNode::And(nodes) => {
            assert_eq!(nodes.len(), 2);
            assert!(matches!(&nodes[0], QueryNode::Or(_)));
            assert!(matches!(&nodes[1], QueryNode::Or(_)));
        }
        _ => panic!("Expected And node, got {:?}", q.root),
    }
}

#[test]
fn test_paren_with_phrase_inside() {
    // ("hello world" | bar) → Or([Phrase, Literal])
    let q = parse_query("(\"hello world\" | bar)");
    match &q.root {
        QueryNode::Or(nodes) => {
            assert_eq!(nodes.len(), 2);
            assert!(matches!(&nodes[0], QueryNode::Phrase(s) if s == "hello world"));
            assert!(matches!(&nodes[1], QueryNode::Literal(s) if s == "bar"));
        }
        _ => panic!("Expected Or node, got {:?}", q.root),
    }
}

// ========================================================================
// NOT operator edge cases
// ========================================================================

#[test]
fn test_not_with_and() {
    // foo -bar → And([Literal(foo), Not(Literal(bar))])
    let q = parse_query("foo -bar");
    match &q.root {
        QueryNode::And(nodes) => {
            assert_eq!(nodes.len(), 2);
            assert!(matches!(&nodes[0], QueryNode::Literal(s) if s == "foo"));
            match &nodes[1] {
                QueryNode::Not(inner) => {
                    assert!(matches!(inner.as_ref(), QueryNode::Literal(s) if s == "bar"));
                }
                _ => panic!("Expected Not node"),
            }
        }
        _ => panic!("Expected And node, got {:?}", q.root),
    }
}

#[test]
fn test_not_multiple() {
    // foo -bar -baz → And([foo, Not(bar), Not(baz)])
    let q = parse_query("foo -bar -baz");
    match &q.root {
        QueryNode::And(nodes) => {
            assert_eq!(nodes.len(), 3);
            assert!(matches!(&nodes[0], QueryNode::Literal(s) if s == "foo"));
            assert!(matches!(&nodes[1], QueryNode::Not(_)));
            assert!(matches!(&nodes[2], QueryNode::Not(_)));
        }
        _ => panic!("Expected And node, got {:?}", q.root),
    }
}

// ========================================================================
// Regex edge cases
// ========================================================================

#[test]
fn test_regex_with_special_chars() {
    let q = parse_query(r"re:/fn\s+\w+/");
    match &q.root {
        QueryNode::Regex(pat) => assert_eq!(pat, r"fn\s+\w+"),
        _ => panic!("Expected Regex node, got {:?}", q.root),
    }
}

#[test]
fn test_regex_empty() {
    let q = parse_query("re://");
    match &q.root {
        QueryNode::Regex(pat) => assert!(pat.is_empty()),
        _ => panic!("Expected Regex node, got {:?}", q.root),
    }
}

#[test]
fn test_regex_with_filter() {
    let q = parse_query("ext:rs re:/TODO.*fix/");
    assert_eq!(q.filters.ext, Some("rs".to_string()));
    // Filter produces Empty node, combined with Regex → And([Empty, Regex])
    match &q.root {
        QueryNode::Regex(pat) => assert_eq!(pat, "TODO.*fix"),
        QueryNode::And(nodes) => {
            let has_regex = nodes
                .iter()
                .any(|n| matches!(n, QueryNode::Regex(pat) if pat == "TODO.*fix"));
            assert!(
                has_regex,
                "Should contain Regex node in And, got {:?}",
                nodes
            );
        }
        _ => panic!("Expected Regex or And node, got {:?}", q.root),
    }
}

// ========================================================================
// Near edge cases
// ========================================================================

#[test]
fn test_near_single_term_becomes_empty() {
    // near:foo has no commas, so parts.len() < 2 → Empty
    let q = parse_query("near:foo");
    assert!(
        matches!(&q.root, QueryNode::Invalid(_)),
        "Single-term near (no commas) should be rejected, got {:?}",
        q.root
    );
}

#[test]
fn test_near_two_terms_no_distance_becomes_literal() {
    // near:foo,bar - last element parses as non-numeric, so all are terms with default distance
    let q = parse_query("near:foo,bar");
    assert!(
        matches!(&q.root, QueryNode::Near { terms, distance } if terms.len() == 2 && *distance == 10),
        "Two terms without numeric distance should use default distance 10, got {:?}",
        q.root
    );
}

#[test]
fn test_near_with_other_terms() {
    // near:a,b,3 extra → And([Near{...}, Literal(extra)])
    let q = parse_query("near:a,b,3 extra");
    match &q.root {
        QueryNode::And(nodes) => {
            assert_eq!(nodes.len(), 2);
            assert!(
                matches!(&nodes[0], QueryNode::Near { terms, distance } if terms.len() == 2 && *distance == 3)
            );
            assert!(matches!(&nodes[1], QueryNode::Literal(s) if s == "extra"));
        }
        _ => panic!("Expected And node, got {:?}", q.root),
    }
}

// ========================================================================
// Boost edge cases
// ========================================================================

#[test]
fn test_boost_zero() {
    let q = parse_query("^0:term");
    assert!(
        matches!(&q.root, QueryNode::BoostedLiteral { text, boost } if text == "term" && factor(boost) == 0.0)
    );
}

#[test]
fn test_boost_on_phrase() {
    let q = parse_query("^3:\"exact phrase\"");
    assert!(
        matches!(&q.root, QueryNode::BoostedPhrase { text, boost } if text == "exact phrase" && factor(boost) == 3.0)
    );
}

// ========================================================================
// Line filter edge cases
// ========================================================================

#[test]
fn test_line_filter_zero() {
    let q = parse_query("line:0 test");
    assert!(matches!(q.root, QueryNode::Invalid(_)));
}

#[test]
fn test_line_filter_reversed_range() {
    // Reversed line ranges are rejected.
    let q = parse_query("line:200-100 test");
    assert!(matches!(q.root, QueryNode::Invalid(_)));
}

// ========================================================================
// Size filter edge cases
// ========================================================================

#[test]
fn test_size_filter_zero() {
    let q = parse_query("size:>0 test");
    assert_eq!(q.filters.size_min, Some(1));
}

#[test]
fn test_size_filter_invalid() {
    // Invalid size value should be ignored
    let q = parse_query("size:>abc test");
    assert_eq!(q.filters.size_min, None);
}

// ========================================================================
// Unknown field edge cases
// ========================================================================

#[test]
fn test_unknown_field_treated_as_literal() {
    let q = parse_query("foo:bar");
    assert!(matches!(&q.root, QueryNode::Literal(s) if s == "foo:bar"));
}

// ========================================================================
// Empty / whitespace edge cases
// ========================================================================

#[test]
fn test_whitespace_only() {
    let q = parse_query("   ");
    assert!(q.is_empty());
}

#[test]
fn test_only_filters_no_search_term() {
    let q = parse_query("ext:rs lang:rust");
    assert_eq!(q.filters.ext, Some("rs".to_string()));
    assert_eq!(q.filters.lang, Some("rust".to_string()));
    // Each filter returns Empty node; two Empties → And([Empty, Empty])
    // The query is NOT considered empty because filters are set
    assert!(!q.is_empty());
}
