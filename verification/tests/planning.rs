//! From queries to plans.
use fxi::query::parser::{parse_query, try_parse_query};
use fxi::query::plan::{PlanStep, QueryPlan, VerificationStep};
use fxi::query::regex_plan::{
    bytes_to_trigram, is_line_local, product, regex_steps, trigrams_of,
};

#[test]
fn plans_non_prefix_and_insensitive_constraints() {
    for pattern in [
        ".*needle",
        "needle|other",
        "(?i)serverassert",
        "[aA]bc",
        "foo.*bar",
    ] {
        assert!(!regex_steps(pattern).is_empty(), "{pattern}");
    }
    for pattern in ["x|needle", "(?:needle)?", ".*", "[a-z]", "a?"] {
        assert!(regex_steps(pattern).is_empty(), "{pattern}");
    }
}

#[test]
fn insensitive_phrases_keep_unicode_verification() {
    let mut query = parse_query("\"static void\"");
    query.options.case_insensitive = true;
    let plan = QueryPlan::from_query(&query);
    assert!(!plan.steps.is_empty());
    assert!(matches!(
        plan.verification,
        Some(VerificationStep::Phrase {
            case_insensitive: true,
            ..
        })
    ));
}

#[test]
fn whole_buffer_existence_has_the_same_answer_as_line_verification() {
    let patterns = [
        "needle",
        "(?i)needle",
        "foo|bar",
        "[a-z]+",
        "[^\\r\\n]+",
        "",
        "a*",
        "^foo$",
        "\\Afoo",
        "bar\\z",
        "\\bfoo\\b",
        "foo.bar",
        "(?s)foo.bar",
        "foo\\nbar",
        "foo\\r",
        "[\\s]",
        "[^x]",
        "foo(?:)",
    ];
    let contents = [
        "",
        "\n",
        "foo\r\nbar\n",
        "needle",
        "NEEDLE\n",
        "foo\nbar",
        "xfoo\rbar",
        "foo\r",
        "foo bar",
        "K foo",
        "unrelated",
    ];
    for pattern in patterns {
        let regex = regex::Regex::new(pattern).unwrap();
        if is_line_local(pattern) {
            for content in contents {
                assert_eq!(
                    regex.is_match(content),
                    content.lines().any(|line| regex.is_match(line)),
                    "{pattern:?} in {content:?}"
                );
            }
        }
    }
    assert!(is_line_local("needle(?:)"));
    assert!(is_line_local("(?i)serverassert"));
    assert!(!is_line_local("^foo$"));
    assert!(!is_line_local("a*"));
    assert!(!is_line_local("foo.bar")); // dot can consume a stripped CR
}

#[test]
fn a_literal_is_narrowed_by_its_trigrams() {
    let steps = regex_steps("abcd");
    assert_eq!(steps.len(), 1);
    match &steps[0] {
        PlanStep::TrigramIntersect(grams) => {
            assert_eq!(
                *grams,
                vec![bytes_to_trigram(97, 98, 99), bytes_to_trigram(98, 99, 100)]
            );
        }
        other => panic!("{other:?}"),
    }
    assert_eq!(bytes_to_trigram(97, 98, 99), 0x616263);
    assert_eq!(trigrams_of(&b"aaaa".to_vec()), vec![0x616161]);
}

#[test]
fn a_pattern_that_does_not_parse_narrows_nothing() {
    assert!(regex_steps("(").is_empty());
    assert!(!is_line_local("("));
}

#[test]
fn products_are_bounded() {
    let bytes = |s: &str| s.as_bytes().to_vec();
    let left = vec![bytes("a"), bytes("b")];
    let right = vec![bytes("x"), bytes("y")];
    assert_eq!(
        product(&left, &right),
        Some(vec![bytes("ax"), bytes("ay"), bytes("bx"), bytes("by")])
    );
    let many: Vec<Vec<u8>> = (0u8..5).map(|b| vec![b]).collect();
    assert_eq!(product(&many, &many), None);
}

#[test]
fn alternatives_become_a_union_and_negation_an_exclusion() {
    let plan = QueryPlan::from_query(&try_parse_query("needle | other").unwrap());
    assert!(matches!(&plan.steps[..], [PlanStep::Union(plans)] if plans.len() == 2));
    assert!(matches!(&plan.verification, Some(VerificationStep::Or(v)) if v.len() == 2));
    let plan = QueryPlan::from_query(&try_parse_query("needle -other").unwrap());
    assert!(plan.steps.iter().any(|s| matches!(s, PlanStep::Exclude(_))));
    assert!(matches!(&plan.verification, Some(VerificationStep::And(v)) if v.len() == 2));
}

#[test]
fn filters_come_last() {
    let plan = QueryPlan::from_query(&try_parse_query("ext:rs needle line:3-5").unwrap());
    match plan.steps.last() {
        Some(PlanStep::Filter(f)) => {
            assert_eq!(f.extension.as_deref(), Some("rs"));
            assert_eq!((f.line_start, f.line_end), (Some(3), Some(5)));
        }
        other => panic!("{other:?}"),
    }
}
