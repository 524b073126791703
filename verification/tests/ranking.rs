//! Ranking: names, depths, boosts, and keeping the best.
use fxi::query::boost::{boost_is_less, extract_boost};
use fxi::query::parser::parse_query;
use fxi::query::plan::QueryPlan;
use fxi::query::ranking::{extract_search_terms, filename_matches_terms, path_depth, term_in_filename};
use fxi::query::wand::{TopKEntry, TopKHeap, WandCandidate, WandProcessor, WandStats};

/// The key of a score: keys of scores of at least zero are in the same order.
fn key(score: f32) -> u32 {
    score.to_bits()
}

fn entry(score: f32, doc_id: u32, path: &str) -> TopKEntry {
    TopKEntry { score: key(score), doc_id, path: path.to_string(), mtime: 0, matches: vec![] }
}

fn candidate(doc_id: u32, name: &str, upper_bound: f32) -> WandCandidate {
    WandCandidate {
        doc_id,
        full_path: format!("/{name}"),
        rel_path: name.to_string(),
        mtime: 0,
        upper_bound: key(upper_bound),
        depth: 1,
    }
}

#[test]
fn test_term_in_filename() {
    let path = "src/query/executor.rs";
    assert!(term_in_filename(path, "executor"));
    assert!(term_in_filename(path, "EXECUTOR")); // case insensitive
    assert!(!term_in_filename(path, "parser"));
}

#[test]
fn test_path_depth() {
    let path1 = "file.rs";
    let path2 = "src/file.rs";
    let path3 = "src/query/executor.rs";

    assert_eq!(path_depth(path1), 1);
    assert_eq!(path_depth(path2), 2);
    assert_eq!(path_depth(path3), 3);
}

#[test]
fn test_top_k_heap_basic() {
    let mut heap = TopKHeap::new(3);

    // Initially threshold is 0
    assert_eq!(heap.threshold(), key(0.0));
    assert!(!heap.is_full());

    // Add entries
    heap.try_insert(entry(1.0, 1, "a.txt"));
    heap.try_insert(entry(3.0, 2, "b.txt"));
    heap.try_insert(entry(2.0, 3, "c.txt"));

    // Now full, threshold is minimum = 1.0
    assert!(heap.is_full());
    assert_eq!(heap.threshold(), key(1.0));

    // Try to insert something worse - should fail
    let inserted = heap.try_insert(entry(0.5, 4, "d.txt"));
    assert!(!inserted);
    assert_eq!(heap.len(), 3);

    // Insert something better - should succeed and evict lowest
    let inserted = heap.try_insert(entry(4.0, 5, "e.txt"));
    assert!(inserted);
    assert_eq!(heap.len(), 3);
    assert_eq!(heap.threshold(), key(2.0)); // 1.0 was evicted

    // Get sorted results
    let results = heap.into_sorted_vec();
    assert_eq!(results.len(), 3);
    assert_eq!(results[0].score, key(4.0));
    assert_eq!(results[1].score, key(3.0));
    assert_eq!(results[2].score, key(2.0));
}

#[test]
fn test_wand_candidate_ordering() {
    let mut processor = WandProcessor::new(3);

    processor.add_candidate(candidate(1, "a", 1.0));
    processor.add_candidate(candidate(2, "b", 3.0));
    processor.add_candidate(candidate(3, "c", 2.0));

    // Should come out in descending upper_bound order (max-heap)
    assert_eq!(processor.next_candidate().unwrap().upper_bound, key(3.0));
    assert_eq!(processor.next_candidate().unwrap().upper_bound, key(2.0));
    assert_eq!(processor.next_candidate().unwrap().upper_bound, key(1.0));
}

#[test]
fn test_wand_processor_early_termination() {
    let mut processor = WandProcessor::new(2);

    // Add candidates with decreasing upper bounds
    for i in 0..10 {
        processor.add_candidate(candidate(i, &format!("{}", i), 10.0 - i as f32));
    }

    // Process first candidate (upper_bound = 10.0)
    let c1 = processor.next_candidate().unwrap();
    assert_eq!(c1.upper_bound, key(10.0));
    processor.submit_result(entry(9.0, c1.doc_id, &c1.rel_path));

    // Process second candidate (upper_bound = 9.0)
    let c2 = processor.next_candidate().unwrap();
    assert_eq!(c2.upper_bound, key(9.0));
    processor.submit_result(entry(8.0, c2.doc_id, &c2.rel_path));

    // Now threshold is 8.0
    // Third candidate has upper_bound = 8.0, which is NOT > 8.0
    // But we need to check if remaining candidates can still beat threshold
    let c3 = processor.next_candidate();

    // All remaining candidates have upper_bound <= 8.0
    // So they can't beat the threshold, early termination should occur
    assert!(c3.is_none());
    assert!(processor.stats().early_terminated);

    // Check stats
    let stats = processor.stats();
    assert_eq!(stats.verified, 2);
    assert!(stats.pruned_by_upper_bound > 0);
}

#[test]
fn a_heap_without_room_keeps_nothing() {
    let mut heap = TopKHeap::new(0);
    assert!(!heap.try_insert(entry(1.0, 1, "a.txt")));
    assert!(heap.is_empty());
    assert!(heap.into_sorted_vec().is_empty());
}

#[test]
fn a_new_count_is_zero() {
    let stats = WandStats::default();
    assert_eq!(stats.total_candidates, 0);
    assert!(!stats.early_terminated);
}

#[test]
fn candidates_without_a_match_are_counted() {
    let mut processor = WandProcessor::new(1);
    processor.add_candidates(vec![candidate(1, "a", 2.0), candidate(2, "b", 1.0)]);
    assert_eq!(processor.remaining_candidates(), 2);
    let first = processor.next_candidate().unwrap();
    assert_eq!(first.doc_id, 1);
    processor.record_no_match();
    let second = processor.next_candidate().unwrap();
    processor.submit_result(entry(0.5, second.doc_id, &second.rel_path));
    assert!(processor.has_enough_results());
    let (results, stats) = processor.into_results();
    assert_eq!(results.len(), 1);
    assert_eq!(stats.verified, 2);
    assert_eq!(stats.entered_top_k, 1);
}

#[test]
fn terms_are_taken_from_every_part_but_exclusions() {
    let plan = QueryPlan::from_query(&parse_query("Alpha (beta | \"Gamma delta\") -epsilon alpha"));
    let terms = extract_search_terms(&plan.verification.unwrap());
    assert_eq!(terms, ["alpha", "beta", "gamma", "delta"]);
    assert!(filename_matches_terms("src/GAMMA.rs", &terms));
    assert!(!filename_matches_terms("gamma/other.rs", &terms));
}

#[test]
fn the_greatest_boost_counts_but_at_least_one() {
    let boost = |query: &str| extract_boost(&QueryPlan::from_query(&parse_query(query)).verification.unwrap());
    assert_eq!(boost("plain"), "1");
    assert_eq!(boost("^0.5:alone"), "0.5");
    assert_eq!(boost("^0.5:one other"), "1");
    assert_eq!(boost("^2.5:one ^10:two ^9.99:three"), "10");
    assert_eq!(boost("^3:\"a phrase\" word"), "3");
}

#[test]
fn boosts_are_compared_as_numbers() {
    assert!(boost_is_less("9", "10"));
    assert!(!boost_is_less("10", "9"));
    assert!(boost_is_less("1.09", "1.1"));
    assert!(!boost_is_less("1.50", "1.5"));
    assert!(!boost_is_less("001.5", "1.5"));
    assert!(boost_is_less(".5", "0.75"));
    assert!(!boost_is_less("x", "1"));
}

#[test]
fn pruned_candidates_are_counted_once() {
    let mut processor = WandProcessor::new(2);
    for i in 0..10 {
        processor.add_candidate(candidate(i, &format!("{i}"), 10.0 - i as f32));
    }
    for score in [9.0, 8.0] {
        let c = processor.next_candidate().unwrap();
        processor.submit_result(entry(score, c.doc_id, &c.rel_path));
    }
    for _ in 0..2 {
        assert!(processor.next_candidate().is_none());
        let stats = processor.stats();
        assert_eq!(stats.total_candidates, 10);
        assert_eq!(stats.verified, 2);
        assert_eq!(stats.pruned_by_upper_bound, 8);
        assert!(stats.early_terminated);
        assert_eq!(processor.remaining_candidates(), 0);
    }
}

#[test]
fn the_greatest_entries_are_kept_in_order() {
    let scores = [4.0, 1.0, 7.0, 7.0, 2.0, 9.0, 3.0];
    for k in 1..9 {
        let mut heap = TopKHeap::new(k);
        for (i, score) in scores.iter().enumerate() {
            heap.try_insert(entry(*score, i as u32, "x"));
        }
        let mut expected: Vec<u32> = scores.iter().map(|s| key(*s)).collect();
        expected.sort_by(|a, b| b.cmp(a));
        expected.truncate(k);
        let kept: Vec<u32> = heap.into_sorted_vec().iter().map(|e| e.score).collect();
        assert_eq!(kept, expected, "{k}");
    }
}
