use lgrep::history::MAX_HISTORY_SIZE;
use lgrep::{QueryEntry, QueryHistory};

#[test]
fn test_add_query() {
    let mut history = QueryHistory::new();

    history.add_query("test query".to_string(), 5, None, 1);
    assert_eq!(history.len(), 1);

    // Duplicate consecutive queries not added
    history.add_query("test query".to_string(), 3, None, 2);
    assert_eq!(history.len(), 1);

    // Different query added
    history.add_query("another query".to_string(), 2, None, 3);
    assert_eq!(history.len(), 2);
}

#[test]
fn test_recent_queries() {
    let mut history = QueryHistory::new();

    history.add_query("query 1".to_string(), 5, None, 1);
    history.add_query("query 2".to_string(), 3, None, 2);
    history.add_query("query 3".to_string(), 7, None, 3);

    let recent = history.recent(2);
    assert_eq!(recent.len(), 2);
    assert_eq!(recent[0].query, "query 3");
    assert_eq!(recent[1].query, "query 2");
}

#[test]
fn test_suggestions() {
    let mut history = QueryHistory::new();

    history.add_query("authentication".to_string(), 5, None, 1);
    history.add_query("authorization".to_string(), 3, None, 2);
    history.add_query("database".to_string(), 2, None, 3);

    let suggestions = history.suggest("auth", 10);
    assert_eq!(suggestions.len(), 2);
    assert!(suggestions.contains(&"authorization".to_string()));
    assert!(suggestions.contains(&"authentication".to_string()));
}

#[test]
fn test_top_queries() {
    let mut history = QueryHistory::new();

    history.add_query("common query".to_string(), 5, None, 1);
    history.add_query("rare query".to_string(), 3, None, 2);
    history.add_query("another query".to_string(), 1, None, 3);
    history.add_query("common query".to_string(), 2, None, 4);
    history.add_query("rare query".to_string(), 7, None, 5);
    history.add_query("unique query".to_string(), 4, None, 6);
    history.add_query("common query".to_string(), 6, None, 7);

    let top = history.top_queries(5);

    // Find common query (should appear 3 times)
    let common = top.iter().find(|(q, _)| q == "common query").unwrap();
    assert_eq!(common.1, 3);

    // Should have multiple entries
    assert!(top.len() >= 3);
}

#[test]
fn test_max_history_size() {
    let mut history = QueryHistory::new();

    // Add more than MAX_HISTORY_SIZE queries
    for i in 0..150 {
        history.add_query(format!("query {}", i), 1, None, i as u64);
    }

    assert!(history.len() <= MAX_HISTORY_SIZE);
}

#[test]
fn history_dedup_and_recent_order() {
    let mut history = QueryHistory::new();
    assert!(history.add_query("q".to_string(), 5, None, 10));
    assert!(!history.add_query("q".to_string(), 3, None, 11));
    assert_eq!(history.len(), 1);
    assert!(history.add_query("r".to_string(), 2, None, 12));
    assert_eq!(history.len(), 2);
    let recent = history.recent(10);
    assert_eq!(recent[0].query, "r");
    assert_eq!(recent[1].query, "q");
    // the entry that was kept is the first one
    assert_eq!(recent[1].result_count, 5);
    assert_eq!(recent[1].timestamp, 10);
}

#[test]
fn the_newest_hundred_are_kept() {
    let mut history = QueryHistory::new();
    for i in 0..150 {
        history.add_query(format!("query {}", i), i, Some(format!("f{}", i)), 1000 + i as u64);
    }
    assert_eq!(history.len(), 100);
    let all = history.all();
    assert_eq!(all.len(), 100);
    assert_eq!(all[0].query, "query 149");
    assert_eq!(all[99].query, "query 50");
    assert_eq!(all[0].filters, Some("f149".to_string()));
    assert_eq!(all[0].timestamp, 1149);
    assert_eq!(all[0].result_count, 149);
}

#[test]
fn recent_and_all_on_short_histories() {
    let mut history = QueryHistory::new();
    assert!(history.is_empty());
    assert!(history.recent(3).is_empty());
    assert!(history.all().is_empty());
    history.add_query("a".to_string(), 0, None, 0);
    assert!(!history.is_empty());
    assert_eq!(history.recent(0).len(), 0);
    assert_eq!(history.recent(5).len(), 1);
    history.clear();
    assert!(history.is_empty());
    assert_eq!(history.len(), 0);
}

#[test]
fn suggestions_come_newest_first_without_runs_and_capped() {
    let mut history = QueryHistory::new();
    history.add_query("Parse JSON".to_string(), 0, None, 0);
    history.add_query("other".to_string(), 0, None, 0);
    history.add_query("json schema".to_string(), 0, None, 0);
    history.add_query("Parse JSON".to_string(), 0, None, 0);
    assert_eq!(history.suggest("JSON", 10), vec!["Parse JSON", "json schema", "Parse JSON"]);
    assert_eq!(history.suggest("json", 2), vec!["Parse JSON", "json schema"]);
    assert_eq!(history.suggest("json", 0), Vec::<String>::new());
    assert_eq!(history.suggest("xml", 5), Vec::<String>::new());
    assert_eq!(history.suggest("", 10).len(), 4);
}

#[test]
fn suggestions_drop_runs_of_equal_queries() {
    let entries = vec!["auth", "auth", "db", "auth"]
        .into_iter()
        .map(|q| QueryEntry { query: q.to_string(), timestamp: 0, result_count: 0, filters: None })
        .collect();
    let history = QueryHistory::from_entries(entries);
    assert_eq!(history.len(), 4);
    // the entry between the runs does not match, so the runs meet
    assert_eq!(history.suggest("a", 10), vec!["auth"]);
    assert_eq!(history.suggest("", 10), vec!["auth", "db", "auth"]);
    assert_eq!(history.as_entries().len(), 4);
}

#[test]
fn top_queries_rank_by_count_then_first_use() {
    let mut history = QueryHistory::new();
    for q in ["b", "a", "c", "a", "c", "a", "d"] {
        history.add_query(q.to_string(), 0, None, 0);
    }
    let top = history.top_queries(10);
    assert_eq!(
        top,
        vec![
            ("a".to_string(), 3),
            ("c".to_string(), 2),
            ("b".to_string(), 1),
            ("d".to_string(), 1)
        ]
    );
    assert_eq!(history.top_queries(2), vec![("a".to_string(), 3), ("c".to_string(), 2)]);
    assert!(history.top_queries(0).is_empty());
    assert!(QueryHistory::new().top_queries(3).is_empty());
}
