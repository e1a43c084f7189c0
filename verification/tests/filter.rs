use lgrep::filter::listed_in;
use lgrep::patterns::search;
use lgrep::{Chunk, SearchFilter};

fn create_test_chunk(file_path: &str, language: Option<String>) -> Chunk {
    Chunk {
        id: 0,
        text: "test content".to_string(),
        file_path: file_path.to_string(),
        start_line: 1,
        end_line: 1,
        file_hash: "hash".to_string(),
        language,
    }
}

fn score(value: f32) -> i64 {
    (value as f64 * 1_000_000.0).round() as i64
}

#[test]
fn test_extension_filter() {
    let filter = SearchFilter::new().with_extensions(vec!["rs".to_string(), "py".to_string()]);

    let chunk_rs = create_test_chunk("src/main.rs", Some("rust".to_string()));
    let chunk_js = create_test_chunk("src/main.js", Some("javascript".to_string()));

    assert!(filter.matches(&chunk_rs, score(0.8)));
    assert!(!filter.matches(&chunk_js, score(0.8)));
}

#[test]
fn test_language_filter() {
    let filter = SearchFilter::new().with_languages(vec!["rust".to_string()]);

    let chunk_rs = create_test_chunk("src/main.rs", Some("rust".to_string()));
    let chunk_py = create_test_chunk("app.py", Some("python".to_string()));

    assert!(filter.matches(&chunk_rs, score(0.8)));
    assert!(!filter.matches(&chunk_py, score(0.8)));
}

#[test]
fn test_min_score_filter() {
    let filter = SearchFilter::new().with_min_score(score(0.7));

    let chunk = create_test_chunk("test.rs", Some("rust".to_string()));

    assert!(filter.matches(&chunk, score(0.8)));
    assert!(!filter.matches(&chunk, score(0.6)));
}

#[test]
fn test_path_pattern_filter() {
    let filter = SearchFilter::new().with_path_pattern("src/.*".to_string());

    let chunk_src = create_test_chunk("src/main.rs", Some("rust".to_string()));
    let chunk_test = create_test_chunk("tests/test.rs", Some("rust".to_string()));

    assert!(filter.matches(&chunk_src, score(0.8)));
    assert!(!filter.matches(&chunk_test, score(0.8)));
}

#[test]
fn test_exclude_pattern_filter() {
    let filter = SearchFilter::new().with_exclude_pattern("test.*".to_string());

    let chunk_src = create_test_chunk("src/main.rs", Some("rust".to_string()));
    let chunk_test = create_test_chunk("tests/test.rs", Some("rust".to_string()));

    assert!(filter.matches(&chunk_src, score(0.8)));
    assert!(!filter.matches(&chunk_test, score(0.8)));
}

#[test]
fn test_combined_filters() {
    let filter = SearchFilter::new()
        .with_extensions(vec!["rs".to_string()])
        .with_languages(vec!["rust".to_string()])
        .with_min_score(score(0.7));

    let chunk_match = create_test_chunk("src/main.rs", Some("rust".to_string()));
    let chunk_wrong_ext = create_test_chunk("src/main.py", Some("python".to_string()));
    let chunk_wrong_lang = create_test_chunk("src/main.rs", Some("javascript".to_string()));

    assert!(filter.matches(&chunk_match, score(0.8)));
    assert!(!filter.matches(&chunk_wrong_ext, score(0.8)));
    assert!(!filter.matches(&chunk_wrong_lang, score(0.8)));
    assert!(!filter.matches(&chunk_match, score(0.6))); // Low score
}

#[test]
fn an_empty_filter_lets_everything_pass() {
    let filter = SearchFilter::new();
    assert!(filter.matches(&create_test_chunk("x", None), i64::MIN));
    assert!(SearchFilter::default().matches(&create_test_chunk("", None), 0));
}

#[test]
fn the_lowest_score_itself_passes() {
    let filter = SearchFilter::new().with_min_score(700_000);
    let chunk = create_test_chunk("a.rs", None);
    assert!(filter.matches(&chunk, 700_000));
    assert!(!filter.matches(&chunk, 699_999));
}

#[test]
fn a_file_without_extension_or_language_fails_those_filters() {
    let by_extension = SearchFilter::new().with_extensions(vec!["rs".to_string()]);
    assert!(!by_extension.matches(&create_test_chunk("Makefile", None), 0));
    assert!(!by_extension.matches(&create_test_chunk(".rs", None), 0));
    let by_language = SearchFilter::new().with_languages(vec!["rust".to_string()]);
    assert!(!by_language.matches(&create_test_chunk("a.rs", None), 0));
    let none_wanted = SearchFilter::new().with_extensions(vec![]);
    assert!(!none_wanted.matches(&create_test_chunk("a.rs", None), 0));
}

#[test]
fn extensions_and_languages_ignore_case() {
    let filter = SearchFilter::new()
        .with_extensions(vec!["RS".to_string()])
        .with_languages(vec!["Rust".to_string()]);
    assert!(filter.matches(&create_test_chunk("src/Main.Rs", Some("RUST".to_string())), 0));
    assert!(listed_in(&vec!["Py".to_string(), "RS".to_string()], "rs"));
    assert!(!listed_in(&vec!["Py".to_string(), "RS".to_string()], "RS"));
    assert!(!listed_in(&vec![], "rs"));
}

#[test]
fn a_pattern_that_does_not_compile_is_no_constraint() {
    let wanted = SearchFilter::new().with_path_pattern("src/(".to_string());
    assert!(wanted.matches(&create_test_chunk("tests/test.rs", None), 0));
    let unwanted = SearchFilter::new().with_exclude_pattern("[".to_string());
    assert!(unwanted.matches(&create_test_chunk("tests/test.rs", None), 0));
}

#[test]
fn the_verdict_follows_what_the_patterns_say() {
    let filter = SearchFilter::new()
        .with_path_pattern("p".to_string())
        .with_exclude_pattern("q".to_string());
    let chunk = create_test_chunk("a.rs", None);
    assert!(filter.passes(&chunk, 0, Some(true), Some(false)));
    assert!(filter.passes(&chunk, 0, None, None));
    assert!(!filter.passes(&chunk, 0, Some(false), Some(false)));
    assert!(!filter.passes(&chunk, 0, Some(true), Some(true)));
    // without patterns the answers do not count
    assert!(SearchFilter::new().passes(&chunk, 0, Some(false), Some(true)));
}

#[test]
fn builders_set_their_field() {
    let filter = SearchFilter::new()
        .with_extensions(vec!["rs".to_string()])
        .with_languages(vec!["rust".to_string()])
        .with_path_pattern("a".to_string())
        .with_exclude_pattern("b".to_string())
        .with_min_score(5)
        .with_max_results(9);
    assert_eq!(filter.extensions, Some(vec!["rs".to_string()]));
    assert_eq!(filter.languages, Some(vec!["rust".to_string()]));
    assert_eq!(filter.path_pattern, Some("a".to_string()));
    assert_eq!(filter.exclude_pattern, Some("b".to_string()));
    assert_eq!(filter.min_score, Some(5));
    assert_eq!(filter.max_results, Some(9));
}

#[test]
fn patterns_are_searched_for_anywhere() {
    assert_eq!(search("b+", "aabbcc"), Some(true));
    assert_eq!(search("^b", "aabbcc"), Some(false));
    assert_eq!(search("(", "aabbcc"), None);
    assert_eq!(search("aabbcc", "b+"), Some(false));
}
