use lgrep::embedder::{check_dimensions, next_batch};
use lgrep::format::{
    format_plain, header, join_texts, layout, location, pad_left, paint, preview, score_color,
    score_percent, Piece, ScoreColor, Style,
};
use lgrep::paths::{extension_of, join_path, lies_under, relative_path, strip_base, trim_separator};
use lgrep::searcher::{filter_results, keyword_gate, PathAnswers};
use lgrep::text::{str_eq, to_decimal};
use lgrep::watcher::{is_relevant, WatchAction, WatchEvent, DEBOUNCE_MILLIS};
use lgrep::{
    format_results, Chunk, Config, IndexWatcher, LgrepError, SearchFilter, SearchResult, Searcher,
    UpdateStats, VectorIndex,
};

fn chunk(id: u64, path: &str, text: &str, language: Option<&str>) -> Chunk {
    Chunk {
        id,
        text: text.to_string(),
        file_path: path.to_string(),
        start_line: 3,
        end_line: 3 + text.split('\n').count() - 1,
        file_hash: "h".to_string(),
        language: language.map(|l| l.to_string()),
    }
}

fn searcher() -> Searcher {
    let mut index = VectorIndex::new(Config::with_workers("root".to_string(), 1));
    let chunks = vec![
        chunk(0, "src/main.rs", "fn main() {}", Some("rust")),
        chunk(1, "src/lib.rs", "pub fn parse() {}", Some("rust")),
        chunk(2, "app.py", "def parse(): pass", Some("python")),
        chunk(3, "tests/test.rs", "fn test_parse() {}", Some("rust")),
    ];
    index.add_chunks(chunks, 4).unwrap();
    Searcher::from_index(index)
}

fn found(results: &[SearchResult]) -> Vec<u64> {
    results.iter().map(|r| r.chunk.id).collect()
}

const KEYS: [u64; 4] = [3, 1, 2, 0];
const DISTANCES: [i32; 4] = [100_000, 200_000, 300_000, 400_000];

#[test]
fn a_plain_search_ranks_the_neighbours() {
    let s = searcher();
    let results = s.search(&KEYS.to_vec(), &DISTANCES.to_vec());
    assert_eq!(found(&results), vec![3, 1, 2, 0]);
    assert_eq!(results[0].score, 900_000);
    assert_eq!(found(&s.search_with_filter(&KEYS.to_vec(), &DISTANCES.to_vec(), 2, None)), vec![3, 1]);
    assert_eq!(s.index_ref().chunk_count(), 4);
}

#[test]
fn how_many_neighbours_are_asked_for() {
    let s = searcher();
    assert_eq!(s.neighbours(10, false), 10);
    assert_eq!(s.neighbours(10, true), 40);
    assert_eq!(s.neighbours(0, true), 0);
    assert_eq!(s.neighbours(usize::MAX, true), usize::MAX);
    assert_eq!(s.neighbours(usize::MAX / 2, true), usize::MAX);
    let empty = Searcher::from_index(VectorIndex::new(Config::with_workers("r".to_string(), 1)));
    assert_eq!(empty.neighbours(10, false), 0);
    assert_eq!(empty.neighbours(10, true), 0);
}

#[test]
fn a_filter_takes_results_away_before_the_cap() {
    let s = searcher();
    let rust = SearchFilter::new().with_languages(vec!["rust".to_string()]);
    let results = s.search_with_filter(&KEYS.to_vec(), &DISTANCES.to_vec(), 2, Some(&rust));
    assert_eq!(found(&results), vec![3, 1]);
    let no_tests = SearchFilter::new()
        .with_languages(vec!["rust".to_string()])
        .with_exclude_pattern("^tests/".to_string());
    let results = s.search_with_filter(&KEYS.to_vec(), &DISTANCES.to_vec(), 2, Some(&no_tests));
    assert_eq!(found(&results), vec![1, 0]);
    let good = SearchFilter::new().with_min_score(700_000);
    let results = s.search_with_filter(&KEYS.to_vec(), &DISTANCES.to_vec(), 10, Some(&good));
    assert_eq!(found(&results), vec![3, 1, 2]);
}

#[test]
fn the_cap_of_the_filter_overrides_top_k() {
    let s = searcher();
    let one = SearchFilter::new().with_max_results(1);
    assert_eq!(found(&s.search_with_filter(&KEYS.to_vec(), &DISTANCES.to_vec(), 3, Some(&one))), vec![3]);
    let many = SearchFilter::new().with_max_results(3);
    assert_eq!(
        found(&s.search_with_filter(&KEYS.to_vec(), &DISTANCES.to_vec(), 1, Some(&many))),
        vec![3, 1, 2]
    );
}

#[test]
fn a_keyword_is_a_gate_and_no_rank() {
    let s = searcher();
    let results = s.hybrid_search(&KEYS.to_vec(), &DISTANCES.to_vec(), "parse", 10, None).unwrap();
    assert_eq!(found(&results), vec![3, 1, 2]);
    assert_eq!(results[1].score, 800_000);
    let results = s.hybrid_search(&KEYS.to_vec(), &DISTANCES.to_vec(), "^(pub|def) ", 1, None).unwrap();
    assert_eq!(found(&results), vec![1]);
    let python = SearchFilter::new().with_extensions(vec!["py".to_string()]);
    let results =
        s.hybrid_search(&KEYS.to_vec(), &DISTANCES.to_vec(), "parse", 10, Some(&python)).unwrap();
    assert_eq!(found(&results), vec![2]);
    let capped = SearchFilter::new().with_max_results(2);
    let results =
        s.hybrid_search(&KEYS.to_vec(), &DISTANCES.to_vec(), "parse", 10, Some(&capped)).unwrap();
    assert_eq!(found(&results), vec![3, 1]);
}

#[test]
fn a_keyword_that_is_no_pattern_is_an_error() {
    let s = searcher();
    match s.hybrid_search(&KEYS.to_vec(), &DISTANCES.to_vec(), "par(se", 10, None) {
        Err(LgrepError::Config(cause)) => assert_eq!(cause, "Invalid keyword pattern: par(se"),
        other => panic!("unexpected {:?}", other.map(|r| r.len())),
    }
    assert!(s.hybrid_search(&vec![], &vec![], "(", 10, None).is_err());
}

#[test]
fn results_are_filtered_by_what_the_patterns_said() {
    let s = searcher();
    let results = s.search(&KEYS.to_vec(), &DISTANCES.to_vec());
    let filter = SearchFilter::new().with_path_pattern("x".to_string());
    let said = vec![
        PathAnswers { included: Some(true), excluded: None },
        PathAnswers { included: Some(false), excluded: None },
        PathAnswers { included: None, excluded: None },
        PathAnswers { included: Some(true), excluded: Some(true) },
    ];
    let kept = filter_results(results, &filter, &said, 10);
    assert_eq!(found(&kept), vec![3, 2, 0]);
    let results = s.search(&KEYS.to_vec(), &DISTANCES.to_vec());
    let gate = vec![Some(true), Some(false), Some(true), Some(false)];
    assert_eq!(found(&keyword_gate(results, &gate).unwrap()), vec![3, 2]);
    let results = s.search(&KEYS.to_vec(), &DISTANCES.to_vec());
    assert!(keyword_gate(results, &vec![Some(true), None, Some(true), Some(false)]).is_none());
}

#[test]
fn stats_count_files_and_chunks() {
    let stats = searcher().stats();
    assert_eq!(stats.files, 4);
    assert_eq!(stats.chunks, 4);
    assert_eq!(stats.model, "sentence-transformers/all-MiniLM-L6-v2");
}

#[test]
fn scores_become_percent_and_colours() {
    assert_eq!(score_percent(856_700), 85);
    assert_eq!(score_percent(800_000), 80);
    assert_eq!(score_percent(799_999), 79);
    assert_eq!(score_percent(1_000_000), 100);
    assert_eq!(score_percent(9_999), 0);
    assert_eq!(score_percent(0), 0);
    assert_eq!(score_percent(-500_000), 0);
    assert_eq!(score_percent(i64::MAX), u32::MAX);
    assert_eq!(score_color(100), ScoreColor::Green);
    assert_eq!(score_color(80), ScoreColor::Green);
    assert_eq!(score_color(79), ScoreColor::Yellow);
    assert_eq!(score_color(60), ScoreColor::Yellow);
    assert_eq!(score_color(59), ScoreColor::Red);
    assert_eq!(score_color(0), ScoreColor::Red);
}

fn plain(pieces: &[Piece]) -> String {
    pieces.iter().map(|p| p.text.as_str()).collect()
}

#[test]
fn results_are_laid_out_as_text() {
    let one = SearchResult { chunk: chunk(0, "src/main.rs", "fn main() {}", None), score: 856_700 };
    let two = SearchResult { chunk: chunk(1, "a.py", "x = 1\ny = 2", None), score: 612_000 };
    assert_eq!(location(&one.chunk), "src/main.rs:3");
    assert_eq!(location(&two.chunk), "a.py:3-4");
    assert_eq!(plain(&header(1, &one)), "\n[1] src/main.rs:3 (85%)\n");
    let text = format_plain(&vec![one.clone(), two.clone()], false);
    assert_eq!(text, "\n[1] src/main.rs:3 (85%)\n\n[2] a.py:3-4 (61%)\n");
    let rule = "\u{2500}".repeat(60);
    let text = format_plain(&vec![two.clone()], true);
    assert_eq!(text, format!("\n[1] a.py:3-4 (61%)\n{}\n   3 x = 1\n   4 y = 2\n", rule));
    assert_eq!(format_plain(&vec![], true), "");
    assert_eq!(format_results(&vec![], true), "");
}

#[test]
fn each_piece_has_its_style() {
    let one = SearchResult { chunk: chunk(0, "src/main.rs", "fn main() {}", None), score: 856_700 };
    let pieces = layout(&vec![one.clone()], true);
    let view: Vec<(&str, Style)> = pieces.iter().map(|p| (p.text.as_str(), p.style)).collect();
    let rule = "\u{2500}".repeat(60);
    assert_eq!(
        view,
        vec![
            ("\n", Style::Plain),
            ("[1]", Style::Dimmed),
            (" ", Style::Plain),
            ("src/main.rs:3", Style::Place),
            (" (", Style::Plain),
            ("85", Style::Score(ScoreColor::Green)),
            ("%)\n", Style::Plain),
            (rule.as_str(), Style::Dimmed),
            ("\n", Style::Plain),
            ("   3", Style::Dimmed),
            (" fn main() {}\n", Style::Plain),
        ]
    );
    let low = SearchResult { chunk: chunk(0, "a.rs", "x", None), score: 612_000 };
    assert_eq!(header(7, &low)[5].style, Style::Score(ScoreColor::Yellow));
    assert_eq!(header(7, &low)[1].text, "[7]");
}

#[test]
fn painting_keeps_the_words() {
    let one = SearchResult { chunk: chunk(0, "src/main.rs", "fn main() {}", None), score: 856_700 };
    let shown = format_results(&vec![one.clone()], true);
    for word in ["[1]", "src/main.rs:3", "85", "%)", "   3", " fn main() {}\n"] {
        assert!(shown.contains(word), "{:?} lacks {:?}", shown, word);
    }
    assert!(shown.starts_with("\n"));
    assert!(shown.ends_with(" fn main() {}\n"));
    let piece = Piece { text: "as it is".to_string(), style: Style::Plain };
    assert_eq!(paint(&piece), "as it is");
    for style in [
        Style::Dimmed,
        Style::Place,
        Style::Score(ScoreColor::Green),
        Style::Score(ScoreColor::Yellow),
        Style::Score(ScoreColor::Red),
    ] {
        assert!(paint(&Piece { text: "word".to_string(), style }).contains("word"));
    }
    assert_eq!(join_texts(&vec!["a".to_string(), "".to_string(), "bc".to_string()]), "abc");
    assert_eq!(join_texts(&vec![]), "");
}

#[test]
fn long_chunks_are_cut_after_fifteen_lines() {
    let lines: Vec<String> = (0..18).map(|i| format!("line {}", i)).collect();
    let mut long = chunk(0, "a.rs", &lines.join("\n"), None);
    long.start_line = 9998;
    let text = plain(&preview(&long));
    let shown: Vec<&str> = text.split('\n').collect();
    assert_eq!(shown.len(), 1 + 15 + 1 + 1);
    assert_eq!(shown[1], "9998 line 0");
    assert_eq!(shown[3], "10000 line 2");
    assert_eq!(shown[15], "10012 line 14");
    assert_eq!(shown[16], "     ... (3 more lines)");
    assert_eq!(shown[17], "");
}

#[test]
fn numbers_and_padding() {
    assert_eq!(to_decimal(0), "0");
    assert_eq!(to_decimal(7), "7");
    assert_eq!(to_decimal(10), "10");
    assert_eq!(to_decimal(1234567890), "1234567890");
    assert_eq!(to_decimal(u128::MAX), u128::MAX.to_string());
    assert_eq!(pad_left("7", 4), "   7");
    assert_eq!(pad_left("1234", 4), "1234");
    assert_eq!(pad_left("12345", 4), "12345");
    assert_eq!(pad_left("", 2), "  ");
    assert_eq!(pad_left("\u{e9}", 3), "  \u{e9}");
    assert!(str_eq("a\u{e9}", "a\u{e9}"));
    assert!(!str_eq("a", "b"));
    assert!(!str_eq("a", "ab"));
}

#[test]
fn paths_are_taken_apart_at_separators() {
    assert_eq!(extension_of("a/b.c/d.tar.gz"), Some("gz"));
    assert_eq!(extension_of("a/b.c/d"), None);
    assert_eq!(extension_of("a/.hidden"), None);
    assert_eq!(extension_of("a/.hidden.txt"), Some("txt"));
    assert_eq!(extension_of("name."), Some(""));
    assert_eq!(extension_of("a/.."), None);
    assert_eq!(extension_of(""), None);
    assert_eq!(extension_of("\u{fc}ber.r\u{e9}sum\u{e9}"), Some("r\u{e9}sum\u{e9}"));
    assert_eq!(trim_separator("a/b/"), "a/b");
    assert_eq!(trim_separator("a/b"), "a/b");
    assert_eq!(trim_separator("/"), "");
    assert_eq!(strip_base("a/b/c", "a"), Some("b/c"));
    assert_eq!(strip_base("a/b/c", "a/"), None);
    assert_eq!(strip_base("ab/c", "a"), None);
    assert_eq!(strip_base("a", "a"), None);
    assert_eq!(strip_base("\u{e9}t\u{e9}/x", "\u{e9}t\u{e9}"), Some("x"));
    assert_eq!(join_path("a", "b"), "a/b");
    assert_eq!(join_path("a/", "b"), "a/b");
    assert_eq!(join_path("", "b"), "b");
    assert_eq!(relative_path("/root/src/a.rs", "/root"), "src/a.rs");
    assert_eq!(relative_path("/root/src/a.rs", "/root/"), "src/a.rs");
    assert_eq!(relative_path("/rootless/a.rs", "/root"), "/rootless/a.rs");
    assert_eq!(relative_path("/root", "/root"), "");
    assert_eq!(relative_path("/other/a.rs", "/root"), "/other/a.rs");
    assert!(lies_under("/root/.lgrep/config.json", "/root/.lgrep"));
    assert!(lies_under("/root/.lgrep", "/root/.lgrep"));
    assert!(lies_under("/root/.lgrep/a", "/root/.lgrep/"));
    assert!(!lies_under("/root/.lgrepx/a", "/root/.lgrep"));
    assert!(!lies_under("/root/src/a.rs", "/root/.lgrep"));
}

#[test]
fn batches_cover_the_texts_in_order() {
    let mut done = 0;
    let mut seen = Vec::new();
    while let Some((from, to)) = next_batch(done, 70, 32) {
        seen.push((from, to));
        done = to;
    }
    assert_eq!(seen, vec![(0, 32), (32, 64), (64, 70)]);
    assert_eq!(next_batch(0, 0, 32), None);
    assert_eq!(next_batch(64, 64, 32), None);
    assert_eq!(next_batch(0, 32, 32), Some((0, 32)));
    assert_eq!(next_batch(usize::MAX - 1, usize::MAX, 32), Some((usize::MAX - 1, usize::MAX)));
    assert!(check_dimensions(&vec![384, 384], 384).is_ok());
    assert!(check_dimensions(&vec![], 384).is_ok());
    match check_dimensions(&vec![384, 768], 384) {
        Err(LgrepError::Embedding(cause)) => assert_eq!(cause, "Embedding dimension mismatch"),
        other => panic!("unexpected {:?}", other),
    }
}

#[test]
fn only_changes_to_indexed_files_outside_the_index_matter() {
    let watcher = IndexWatcher::new(Config::with_workers("/root".to_string(), 1));
    assert_eq!(watcher.config().index_dir, "/root/.lgrep");
    assert_eq!(DEBOUNCE_MILLIS, 500);
    assert!(is_relevant("/root/src/a.rs", "/root/.lgrep"));
    assert!(!is_relevant("/root/src/a.png", "/root/.lgrep"));
    assert!(!is_relevant("/root/.lgrep/config.json", "/root/.lgrep"));
    let changed = |paths: &[&str]| WatchEvent::Changed(paths.iter().map(|p| p.to_string()).collect());
    assert_eq!(watcher.process_events(&changed(&["/root/a.png", "/root/b.rs"])), WatchAction::Update);
    assert_eq!(watcher.process_events(&changed(&["/root/a.png"])), WatchAction::Wait);
    assert_eq!(
        watcher.process_events(&changed(&["/root/.lgrep/config.json", "/root/.lgrep/metadata.bin"])),
        WatchAction::Wait
    );
    assert_eq!(watcher.process_events(&changed(&[])), WatchAction::Wait);
    assert_eq!(watcher.process_events(&WatchEvent::Failed("x".to_string())), WatchAction::Wait);
    assert_eq!(watcher.process_events(&WatchEvent::Closed), WatchAction::Stop);
    assert!(watcher.changed_anything(&UpdateStats { added: 0, updated: 1, removed: 0, unchanged: 5 }));
    assert!(!watcher.changed_anything(&UpdateStats { added: 0, updated: 0, removed: 0, unchanged: 5 }));
}
