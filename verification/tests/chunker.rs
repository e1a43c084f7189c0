use lgrep::chunker::{detect_language, language_for_extension, Chunker};
use lgrep::text::lines_of;

#[test]
fn test_chunking_small_file() {
    let chunker = Chunker::new(100, 20);
    let text = "line 1\nline 2\nline 3";
    let chunks = chunker.chunk_text(text, "test.py", "abc123", 0);

    assert_eq!(chunks.len(), 1);
    assert_eq!(chunks[0].start_line, 1);
    assert_eq!(chunks[0].end_line, 3);
}

#[test]
fn test_chunking_large_file() {
    let chunker = Chunker::new(50, 10);
    let text = "line 1 with some content\nline 2 with more content\nline 3 with even more\nline 4 final";
    let chunks = chunker.chunk_text(text, "test.rs", "def456", 0);

    assert!(chunks.len() > 1);
    for (i, chunk) in chunks.iter().enumerate() {
        assert_eq!(chunk.id, i as u64);
    }
}

#[test]
fn test_language_detection() {
    assert_eq!(detect_language("main.rs"), Some("rust".to_string()));
    assert_eq!(detect_language("app.py"), Some("python".to_string()));
    assert_eq!(detect_language("index.tsx"), Some("typescriptreact".to_string()));
    assert_eq!(detect_language("unknown.xyz"), None);
}

#[test]
fn test_empty_file() {
    let chunker = Chunker::new(100, 20);
    let chunks = chunker.chunk_text("", "empty.rs", "hash", 0);
    assert!(chunks.is_empty());
}

#[test]
fn small_file_keeps_its_text_and_metadata() {
    let chunker = Chunker::new(100, 20);
    let chunks = chunker.chunk_text("line 1\nline 2\nline 3", "test.py", "abc123", 7);
    assert_eq!(chunks.len(), 1);
    assert_eq!(chunks[0].id, 7);
    assert_eq!(chunks[0].text, "line 1\nline 2\nline 3");
    assert_eq!(chunks[0].file_path, "test.py");
    assert_eq!(chunks[0].file_hash, "abc123");
    assert_eq!(chunks[0].language, Some("python".to_string()));
}

#[test]
fn large_file_chunks_follow_the_sliding_window() {
    let chunker = Chunker::new(50, 10);
    let text = "line 1 with some content\nline 2 with more content\nline 3 with even more\nline 4 final";
    let chunks = chunker.chunk_text(text, "test.rs", "def456", 10);
    assert_eq!(chunks.len(), 3);
    assert_eq!(chunks[0].id, 10);
    assert_eq!(chunks[1].id, 11);
    assert_eq!(chunks[2].id, 12);
    assert_eq!(chunks[0].text, "line 1 with some content\nline 2 with more content");
    assert_eq!(chunks[1].text, "line 2 with more content\nline 3 with even more");
    assert_eq!(chunks[2].text, "line 3 with even more\nline 4 final");
    assert_eq!((chunks[0].start_line, chunks[0].end_line), (1, 2));
    assert_eq!((chunks[1].start_line, chunks[1].end_line), (3, 4));
    assert_eq!((chunks[2].start_line, chunks[2].end_line), (4, 5));
}

#[test]
fn lines_end_at_line_feeds() {
    assert_eq!(lines_of(""), Vec::<&str>::new());
    assert_eq!(lines_of("a"), vec!["a"]);
    assert_eq!(lines_of("a\n"), vec!["a"]);
    assert_eq!(lines_of("a\n\n"), vec!["a", ""]);
    assert_eq!(lines_of("\n"), vec![""]);
    assert_eq!(lines_of("a\nb"), vec!["a", "b"]);
    assert_eq!(lines_of("h\u{e9}llo\nw\u{f6}rld\n\u{1f600}"), vec!["h\u{e9}llo", "w\u{f6}rld", "\u{1f600}"]);
    assert_eq!(lines_of("a\r\nb"), vec!["a\r", "b"]);
}

#[test]
fn every_line_is_in_some_chunk() {
    let chunker = Chunker::new(30, 8);
    let lines: Vec<String> = (0..40).map(|i| format!("row {} {}", i, "x".repeat(i % 7))).collect();
    let text = lines.join("\n");
    let chunks = chunker.chunk_text(&text, "rows.txt", "h", 0);
    for (n, line) in lines.iter().enumerate() {
        let number = n + 1;
        assert!(chunks.iter().any(|c| c.text.split('\n').any(|l| l == line)));
        assert!(chunks.iter().any(|c| c.start_line <= number && number <= c.end_line));
    }
}

#[test]
fn each_chunk_opens_with_the_end_of_the_one_before() {
    let chunker = Chunker::new(40, 12);
    let lines: Vec<String> = (0..30).map(|i| format!("l{}{}", i, "y".repeat(i % 5))).collect();
    let text = lines.join("\n");
    let longest = lines.iter().map(|l| l.len()).max().unwrap();
    let chunks = chunker.chunk_text(&text, "rows.txt", "h", 0);
    assert!(chunks.len() > 2);
    for pair in chunks.windows(2) {
        let before: Vec<&str> = pair[0].text.split('\n').collect();
        let after: Vec<&str> = pair[1].text.split('\n').collect();
        let shared = (1..=before.len().min(after.len()))
            .rev()
            .find(|k| before[before.len() - k..] == after[..*k])
            .unwrap();
        assert!(shared >= 1);
        let bytes = before[before.len() - shared..].join("\n").len();
        assert!(bytes <= 12 + longest);
        assert!(pair[1].start_line <= pair[0].end_line + 1);
    }
}

#[test]
fn one_oversized_line_is_a_chunk_of_its_own() {
    let chunker = Chunker::new(10, 3);
    let chunks = chunker.chunk_text("0123456789abcdef\nxy", "a.txt", "h", 0);
    assert_eq!(chunks.len(), 2);
    assert_eq!(chunks[0].text, "0123456789abcdef");
    assert_eq!(chunks[1].text, "0123456789abcdef\nxy");
    assert_eq!((chunks[1].start_line, chunks[1].end_line), (2, 3));
}

#[test]
fn chunk_size_counts_bytes_with_one_per_line_feed() {
    // two lines of 4 bytes cost 10: they fit into 10 and not into 9
    assert_eq!(Chunker::new(10, 0).chunk_text("abcd\nefgh", "a.txt", "h", 0).len(), 1);
    assert_eq!(Chunker::new(9, 0).chunk_text("abcd\nefgh", "a.txt", "h", 0).len(), 2);
    // a two-byte character counts twice
    assert_eq!(Chunker::new(10, 0).chunk_text("abc\u{e9}\nefgh", "a.txt", "h", 0).len(), 2);
}

#[test]
fn overlap_lines_counts_what_fits_and_at_least_one() {
    let chunker = Chunker::new(100, 6);
    assert_eq!(chunker.calculate_overlap_lines(&["aaaaaaaaaa", "bb", "cc"]), 2);
    assert_eq!(chunker.calculate_overlap_lines(&["aa", "bbbbbbbbbb"]), 1);
    assert_eq!(chunker.calculate_overlap_lines(&[]), 1);
    assert_eq!(Chunker::new(100, 0).calculate_overlap_lines(&["a", "b"]), 1);
    assert_eq!(Chunker::new(100, 3).calculate_overlap_lines(&["a", "bb"]), 1);
    assert_eq!(Chunker::new(100, 5).calculate_overlap_lines(&["a", "bb"]), 2);
}

#[test]
fn ids_that_would_not_fit_give_no_chunks() {
    let chunker = Chunker::new(100, 20);
    assert!(chunker.try_chunk_text("a\nb", "a.rs", "h", u64::MAX).is_none());
    assert!(chunker.try_chunk_text("a\nb", "a.rs", "h", u64::MAX - 2).is_none());
    let chunks = chunker.try_chunk_text("a\nb", "a.rs", "h", u64::MAX - 3).unwrap();
    assert_eq!(chunks.len(), 1);
    assert_eq!(chunks[0].id, u64::MAX - 3);
    assert_eq!(chunker.try_chunk_text("", "a.rs", "h", u64::MAX).unwrap().len(), 0);
}

#[test]
fn languages_of_extensions() {
    assert_eq!(language_for_extension("kt"), Some("kotlin".to_string()));
    assert_eq!(language_for_extension("hcl"), Some("terraform".to_string()));
    assert_eq!(language_for_extension("fish"), None);
    assert_eq!(language_for_extension("RS"), None);
    assert_eq!(detect_language("src/Main.RS"), Some("rust".to_string()));
    assert_eq!(detect_language("dir.rs/Makefile"), None);
    assert_eq!(detect_language(".bashrc"), None);
    assert_eq!(detect_language("a/b/c.d.yml"), Some("yaml".to_string()));
}
