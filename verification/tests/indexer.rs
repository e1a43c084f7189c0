use lgrep::{compute_hash, Chunk, Config, FileToIndex, Indexer, UpdateStats, VectorIndex};

fn file(path: &str, content: &str) -> FileToIndex {
    FileToIndex::new(format!("/root/{}", path), path.to_string(), content.to_string())
}

fn indexer() -> Indexer {
    Indexer::new(Config::with_workers("/root".to_string(), 1).with_chunk_size(40))
}

fn fresh(indexer: &Indexer) -> VectorIndex {
    indexer.build_index(&vec![]).0
}

fn tree() -> Vec<FileToIndex> {
    vec![
        file("a.rs", "fn a() {}\nfn b() {}\nfn c() {}\nfn d() {}\nfn e() {}\nfn f() {}"),
        file("b.py", "print(1)"),
        file("docs/c.md", "# title\n\ntext"),
    ]
}

/// One round of keeping the index in step: update, chunk, add.
fn sync(indexer: &Indexer, index: &mut VectorIndex, files: Vec<FileToIndex>) -> (UpdateStats, Vec<u64>) {
    let outcome = indexer.update_index(index, files);
    let chunks = indexer.index_files(index, &outcome.files_to_index);
    let count = chunks.len();
    index.add_chunks(chunks, count).unwrap();
    (outcome.stats, outcome.removed_ids)
}

fn records(index: &VectorIndex, path: &str) -> Vec<(u64, String)> {
    index
        .metadata_ref()
        .chunks
        .iter()
        .filter(|c: &&Chunk| c.file_path == path)
        .map(|c| (c.id, c.text.clone()))
        .collect()
}

#[test]
fn the_hash_is_sha256_in_hex() {
    assert_eq!(
        compute_hash(""),
        "e3b0c44298fc1c149afbf4c8996fb92427ae41e4649b934ca495991b7852b855"
    );
    assert_eq!(
        compute_hash("abc"),
        "ba7816bf8f01cfea414140de5dae2223b00361a396177a9cb410ff61f20015ad"
    );
    let f = file("a.rs", "abc");
    assert_eq!(f.hash, compute_hash("abc"));
    assert_eq!(f.path, "/root/a.rs");
    assert_eq!(f.relative_path, "a.rs");
    assert_eq!(f.content, "abc");
}

#[test]
fn a_first_update_adds_every_file() {
    let indexer = indexer();
    let mut index = fresh(&indexer);
    assert_eq!(index.chunk_count(), 0);
    let (stats, removed) = sync(&indexer, &mut index, tree());
    assert_eq!(stats, UpdateStats { added: 3, updated: 0, removed: 0, unchanged: 0 });
    assert!(removed.is_empty());
    assert_eq!(index.file_count(), 3);
    assert_eq!(index.indexed_files(), vec!["a.rs", "b.py", "docs/c.md"]);
    let ids: Vec<u64> = index.metadata_ref().chunks.iter().map(|c| c.id).collect();
    assert_eq!(ids, (0..ids.len() as u64).collect::<Vec<u64>>());
    assert_eq!(index.next_id(), ids.len() as u64);
    assert!(records(&index, "a.rs").len() > 1);
    assert_eq!(index.get_file_hash("b.py"), Some(&compute_hash("print(1)")));
}

#[test]
fn a_second_update_finds_nothing_to_do() {
    let indexer = indexer();
    let mut index = fresh(&indexer);
    sync(&indexer, &mut index, tree());
    let before: Vec<u64> = index.metadata_ref().chunks.iter().map(|c| c.id).collect();
    let outcome = indexer.update_index(&mut index, tree());
    assert_eq!(outcome.stats, UpdateStats { added: 0, updated: 0, removed: 0, unchanged: 3 });
    assert!(outcome.files_to_index.is_empty());
    assert!(outcome.removed_ids.is_empty());
    assert_eq!(index.file_count(), 3);
    let after: Vec<u64> = index.metadata_ref().chunks.iter().map(|c| c.id).collect();
    assert_eq!(before, after);
}

#[test]
fn an_edited_file_is_updated_and_the_others_stay() {
    let indexer = indexer();
    let mut index = fresh(&indexer);
    sync(&indexer, &mut index, tree());
    let a_before = records(&index, "a.rs");
    let c_before = records(&index, "docs/c.md");
    let b_before = records(&index, "b.py");
    let next = index.next_id();
    let mut files = tree();
    files[1] = file("b.py", "print(2)\nprint(3)");
    let (stats, removed) = sync(&indexer, &mut index, files);
    assert_eq!(stats, UpdateStats { added: 0, updated: 1, removed: 0, unchanged: 2 });
    assert_eq!(removed, b_before.iter().map(|r| r.0).collect::<Vec<u64>>());
    assert_eq!(records(&index, "a.rs"), a_before);
    assert_eq!(records(&index, "docs/c.md"), c_before);
    let b_after = records(&index, "b.py");
    assert_eq!(b_after, vec![(next, "print(2)\nprint(3)".to_string())]);
    assert_eq!(index.get_file_hash("b.py"), Some(&compute_hash("print(2)\nprint(3)")));
    assert_eq!(index.file_count(), 3);
}

#[test]
fn a_deleted_file_leaves_the_index() {
    let indexer = indexer();
    let mut index = fresh(&indexer);
    sync(&indexer, &mut index, tree());
    let gone = records(&index, "a.rs");
    let mut files = tree();
    files.remove(0);
    let (stats, removed) = sync(&indexer, &mut index, files);
    assert_eq!(stats, UpdateStats { added: 0, updated: 0, removed: 1, unchanged: 2 });
    assert!(stats.removed >= 1);
    assert_eq!(removed, gone.iter().map(|r| r.0).collect::<Vec<u64>>());
    assert!(!index.indexed_files().iter().any(|p| p.as_str() == "a.rs"));
    assert!(records(&index, "a.rs").is_empty());
    let keys: Vec<u64> = gone.iter().map(|r| r.0).collect();
    let distances = vec![0; keys.len()];
    assert!(index.search(&keys, &distances).is_empty());
}

#[test]
fn an_empty_file_is_found_new_each_time() {
    let indexer = indexer();
    let mut index = fresh(&indexer);
    let (first, _) = sync(&indexer, &mut index, vec![file("empty.rs", ""), file("a.rs", "x")]);
    assert_eq!(first, UpdateStats { added: 2, updated: 0, removed: 0, unchanged: 0 });
    assert_eq!(index.file_count(), 1);
    let (second, _) = sync(&indexer, &mut index, vec![file("empty.rs", ""), file("a.rs", "x")]);
    assert_eq!(second, UpdateStats { added: 1, updated: 0, removed: 0, unchanged: 1 });
}

#[test]
fn chunk_ids_go_on_from_the_next_id() {
    let indexer = indexer();
    let mut index = fresh(&indexer);
    sync(&indexer, &mut index, vec![file("a.rs", "one")]);
    assert_eq!(index.next_id(), 1);
    let chunks = indexer.index_files(&index, &vec![file("b.rs", "two"), file("c.rs", ""), file("d.rs", "four")]);
    let view: Vec<(u64, &str)> = chunks.iter().map(|c| (c.id, c.file_path.as_str())).collect();
    assert_eq!(view, vec![(1, "b.rs"), (2, "d.rs")]);
    assert_eq!(chunks[0].file_hash, compute_hash("two"));
    assert!(indexer.index_files(&index, &vec![]).is_empty());
}

#[test]
fn files_are_taken_in_by_extension_and_size() {
    let indexer = Indexer::new(Config::with_workers("/root".to_string(), 1));
    assert!(indexer.accepts("/root/a.rs", 10));
    assert!(indexer.accepts("/root/a.rs", 10 * 1024 * 1024));
    assert!(!indexer.accepts("/root/a.rs", 10 * 1024 * 1024 + 1));
    assert!(!indexer.accepts("/root/a.png", 10));
    assert_eq!(indexer.config().chunk_size, 512);
}

#[test]
fn a_fresh_index_comes_with_the_chunks_of_all_files() {
    let indexer = indexer();
    let (mut index, chunks) = indexer.build_index(&tree());
    assert_eq!(index.chunk_count(), 0);
    assert_eq!(index.next_id(), 0);
    assert_eq!(index.config().chunk_size, 40);
    let ids: Vec<u64> = chunks.iter().map(|c| c.id).collect();
    assert_eq!(ids, (0..chunks.len() as u64).collect::<Vec<u64>>());
    assert_eq!(chunks[0].file_path, "a.rs");
    assert_eq!(chunks.last().unwrap().file_path, "docs/c.md");
    assert_eq!(chunks.last().unwrap().language, Some("markdown".to_string()));
    let count = chunks.len();
    index.add_chunks(chunks, count).unwrap();
    assert_eq!(index.file_count(), 3);
    let outcome = indexer.update_index(&mut index, tree());
    assert_eq!(outcome.stats, UpdateStats { added: 0, updated: 0, removed: 0, unchanged: 3 });
}

#[test]
fn the_checked_ways_give_the_same_chunks() {
    let indexer = indexer();
    let (index, chunks) = indexer.try_build_index(&tree()).unwrap();
    let (_, same) = indexer.build_index(&tree());
    assert_eq!(chunks.len(), same.len());
    assert_eq!(chunks[1].text, same[1].text);
    let more = indexer.try_index_files(&index, &vec![file("z.rs", "z")]).unwrap();
    assert_eq!(more.len(), 1);
    assert_eq!(more[0].id, 0);
    assert!(lgrep::indexer::within_limits(0, &tree()));
    assert!(lgrep::indexer::within_limits(u64::MAX - 100, &vec![file("z.rs", "z")]));
    assert!(!lgrep::indexer::within_limits(u64::MAX, &vec![file("z.rs", "z")]));
    assert!(lgrep::indexer::within_limits(u64::MAX, &vec![file("z.rs", "")]));
    assert!(!lgrep::indexer::within_limits(u64::MAX - 1, &vec![file("a.rs", "a"), file("b.rs", "b")]));
}

#[test]
fn stats_read_as_a_line() {
    let stats = UpdateStats { added: 1, updated: 20, removed: 0, unchanged: 345 };
    assert_eq!(stats.describe(), "Added: 1, Updated: 20, Removed: 0, Unchanged: 345");
    assert_eq!(UpdateStats::default(), UpdateStats { added: 0, updated: 0, removed: 0, unchanged: 0 });
}
