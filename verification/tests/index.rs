use lgrep::hashes::FileHashes;
use lgrep::{Chunk, Config, EmbeddingModel, IndexMetadata, LgrepError, VectorIndex};

fn chunk(id: u64, path: &str, hash: &str) -> Chunk {
    Chunk {
        id,
        text: format!("text {}", id),
        file_path: path.to_string(),
        start_line: 1,
        end_line: 1,
        file_hash: hash.to_string(),
        language: None,
    }
}

fn empty_index() -> VectorIndex {
    VectorIndex::new(Config::with_workers("root".to_string(), 1))
}

fn ids(index: &VectorIndex) -> Vec<u64> {
    index.metadata_ref().chunks.iter().map(|c| c.id).collect()
}

#[test]
fn a_new_index_is_empty() {
    let index = VectorIndex::new(
        Config::with_workers("root".to_string(), 1).with_model(EmbeddingModel::NomicEmbedTextV15),
    );
    assert_eq!(index.chunk_count(), 0);
    assert_eq!(index.file_count(), 0);
    assert_eq!(index.next_id(), 0);
    assert!(index.indexed_files().is_empty());
    assert_eq!(index.metadata_ref().model_name, "nomic-ai/nomic-embed-text-v1.5");
    assert_eq!(index.metadata_ref().dimension, 768);
    assert_eq!(index.config().root_path, "root");
    let metadata = IndexMetadata::new("m".to_string(), 12);
    assert_eq!(metadata.model_name, "m");
    assert_eq!(metadata.dimension, 12);
    assert_eq!(metadata.next_id, 0);
    assert!(metadata.chunks.is_empty());
    assert_eq!(metadata.file_hashes.len(), 0);
}

#[test]
fn adding_chunks_records_them_with_their_hashes() {
    let mut index = empty_index();
    index
        .add_chunks(vec![chunk(0, "a.rs", "h1"), chunk(1, "a.rs", "h1"), chunk(2, "b.rs", "h2")], 3)
        .unwrap();
    assert_eq!(index.chunk_count(), 3);
    assert_eq!(index.file_count(), 2);
    assert_eq!(index.next_id(), 3);
    assert_eq!(ids(&index), vec![0, 1, 2]);
    assert_eq!(index.get_file_hash("a.rs"), Some(&"h1".to_string()));
    assert_eq!(index.get_file_hash("b.rs"), Some(&"h2".to_string()));
    assert_eq!(index.get_file_hash("c.rs"), None);
    assert_eq!(index.indexed_files(), vec!["a.rs", "b.rs"]);
}

#[test]
fn next_id_is_one_above_the_largest_id() {
    let mut index = empty_index();
    index.add_chunks(vec![chunk(7, "a.rs", "h"), chunk(3, "a.rs", "h")], 2).unwrap();
    assert_eq!(index.next_id(), 8);
    assert_eq!(ids(&index), vec![7, 3]);
    index.add_chunks(vec![chunk(5, "b.rs", "g")], 1).unwrap();
    assert_eq!(index.next_id(), 8);
    index.add_chunks(vec![], 0).unwrap();
    assert_eq!(index.next_id(), 8);
    let mut other = empty_index();
    other.add_chunks(vec![], 0).unwrap();
    assert_eq!(other.next_id(), 1);
}

#[test]
fn a_count_mismatch_is_an_index_error_and_changes_nothing() {
    let mut index = empty_index();
    index.add_chunks(vec![chunk(0, "a.rs", "h")], 1).unwrap();
    match index.add_chunks(vec![chunk(1, "b.rs", "g")], 2) {
        Err(LgrepError::Index(cause)) => assert_eq!(cause, "Chunks and embeddings count mismatch"),
        other => panic!("unexpected {:?}", other),
    }
    assert_eq!(index.chunk_count(), 1);
    assert_eq!(index.file_count(), 1);
    assert_eq!(index.next_id(), 1);
}

#[test]
fn ids_stay_unique() {
    let mut index = empty_index();
    index.add_chunks(vec![chunk(0, "a.rs", "h"), chunk(4, "a.rs", "h")], 2).unwrap();
    match index.add_chunks(vec![chunk(9, "b.rs", "g"), chunk(4, "b.rs", "g")], 2) {
        Err(LgrepError::Index(cause)) => assert_eq!(cause, "Duplicate keys not allowed"),
        other => panic!("unexpected {:?}", other),
    }
    assert!(index.add_chunks(vec![chunk(6, "b.rs", "g"), chunk(6, "b.rs", "g")], 2).is_err());
    assert_eq!(ids(&index), vec![0, 4]);
    assert_eq!(index.get_file_hash("b.rs"), None);
    // an unused id below the next id is accepted
    index.add_chunks(vec![chunk(2, "b.rs", "g")], 1).unwrap();
    assert_eq!(ids(&index), vec![0, 4, 2]);
    let all = ids(&index);
    for (i, a) in all.iter().enumerate() {
        assert!(*a < index.next_id());
        for b in &all[i + 1..] {
            assert_ne!(a, b);
        }
    }
}

#[test]
fn removing_a_file_takes_its_chunks_and_its_hash() {
    let mut index = empty_index();
    index
        .add_chunks(
            vec![
                chunk(0, "a.rs", "h1"),
                chunk(1, "b.rs", "h2"),
                chunk(2, "a.rs", "h1"),
                chunk(3, "c.rs", "h3"),
            ],
            4,
        )
        .unwrap();
    assert_eq!(index.remove_file("a.rs").unwrap(), vec![0, 2]);
    assert_eq!(ids(&index), vec![1, 3]);
    assert_eq!(index.indexed_files(), vec!["b.rs", "c.rs"]);
    assert_eq!(index.get_file_hash("a.rs"), None);
    assert_eq!(index.next_id(), 4);
    assert_eq!(index.remove_file("a.rs").unwrap(), Vec::<u64>::new());
    assert_eq!(index.remove_file("nowhere").unwrap(), Vec::<u64>::new());
    assert_eq!(index.chunk_count(), 2);
}

#[test]
fn every_chunk_carries_the_hash_on_record() {
    let mut index = empty_index();
    index.add_chunks(vec![chunk(0, "a.rs", "h1"), chunk(1, "b.rs", "h2")], 2).unwrap();
    index.remove_file("a.rs").unwrap();
    index.add_chunks(vec![chunk(2, "a.rs", "h9"), chunk(3, "a.rs", "h9")], 2).unwrap();
    for c in &index.metadata_ref().chunks {
        assert_eq!(index.get_file_hash(&c.file_path), Some(&c.file_hash));
    }
}

#[test]
fn the_last_chunk_of_a_file_sets_its_hash() {
    let mut index = empty_index();
    index.add_chunks(vec![chunk(0, "a.rs", "old"), chunk(1, "a.rs", "new")], 2).unwrap();
    assert_eq!(index.get_file_hash("a.rs"), Some(&"new".to_string()));
    assert_eq!(index.file_count(), 1);
}

#[test]
fn neighbours_become_results_by_falling_score() {
    let mut index = empty_index();
    index
        .add_chunks(vec![chunk(0, "a.rs", "h"), chunk(1, "b.rs", "g"), chunk(2, "c.rs", "f")], 3)
        .unwrap();
    let results = index.search(&vec![2, 0, 1], &vec![300_000, 100_000, 300_000]);
    let view: Vec<(u64, i64)> = results.iter().map(|r| (r.chunk.id, r.score)).collect();
    assert_eq!(view, vec![(0, 900_000), (2, 700_000), (1, 700_000)]);
}

#[test]
fn neighbours_without_a_chunk_are_left_out() {
    let mut index = empty_index();
    index.add_chunks(vec![chunk(0, "a.rs", "h")], 1).unwrap();
    let results = index.search(&vec![5, 0, 6], &vec![0, 2_000_000, 10]);
    assert_eq!(results.len(), 1);
    assert_eq!(results[0].chunk.id, 0);
    assert_eq!(results[0].score, -1_000_000);
    assert_eq!(results[0].chunk.text, "text 0");
    assert!(index.search(&vec![], &vec![]).is_empty());
    // keys without a distance do not count
    assert_eq!(index.search(&vec![0, 0], &vec![0]).len(), 1);
    assert!(empty_index().search(&vec![0], &vec![0]).is_empty());
    assert_eq!(index.chunk_by_id(0).unwrap().file_path, "a.rs");
    assert!(index.chunk_by_id(1).is_none());
}

#[test]
fn an_index_is_put_together_from_sound_parts_only() {
    let config = Config::with_workers("root".to_string(), 1);
    let mut hashes = FileHashes::new();
    hashes.insert("a.rs".to_string(), "h".to_string());
    let sound = IndexMetadata {
        chunks: vec![chunk(4, "a.rs", "h"), chunk(2, "a.rs", "h")],
        file_hashes: hashes,
        next_id: 5,
        model_name: "m".to_string(),
        dimension: 3,
    };
    let index = VectorIndex::from_parts(sound, config.clone()).unwrap();
    assert_eq!(index.chunk_count(), 2);
    assert_eq!(index.next_id(), 5);
    assert_eq!(index.file_count(), 1);
    let twice = IndexMetadata {
        chunks: vec![chunk(1, "a.rs", "h"), chunk(1, "b.rs", "h")],
        file_hashes: FileHashes::new(),
        next_id: 5,
        model_name: "m".to_string(),
        dimension: 3,
    };
    assert!(matches!(VectorIndex::from_parts(twice, config.clone()), Err(LgrepError::Index(_))));
    let low = IndexMetadata {
        chunks: vec![chunk(1, "a.rs", "h")],
        file_hashes: FileHashes::new(),
        next_id: 1,
        model_name: "m".to_string(),
        dimension: 3,
    };
    assert!(matches!(VectorIndex::from_parts(low, config), Err(LgrepError::Index(_))));
}

#[test]
fn the_table_of_hashes_keeps_one_hash_per_path() {
    let mut hashes = FileHashes::new();
    assert_eq!(hashes.len(), 0);
    hashes.insert("a".to_string(), "1".to_string());
    hashes.insert("b".to_string(), "2".to_string());
    hashes.insert("a".to_string(), "3".to_string());
    assert_eq!(hashes.len(), 2);
    assert_eq!(hashes.get("a"), Some(&"3".to_string()));
    assert_eq!(hashes.get("b"), Some(&"2".to_string()));
    assert_eq!(hashes.get("c"), None);
    assert_eq!(hashes.keys(), vec!["a", "b"]);
    hashes.remove("a");
    hashes.remove("zzz");
    assert_eq!(hashes.keys(), vec!["b"]);
    assert_eq!(hashes.get("a"), None);
    assert_eq!(hashes.as_entries()[0].hash, "2");
}
