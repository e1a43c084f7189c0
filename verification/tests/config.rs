use lgrep::config::{code_extension, model_for_tag, Config, EmbeddingModel};
use lgrep::{should_index_file, LgrepError};

#[test]
fn test_model_parsing() {
    let model: EmbeddingModel = "minilm".parse().unwrap();
    assert_eq!(model.dimension(), 384);

    let model: EmbeddingModel = "nomic".parse().unwrap();
    assert_eq!(model.dimension(), 768);

    assert!("invalid".parse::<EmbeddingModel>().is_err());
}

#[test]
fn test_should_index_file() {
    assert!(should_index_file("main.rs"));
    assert!(should_index_file("app.py"));
    assert!(should_index_file("index.tsx"));
    assert!(!should_index_file("image.png"));
    assert!(!should_index_file("binary.exe"));
}

#[test]
fn test_config_defaults() {
    let config = Config::default();
    assert_eq!(config.chunk_size, 512);
    assert_eq!(config.chunk_overlap, 64);
    assert_eq!(config.max_file_size, 10 * 1024 * 1024);
}

#[test]
fn default_config_points_at_the_current_directory() {
    let config = Config::default();
    assert_eq!(config.root_path, ".");
    assert_eq!(config.index_dir, ".lgrep");
    assert_eq!(config.model, EmbeddingModel::AllMiniLmL6V2);
}

#[test]
fn new_config_keeps_the_index_below_the_root() {
    let config = Config::with_workers("/home/me/project".to_string(), 3);
    assert_eq!(config.root_path, "/home/me/project");
    assert_eq!(config.index_dir, "/home/me/project/.lgrep");
    assert_eq!(config.chunk_size, 512);
    assert_eq!(config.chunk_overlap, 64);
    assert_eq!(config.max_file_size, 10485760);
    assert_eq!(config.workers, 3);
    assert_eq!(config.index_path(), "/home/me/project/.lgrep/vectors.usearch");
    assert_eq!(config.metadata_path(), "/home/me/project/.lgrep/metadata.bin");
    assert_eq!(config.config_path(), "/home/me/project/.lgrep/config.json");
    let same = Config::new("/home/me/project".to_string());
    assert_eq!(same.index_dir, "/home/me/project/.lgrep");
    assert_eq!(same.chunk_size, 512);
}

#[test]
fn joining_leaves_out_a_second_separator() {
    assert_eq!(Config::with_workers("dir/".to_string(), 1).index_dir, "dir/.lgrep");
    assert_eq!(Config::with_workers("/".to_string(), 1).index_dir, "/.lgrep");
    assert_eq!(Config::with_workers("".to_string(), 1).index_dir, ".lgrep");
}

#[test]
fn builders_change_one_setting() {
    let config = Config::with_workers("r".to_string(), 2)
        .with_model(EmbeddingModel::NomicEmbedTextV15)
        .with_chunk_size(2048);
    assert_eq!(config.model, EmbeddingModel::NomicEmbedTextV15);
    assert_eq!(config.chunk_size, 2048);
    assert_eq!(config.chunk_overlap, 64);
    assert_eq!(config.root_path, "r");
    assert_eq!(config.index_dir, "r/.lgrep");
    assert_eq!(config.workers, 2);
}

#[test]
fn models_have_names_and_dimensions() {
    assert_eq!(EmbeddingModel::AllMiniLmL6V2.model_name(), "sentence-transformers/all-MiniLM-L6-v2");
    assert_eq!(EmbeddingModel::BgeSmallEnV15.model_name(), "BAAI/bge-small-en-v1.5");
    assert_eq!(EmbeddingModel::NomicEmbedTextV15.model_name(), "nomic-ai/nomic-embed-text-v1.5");
    assert_eq!(EmbeddingModel::MultilingualE5Small.model_name(), "intfloat/multilingual-e5-small");
    assert_eq!(EmbeddingModel::AllMiniLmL6V2.dimension(), 384);
    assert_eq!(EmbeddingModel::BgeSmallEnV15.dimension(), 384);
    assert_eq!(EmbeddingModel::NomicEmbedTextV15.dimension(), 768);
    assert_eq!(EmbeddingModel::MultilingualE5Small.dimension(), 384);
    assert_eq!(EmbeddingModel::default(), EmbeddingModel::AllMiniLmL6V2);
}

#[test]
fn every_alias_names_its_model() {
    for tag in ["minilm", "all-minilm-l6-v2", "default"] {
        assert_eq!(model_for_tag(tag), Some(EmbeddingModel::AllMiniLmL6V2));
    }
    for tag in ["bge", "bge-small", "bge-small-en-v1.5"] {
        assert_eq!(model_for_tag(tag), Some(EmbeddingModel::BgeSmallEnV15));
    }
    for tag in ["nomic", "nomic-embed", "nomic-embed-text-v1.5"] {
        assert_eq!(model_for_tag(tag), Some(EmbeddingModel::NomicEmbedTextV15));
    }
    for tag in ["multilingual", "e5", "multilingual-e5-small"] {
        assert_eq!(model_for_tag(tag), Some(EmbeddingModel::MultilingualE5Small));
    }
    assert_eq!(model_for_tag("MiniLM"), None);
    assert_eq!(EmbeddingModel::parse("MiniLM").unwrap(), EmbeddingModel::AllMiniLmL6V2);
    assert_eq!(EmbeddingModel::parse("BGE-Small").unwrap(), EmbeddingModel::BgeSmallEnV15);
}

#[test]
fn an_unknown_model_is_a_configuration_error() {
    match EmbeddingModel::parse("gpt") {
        Err(LgrepError::Config(cause)) => {
            assert_eq!(cause, "Unknown model: gpt. Valid options: minilm, bge, nomic, multilingual");
        }
        other => panic!("unexpected {:?}", other),
    }
    let message = EmbeddingModel::parse("Gpt").unwrap_err().message();
    assert_eq!(
        message,
        "Configuration error: Unknown model: Gpt. Valid options: minilm, bge, nomic, multilingual"
    );
}

#[test]
fn extensions_are_matched_without_regard_to_case() {
    assert!(should_index_file("README.MD"));
    assert!(should_index_file("src/deep/Main.Java"));
    assert!(should_index_file("a.b/c.Toml"));
    assert!(!should_index_file("Makefile"));
    assert!(!should_index_file(".gitignore"));
    assert!(!should_index_file("dir.rs/binary"));
    assert!(!should_index_file("archive.tar.gz"));
    assert!(!should_index_file("name."));
    assert!(!should_index_file(".."));
    assert!(code_extension("fish"));
    assert!(code_extension("csv"));
    assert!(!code_extension("RS"));
    assert!(!code_extension("mts"));
}

#[test]
fn error_messages_name_their_kind() {
    assert_eq!(LgrepError::Io("gone".to_string()).message(), "IO error: gone");
    assert_eq!(LgrepError::Embedding("x".to_string()).message(), "Embedding error: x");
    assert_eq!(LgrepError::Index("x".to_string()).message(), "Index error: x");
    assert_eq!(LgrepError::Serialization("x".to_string()).message(), "Serialization error: x");
    assert_eq!(LgrepError::Json("x".to_string()).message(), "JSON error: x");
    assert_eq!(LgrepError::NoIndex.message(), "No index found. Run `lgrep index` first.");
    assert_eq!(LgrepError::InvalidPath("x".to_string()).message(), "Invalid path: x");
    assert_eq!(LgrepError::Watch("x".to_string()).message(), "Watch error: x");
    assert_eq!(LgrepError::Config("x".to_string()).message(), "Configuration error: x");
}
