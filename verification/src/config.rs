//! Settings of an index: the embedding model, the sizes of chunks, the
//! directory layout, and which files are indexed at all.
use crate::error::{concat, LgrepError};
use crate::paths::{extension_of, file_extension, join_path, joined};
use crate::text::{lowercase_of, str_eq, to_lowercase};
use vstd::prelude::*;

verus! {

/// The embedding models that an index can be built with.
#[derive(Debug, Clone, Copy, PartialEq, Eq, Structural)]
pub enum EmbeddingModel {
    /// Small and fast; the default.
    AllMiniLmL6V2,
    /// Better retrieval at the same dimension.
    BgeSmallEnV15,
    /// Largest vectors; made for code and technical text.
    NomicEmbedTextV15,
    /// For text in many languages.
    MultilingualE5Small,
}

impl Default for EmbeddingModel {
    fn default() -> (r: EmbeddingModel)
        ensures
            r == EmbeddingModel::AllMiniLmL6V2,
    {
        EmbeddingModel::AllMiniLmL6V2
    }
}

/// The model that a lower-case tag names.
pub open spec fn model_of_tag(tag: Seq<char>) -> Option<EmbeddingModel> {
    if tag == "minilm"@ || tag == "all-minilm-l6-v2"@ || tag == "default"@ {
        Some(EmbeddingModel::AllMiniLmL6V2)
    } else if tag == "bge"@ || tag == "bge-small"@ || tag == "bge-small-en-v1.5"@ {
        Some(EmbeddingModel::BgeSmallEnV15)
    } else if tag == "nomic"@ || tag == "nomic-embed"@ || tag == "nomic-embed-text-v1.5"@ {
        Some(EmbeddingModel::NomicEmbedTextV15)
    } else if tag == "multilingual"@ || tag == "e5"@ || tag == "multilingual-e5-small"@ {
        Some(EmbeddingModel::MultilingualE5Small)
    } else {
        None
    }
}

/// What is said of a tag that names no model.
pub open spec fn unknown_model(tag: Seq<char>) -> Seq<char> {
    "Unknown model: "@ + tag + ". Valid options: minilm, bge, nomic, multilingual"@
}

/// The model that a lower-case tag names.
pub fn model_for_tag(tag: &str) -> (r: Option<EmbeddingModel>)
    ensures
        r == model_of_tag(tag@),
{
    if str_eq(tag, "minilm") || str_eq(tag, "all-minilm-l6-v2") || str_eq(tag, "default") {
        Some(EmbeddingModel::AllMiniLmL6V2)
    } else if str_eq(tag, "bge") || str_eq(tag, "bge-small") || str_eq(tag, "bge-small-en-v1.5") {
        Some(EmbeddingModel::BgeSmallEnV15)
    } else if str_eq(tag, "nomic") || str_eq(tag, "nomic-embed") || str_eq(
        tag,
        "nomic-embed-text-v1.5",
    ) {
        Some(EmbeddingModel::NomicEmbedTextV15)
    } else if str_eq(tag, "multilingual") || str_eq(tag, "e5") || str_eq(
        tag,
        "multilingual-e5-small",
    ) {
        Some(EmbeddingModel::MultilingualE5Small)
    } else {
        None
    }
}

impl EmbeddingModel {
    /// The name under which the model is published.
    pub open spec fn spec_model_name(&self) -> Seq<char> {
        match self {
            EmbeddingModel::AllMiniLmL6V2 => "sentence-transformers/all-MiniLM-L6-v2"@,
            EmbeddingModel::BgeSmallEnV15 => "BAAI/bge-small-en-v1.5"@,
            EmbeddingModel::NomicEmbedTextV15 => "nomic-ai/nomic-embed-text-v1.5"@,
            EmbeddingModel::MultilingualE5Small => "intfloat/multilingual-e5-small"@,
        }
    }

    /// The length of the vectors that the model gives.
    pub open spec fn spec_dimension(&self) -> nat {
        match self {
            EmbeddingModel::AllMiniLmL6V2 => 384,
            EmbeddingModel::BgeSmallEnV15 => 384,
            EmbeddingModel::NomicEmbedTextV15 => 768,
            EmbeddingModel::MultilingualE5Small => 384,
        }
    }

    /// The name under which the model is published.
    pub fn model_name(&self) -> (r: &'static str)
        ensures
            r@ == self.spec_model_name(),
    {
        match self {
            EmbeddingModel::AllMiniLmL6V2 => "sentence-transformers/all-MiniLM-L6-v2",
            EmbeddingModel::BgeSmallEnV15 => "BAAI/bge-small-en-v1.5",
            EmbeddingModel::NomicEmbedTextV15 => "nomic-ai/nomic-embed-text-v1.5",
            EmbeddingModel::MultilingualE5Small => "intfloat/multilingual-e5-small",
        }
    }

    /// The length of the vectors that the model gives.
    pub fn dimension(&self) -> (r: usize)
        ensures
            r == self.spec_dimension(),
    {
        match self {
            EmbeddingModel::AllMiniLmL6V2 => 384,
            EmbeddingModel::BgeSmallEnV15 => 384,
            EmbeddingModel::NomicEmbedTextV15 => 768,
            EmbeddingModel::MultilingualE5Small => 384,
        }
    }

    /// The model that a tag names, whatever the case of its letters; a
    /// configuration error for a tag that names none.
    pub fn parse(tag: &str) -> (r: Result<EmbeddingModel, LgrepError>)
        ensures
            match model_of_tag(lowercase_of(tag@)) {
                Some(model) => r == Ok::<EmbeddingModel, LgrepError>(model),
                None => r matches Err(LgrepError::Config(cause)) && cause@ == unknown_model(tag@),
            },
    {
        let lower = to_lowercase(tag);
        match model_for_tag(lower.as_str()) {
            Some(model) => Ok(model),
            None => {
                let mut cause = concat("Unknown model: ", tag);
                cause = concat(
                    cause.as_str(),
                    ". Valid options: minilm, bge, nomic, multilingual",
                );
                Err(LgrepError::Config(cause))
            },
        }
    }
}

impl std::str::FromStr for EmbeddingModel {
    type Err = LgrepError;

    /// The model that a tag names, whatever the case of its letters; a
    /// configuration error for a tag that names none.
    fn from_str(tag: &str) -> (r: Result<EmbeddingModel, LgrepError>)
        ensures
            match model_of_tag(lowercase_of(tag@)) {
                Some(model) => r == Ok::<EmbeddingModel, LgrepError>(model),
                None => r matches Err(LgrepError::Config(cause)) && cause@ == unknown_model(tag@),
            },
    {
        EmbeddingModel::parse(tag)
    }
}

/// Name of the directory that holds an index, below the root it indexes.
pub const INDEX_DIR_NAME: &'static str = ".lgrep";

/// Name of the file that holds the vectors.
pub const VECTORS_FILE_NAME: &'static str = "vectors.usearch";

/// Name of the file that holds the chunk records.
pub const METADATA_FILE_NAME: &'static str = "metadata.bin";

/// Name of the file that holds the settings.
pub const CONFIG_FILE_NAME: &'static str = "config.json";

/// The chunk size of an index for which none was chosen.
pub const DEFAULT_CHUNK_SIZE: usize = 512;

/// The overlap of an index for which none was chosen.
pub const DEFAULT_CHUNK_OVERLAP: usize = 64;

/// The largest file that is indexed by default: 10 MiB.
pub const DEFAULT_MAX_FILE_SIZE: u64 = 10485760;

/// The settings of one index.
#[derive(Debug)]
pub struct Config {
    /// The directory that is indexed.
    pub root_path: String,
    /// The directory that holds the index.
    pub index_dir: String,
    /// The model that embeds the chunks.
    pub model: EmbeddingModel,
    /// The size that chunks are filled to, in bytes.
    pub chunk_size: usize,
    /// The size that the overlap of two chunks is held to, in bytes.
    pub chunk_overlap: usize,
    /// The largest file that is indexed, in bytes.
    pub max_file_size: u64,
    /// How many workers read files side by side.
    pub workers: usize,
}

/// `num_cpus::get`: the number of processors that this process may use. It
/// depends on the machine and on the moment, so nothing is claimed of it.
#[verifier::external_body]
fn available_workers() -> (r: usize) {
    num_cpus::get()
}

impl Config {
    /// The settings with every choice left at its default, for an index of
    /// `root_path` that is worked on by `workers` workers.
    pub open spec fn defaults(root_path: Seq<char>, workers: usize) -> ConfigView {
        ConfigView {
            root_path,
            index_dir: joined(root_path, INDEX_DIR_NAME@),
            model: EmbeddingModel::AllMiniLmL6V2,
            chunk_size: DEFAULT_CHUNK_SIZE,
            chunk_overlap: DEFAULT_CHUNK_OVERLAP,
            max_file_size: DEFAULT_MAX_FILE_SIZE,
            workers,
        }
    }

    /// The default settings for an index of `root_path`, which is kept in
    /// the directory `.lgrep` below it. The number of workers is that of the
    /// processors at hand.
    pub fn new(root_path: String) -> (r: Config)
        ensures
            r@ == Config::defaults(root_path@, r.workers),
    {
        Config::with_workers(root_path, available_workers())
    }

    /// The default settings for an index of `root_path` and a given number
    /// of workers.
    pub fn with_workers(root_path: String, workers: usize) -> (r: Config)
        ensures
            r@ == Config::defaults(root_path@, workers),
    {
        let index_dir = join_path(root_path.as_str(), INDEX_DIR_NAME);
        Config {
            root_path,
            index_dir,
            model: EmbeddingModel::AllMiniLmL6V2,
            chunk_size: DEFAULT_CHUNK_SIZE,
            chunk_overlap: DEFAULT_CHUNK_OVERLAP,
            max_file_size: DEFAULT_MAX_FILE_SIZE,
            workers,
        }
    }

    /// The same settings with another model.
    pub fn with_model(self, model: EmbeddingModel) -> (r: Config)
        ensures
            r@ == (ConfigView { model, ..self@ }),
    {
        let mut config = self;
        config.model = model;
        config
    }

    /// The same settings with another chunk size.
    pub fn with_chunk_size(self, size: usize) -> (r: Config)
        ensures
            r@ == (ConfigView { chunk_size: size, ..self@ }),
    {
        let mut config = self;
        config.chunk_size = size;
        config
    }

    /// Where the vectors are kept.
    pub fn index_path(&self) -> (r: String)
        ensures
            r@ == joined(self.index_dir@, VECTORS_FILE_NAME@),
    {
        join_path(self.index_dir.as_str(), VECTORS_FILE_NAME)
    }

    /// Where the chunk records are kept.
    pub fn metadata_path(&self) -> (r: String)
        ensures
            r@ == joined(self.index_dir@, METADATA_FILE_NAME@),
    {
        join_path(self.index_dir.as_str(), METADATA_FILE_NAME)
    }

    /// Where the settings are kept.
    pub fn config_path(&self) -> (r: String)
        ensures
            r@ == joined(self.index_dir@, CONFIG_FILE_NAME@),
    {
        join_path(self.index_dir.as_str(), CONFIG_FILE_NAME)
    }
}

/// What a `Config` holds, as mathematical values.
pub struct ConfigView {
    pub root_path: Seq<char>,
    pub index_dir: Seq<char>,
    pub model: EmbeddingModel,
    pub chunk_size: usize,
    pub chunk_overlap: usize,
    pub max_file_size: u64,
    pub workers: usize,
}

impl View for Config {
    type V = ConfigView;

    open spec fn view(&self) -> ConfigView {
        ConfigView {
            root_path: self.root_path@,
            index_dir: self.index_dir@,
            model: self.model,
            chunk_size: self.chunk_size,
            chunk_overlap: self.chunk_overlap,
            max_file_size: self.max_file_size,
            workers: self.workers,
        }
    }
}

impl Clone for Config {
    fn clone(&self) -> (r: Config)
        ensures
            r@ == self@,
    {
        Config {
            root_path: self.root_path.clone(),
            index_dir: self.index_dir.clone(),
            model: self.model,
            chunk_size: self.chunk_size,
            chunk_overlap: self.chunk_overlap,
            max_file_size: self.max_file_size,
            workers: self.workers,
        }
    }
}

impl Default for Config {
    fn default() -> (r: Config)
        ensures
            r@ == (ConfigView {
                root_path: "."@,
                index_dir: INDEX_DIR_NAME@,
                ..Config::defaults("."@, r.workers)
            }),
    {
        Config {
            root_path: ".".to_owned(),
            index_dir: INDEX_DIR_NAME.to_owned(),
            model: EmbeddingModel::AllMiniLmL6V2,
            chunk_size: DEFAULT_CHUNK_SIZE,
            chunk_overlap: DEFAULT_CHUNK_OVERLAP,
            max_file_size: DEFAULT_MAX_FILE_SIZE,
            workers: available_workers(),
        }
    }
}

/// Whether files with this lower-case extension are indexed.
pub open spec fn is_code_extension(ext: Seq<char>) -> bool {
    ||| ext == "rs"@
    ||| ext == "py"@
    ||| ext == "pyi"@
    ||| ext == "pyw"@
    ||| ext == "js"@
    ||| ext == "jsx"@
    ||| ext == "ts"@
    ||| ext == "tsx"@
    ||| ext == "mjs"@
    ||| ext == "cjs"@
    ||| ext == "go"@
    ||| ext == "java"@
    ||| ext == "kt"@
    ||| ext == "kts"@
    ||| ext == "c"@
    ||| ext == "h"@
    ||| ext == "cpp"@
    ||| ext == "hpp"@
    ||| ext == "cc"@
    ||| ext == "cxx"@
    ||| ext == "hxx"@
    ||| ext == "cs"@
    ||| ext == "rb"@
    ||| ext == "rake"@
    ||| ext == "php"@
    ||| ext == "swift"@
    ||| ext == "scala"@
    ||| ext == "sc"@
    ||| ext == "sh"@
    ||| ext == "bash"@
    ||| ext == "zsh"@
    ||| ext == "fish"@
    ||| ext == "sql"@
    ||| ext == "html"@
    ||| ext == "htm"@
    ||| ext == "css"@
    ||| ext == "scss"@
    ||| ext == "sass"@
    ||| ext == "less"@
    ||| ext == "vue"@
    ||| ext == "svelte"@
    ||| ext == "json"@
    ||| ext == "yaml"@
    ||| ext == "yml"@
    ||| ext == "toml"@
    ||| ext == "ini"@
    ||| ext == "cfg"@
    ||| ext == "conf"@
    ||| ext == "md"@
    ||| ext == "mdx"@
    ||| ext == "rst"@
    ||| ext == "txt"@
    ||| ext == "tf"@
    ||| ext == "hcl"@
    ||| ext == "xml"@
    ||| ext == "csv"@
}

/// Whether files with this lower-case extension are indexed.
pub fn code_extension(ext: &str) -> (r: bool)
    ensures
        r == is_code_extension(ext@),
{
    str_eq(ext, "rs") || str_eq(ext, "py") || str_eq(ext, "pyi") || str_eq(ext, "pyw") || str_eq(
        ext,
        "js",
    ) || str_eq(ext, "jsx") || str_eq(ext, "ts") || str_eq(ext, "tsx") || str_eq(ext, "mjs")
        || str_eq(ext, "cjs") || str_eq(ext, "go") || str_eq(ext, "java") || str_eq(ext, "kt")
        || str_eq(ext, "kts") || str_eq(ext, "c") || str_eq(ext, "h") || str_eq(ext, "cpp")
        || str_eq(ext, "hpp") || str_eq(ext, "cc") || str_eq(ext, "cxx") || str_eq(ext, "hxx")
        || str_eq(ext, "cs") || str_eq(ext, "rb") || str_eq(ext, "rake") || str_eq(ext, "php")
        || str_eq(ext, "swift") || str_eq(ext, "scala") || str_eq(ext, "sc") || str_eq(ext, "sh")
        || str_eq(ext, "bash") || str_eq(ext, "zsh") || str_eq(ext, "fish") || str_eq(ext, "sql")
        || str_eq(ext, "html") || str_eq(ext, "htm") || str_eq(ext, "css") || str_eq(ext, "scss")
        || str_eq(ext, "sass") || str_eq(ext, "less") || str_eq(ext, "vue") || str_eq(
        ext,
        "svelte",
    ) || str_eq(ext, "json") || str_eq(ext, "yaml") || str_eq(ext, "yml") || str_eq(ext, "toml")
        || str_eq(ext, "ini") || str_eq(ext, "cfg") || str_eq(ext, "conf") || str_eq(ext, "md")
        || str_eq(ext, "mdx") || str_eq(ext, "rst") || str_eq(ext, "txt") || str_eq(ext, "tf")
        || str_eq(ext, "hcl") || str_eq(ext, "xml") || str_eq(ext, "csv")
}

/// Whether a file is indexed: whether its extension, in lower case, is one
/// of the extensions of code and text.
pub open spec fn indexable(path: Seq<char>) -> bool {
    match file_extension(path) {
        Some(ext) => is_code_extension(lowercase_of(ext)),
        None => false,
    }
}

/// Whether the file at `path` is indexed.
pub fn should_index_file(path: &str) -> (r: bool)
    ensures
        r == indexable(path@),
{
    match extension_of(path) {
        Some(ext) => {
            let lower = to_lowercase(ext);
            code_extension(lower.as_str())
        },
        None => false,
    }
}

} // verus!
