//! Filters on search results: by score, extension, language and path.
use crate::chunker::{Chunk, ChunkView};
use crate::paths::{extension_of, file_extension};
use crate::patterns::{answer, regex_search};
use crate::text::{lowercase_of, opt_view, str_eq, to_lowercase};
use vstd::prelude::*;

verus! {

/// What a search result has to meet to be kept.
#[derive(Debug)]
pub struct SearchFilter {
    /// The extensions that are wanted, as in `rs` and `py`.
    pub extensions: Option<Vec<String>>,
    /// The languages that are wanted, as in `rust` and `python`.
    pub languages: Option<Vec<String>>,
    /// A regular expression that the path has to match.
    pub path_pattern: Option<String>,
    /// A regular expression that the path must not match.
    pub exclude_pattern: Option<String>,
    /// The lowest score that is kept, in millionths.
    pub min_score: Option<i64>,
    /// The largest number of results that is kept.
    pub max_results: Option<usize>,
}

/// The character contents of a list of strings.
pub open spec fn string_views(list: Seq<String>) -> Seq<Seq<char>> {
    Seq::new(list.len(), |i: int| list[i]@)
}

/// The characters of an optional list of strings.
pub open spec fn opt_views(list: Option<Vec<String>>) -> Option<Seq<Seq<char>>> {
    match list {
        Some(list) => Some(string_views(list@)),
        None => None,
    }
}

/// What a filter holds, as mathematical values.
pub struct FilterView {
    pub extensions: Option<Seq<Seq<char>>>,
    pub languages: Option<Seq<Seq<char>>>,
    pub path_pattern: Option<Seq<char>>,
    pub exclude_pattern: Option<Seq<char>>,
    pub min_score: Option<i64>,
    pub max_results: Option<usize>,
}

impl View for SearchFilter {
    type V = FilterView;

    open spec fn view(&self) -> FilterView {
        FilterView {
            extensions: opt_views(self.extensions),
            languages: opt_views(self.languages),
            path_pattern: opt_view(self.path_pattern),
            exclude_pattern: opt_view(self.exclude_pattern),
            min_score: self.min_score,
            max_results: self.max_results,
        }
    }
}

/// Whether one of the names, in lower case, is `lowered`.
pub open spec fn lists(names: Seq<Seq<char>>, lowered: Seq<char>) -> bool {
    exists|i: int| 0 <= i < names.len() && lowercase_of(#[trigger] names[i]) == lowered
}

/// Whether the score is high enough.
pub open spec fn score_passes(min_score: Option<i64>, score: int) -> bool {
    match min_score {
        Some(min) => score >= min,
        None => true,
    }
}

/// Whether the extension of the path is one of those that are wanted.
pub open spec fn extension_passes(wanted: Option<Seq<Seq<char>>>, path: Seq<char>) -> bool {
    match wanted {
        Some(names) => match file_extension(path) {
            Some(ext) => lists(names, lowercase_of(ext)),
            None => false,
        },
        None => true,
    }
}

/// Whether the language is one of those that are wanted.
pub open spec fn language_passes(wanted: Option<Seq<Seq<char>>>, language: Option<Seq<char>>) -> bool {
    match wanted {
        Some(names) => match language {
            Some(language) => lists(names, lowercase_of(language)),
            None => false,
        },
        None => true,
    }
}

/// Whether what a pattern says of a path is as wanted: a filter without a
/// pattern, and a pattern without an answer, let every path pass.
pub open spec fn pattern_passes(pattern: Option<Seq<char>>, answer: Option<bool>, wanted: bool) -> bool {
    match pattern {
        Some(_) => match answer {
            Some(found) => found == wanted,
            None => true,
        },
        None => true,
    }
}

/// Whether a chunk with a score passes a filter, for what its two patterns
/// say of the path of the chunk.
pub open spec fn passes(
    filter: FilterView,
    chunk: ChunkView,
    score: int,
    included: Option<bool>,
    excluded: Option<bool>,
) -> bool {
    &&& score_passes(filter.min_score, score)
    &&& extension_passes(filter.extensions, chunk.file_path)
    &&& language_passes(filter.languages, chunk.language)
    &&& pattern_passes(filter.path_pattern, included, true)
    &&& pattern_passes(filter.exclude_pattern, excluded, false)
}

/// What the pattern of a filter says of a path: nothing without a pattern,
/// else what a search for it says.
pub open spec fn pattern_answer(pattern: Option<Seq<char>>, path: Seq<char>) -> Option<bool> {
    match pattern {
        Some(pattern) => answer(pattern, path),
        None => None,
    }
}

/// Whether a chunk with a score passes a filter. The score is held against
/// the lowest score, the extension and the language against those that are
/// wanted, without regard to case, and the path against the two patterns. A
/// pattern that does not compile lets every path pass.
pub open spec fn filter_matches(filter: FilterView, chunk: ChunkView, score: int) -> bool {
    passes(
        filter,
        chunk,
        score,
        pattern_answer(filter.path_pattern, chunk.file_path),
        pattern_answer(filter.exclude_pattern, chunk.file_path),
    )
}

/// Whether one of the names, in lower case, is `lowered`.
pub fn listed_in(names: &Vec<String>, lowered: &str) -> (r: bool)
    ensures
        r == lists(string_views(names@), lowered@),
{
    let ghost views = string_views(names@);
    let mut i: usize = 0;
    while i < names.len()
        invariant
            views == string_views(names@),
            i <= names@.len(),
            forall|k: int| 0 <= k < i ==> lowercase_of(#[trigger] views[k]) != lowered@,
        decreases names@.len() - i,
    {
        let name = to_lowercase(names[i].as_str());
        if str_eq(name.as_str(), lowered) {
            assert(lowercase_of(views[i as int]) == lowered@);
            return true;
        }
        i += 1;
    }
    false
}

/// What the pattern of a filter says of a path.
pub fn ask(pattern: &Option<String>, path: &str) -> (r: Option<bool>)
    ensures
        r == pattern_answer(opt_view(*pattern), path@),
{
    match pattern {
        Some(pattern) => regex_search(pattern.as_str(), path),
        None => None,
    }
}

impl SearchFilter {
    /// A filter that lets every result pass.
    pub fn new() -> (r: SearchFilter)
        ensures
            r@ == (FilterView {
                extensions: None,
                languages: None,
                path_pattern: None,
                exclude_pattern: None,
                min_score: None,
                max_results: None,
            }),
    {
        SearchFilter {
            extensions: None,
            languages: None,
            path_pattern: None,
            exclude_pattern: None,
            min_score: None,
            max_results: None,
        }
    }

    /// The same filter, for files with one of these extensions only.
    pub fn with_extensions(self, extensions: Vec<String>) -> (r: SearchFilter)
        ensures
            r@ == (FilterView { extensions: Some(string_views(extensions@)), ..self@ }),
    {
        let mut filter = self;
        filter.extensions = Some(extensions);
        filter
    }

    /// The same filter, for files in one of these languages only.
    pub fn with_languages(self, languages: Vec<String>) -> (r: SearchFilter)
        ensures
            r@ == (FilterView { languages: Some(string_views(languages@)), ..self@ }),
    {
        let mut filter = self;
        filter.languages = Some(languages);
        filter
    }

    /// The same filter, for paths that match the pattern only.
    pub fn with_path_pattern(self, pattern: String) -> (r: SearchFilter)
        ensures
            r@ == (FilterView { path_pattern: Some(pattern@), ..self@ }),
    {
        let mut filter = self;
        filter.path_pattern = Some(pattern);
        filter
    }

    /// The same filter, without the paths that match the pattern.
    pub fn with_exclude_pattern(self, pattern: String) -> (r: SearchFilter)
        ensures
            r@ == (FilterView { exclude_pattern: Some(pattern@), ..self@ }),
    {
        let mut filter = self;
        filter.exclude_pattern = Some(pattern);
        filter
    }

    /// The same filter, for results that score `score` or higher only.
    pub fn with_min_score(self, score: i64) -> (r: SearchFilter)
        ensures
            r@ == (FilterView { min_score: Some(score), ..self@ }),
    {
        let mut filter = self;
        filter.min_score = Some(score);
        filter
    }

    /// The same filter, for no more than `max` results.
    pub fn with_max_results(self, max: usize) -> (r: SearchFilter)
        ensures
            r@ == (FilterView { max_results: Some(max), ..self@ }),
    {
        let mut filter = self;
        filter.max_results = Some(max);
        filter
    }

    /// Whether a chunk with a score passes the filter, for what the two
    /// patterns say of its path.
    pub fn passes(&self, chunk: &Chunk, score: i64, included: Option<bool>, excluded: Option<bool>) -> (r:
        bool)
        ensures
            r == passes(self@, chunk@, score as int, included, excluded),
    {
        match self.min_score {
            Some(min) => {
                if score < min {
                    return false;
                }
            },
            None => {},
        }
        match &self.extensions {
            Some(names) => {
                match extension_of(chunk.file_path.as_str()) {
                    Some(ext) => {
                        let lowered = to_lowercase(ext);
                        if !listed_in(names, lowered.as_str()) {
                            return false;
                        }
                    },
                    None => {
                        return false;
                    },
                }
            },
            None => {},
        }
        match &self.languages {
            Some(names) => {
                match &chunk.language {
                    Some(language) => {
                        let lowered = to_lowercase(language.as_str());
                        if !listed_in(names, lowered.as_str()) {
                            return false;
                        }
                    },
                    None => {
                        return false;
                    },
                }
            },
            None => {},
        }
        match (&self.path_pattern, included) {
            (Some(_), Some(false)) => {
                return false;
            },
            _ => {},
        }
        match (&self.exclude_pattern, excluded) {
            (Some(_), Some(true)) => {
                return false;
            },
            _ => {},
        }
        true
    }

    /// Whether a chunk with a score passes the filter. The score is held
    /// against the lowest score, the extension and the language against
    /// those that are wanted, without regard to case, and the path against
    /// the two patterns. A pattern that does not compile lets every path
    /// pass.
    pub fn matches(&self, chunk: &Chunk, score: i64) -> (r: bool)
        ensures
            r == filter_matches(self@, chunk@, score as int),
    {
        let included = ask(&self.path_pattern, chunk.file_path.as_str());
        let excluded = ask(&self.exclude_pattern, chunk.file_path.as_str());
        self.passes(chunk, score, included, excluded)
    }
}

impl Default for SearchFilter {
    fn default() -> (r: SearchFilter)
        ensures
            r@ == (FilterView {
                extensions: None,
                languages: None,
                path_pattern: None,
                exclude_pattern: None,
                min_score: None,
                max_results: None,
            }),
    {
        SearchFilter::new()
    }
}

} // verus!
