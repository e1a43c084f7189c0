//! Searching an index: how many neighbours to ask the store for, and what
//! becomes of the neighbours that it finds.
use crate::error::{concat, LgrepError};
use crate::filter::{ask, filter_matches, passes, pattern_answer, FilterView, SearchFilter};
use crate::index::{search_results, VectorIndex};
use crate::patterns::{answer, regex_compiles, regex_search};
use crate::ranking::{result_views, truncate_results, ResultView, SearchResult};
use vstd::prelude::*;

verus! {

/// How many times more neighbours a filtered search asks for than it may
/// give back, since the filter takes some away.
pub const OVERSAMPLE: usize = 4;

/// What the two patterns of a filter say of the path of one result.
pub struct PathAnswers {
    /// What the pattern that the path has to match says.
    pub included: Option<bool>,
    /// What the pattern that the path must not match says.
    pub excluded: Option<bool>,
}

/// The first `cap` entries of a list.
pub open spec fn capped(list: Seq<ResultView>, cap: int) -> Seq<ResultView> {
    if 0 <= cap < list.len() {
        list.subrange(0, cap)
    } else {
        list
    }
}

/// What was said of the path of result `i`: nothing where the list of
/// answers is too short.
pub open spec fn said_at(said: Seq<PathAnswers>, i: int) -> PathAnswers {
    if 0 <= i < said.len() {
        said[i]
    } else {
        PathAnswers { included: None, excluded: None }
    }
}

/// What a keyword said of the text of result `i`: nothing where the list of
/// answers is too short.
pub open spec fn found_at(found: Seq<Option<bool>>, i: int) -> Option<bool> {
    if 0 <= i < found.len() {
        found[i]
    } else {
        None
    }
}

/// Those of the first `upto` results that pass the filter, in their order.
pub open spec fn survivors(
    results: Seq<ResultView>,
    filter: FilterView,
    said: Seq<PathAnswers>,
    upto: int,
) -> Seq<ResultView>
    decreases upto,
{
    if upto <= 0 {
        Seq::empty()
    } else {
        let before = survivors(results, filter, said, upto - 1);
        let result = results[upto - 1];
        let answer = said_at(said, upto - 1);
        if passes(filter, result.chunk, result.score, answer.included, answer.excluded) {
            before.push(result)
        } else {
            before
        }
    }
}

/// What the patterns of a filter say of the path of each result.
pub open spec fn said_of(results: Seq<ResultView>, filter: FilterView) -> Seq<PathAnswers> {
    Seq::new(
        results.len(),
        |i: int|
            PathAnswers {
                included: pattern_answer(filter.path_pattern, results[i].chunk.file_path),
                excluded: pattern_answer(filter.exclude_pattern, results[i].chunk.file_path),
            },
    )
}

/// The results that pass a filter, in their order; all of them where there
/// is no filter.
pub open spec fn passing(results: Seq<ResultView>, filter: Option<FilterView>) -> Seq<ResultView> {
    match filter {
        Some(filter) => survivors(results, filter, said_of(results, filter), results.len() as int),
        None => results,
    }
}

/// Those of the first `upto` results whose text the keyword matches.
pub open spec fn with_keyword(results: Seq<ResultView>, found: Seq<Option<bool>>, upto: int) -> Seq<
    ResultView,
>
    decreases upto,
{
    if upto <= 0 {
        Seq::empty()
    } else {
        let before = with_keyword(results, found, upto - 1);
        if found_at(found, upto - 1) == Some(true) {
            before.push(results[upto - 1])
        } else {
            before
        }
    }
}

/// What a keyword says of the text of each result.
pub open spec fn found_in(results: Seq<ResultView>, keyword: Seq<char>) -> Seq<Option<bool>> {
    Seq::new(results.len(), |i: int| answer(keyword, results[i].chunk.text))
}

/// The results that pass a filter and whose text a keyword matches, in
/// their order.
pub open spec fn matching(
    results: Seq<ResultView>,
    filter: Option<FilterView>,
    keyword: Seq<char>,
) -> Seq<ResultView> {
    let passed = passing(results, filter);
    with_keyword(passed, found_in(passed, keyword), passed.len() as int)
}

/// What is said of a keyword that is no regular expression.
pub open spec fn invalid_keyword(keyword: Seq<char>) -> Seq<char> {
    "Invalid keyword pattern: "@ + keyword
}

/// How many neighbours to ask the store for: none while the index is empty,
/// `top_k` for a plain search, and `OVERSAMPLE` times as many, as far as the
/// number goes, for a search with a filter.
pub open spec fn wanted_neighbours(chunks: nat, top_k: usize, filtered: bool) -> usize {
    if chunks == 0 {
        0
    } else if !filtered {
        top_k
    } else if top_k * OVERSAMPLE <= usize::MAX {
        (top_k * OVERSAMPLE) as usize
    } else {
        usize::MAX
    }
}

/// The largest number of results that a search gives back: what the filter
/// sets, else `top_k`.
pub open spec fn result_cap(top_k: usize, filter: Option<FilterView>) -> usize {
    match filter {
        Some(filter) => match filter.max_results {
            Some(max) => max,
            None => top_k,
        },
        None => top_k,
    }
}

/// The results that pass the filter, in their order, and no more than `cap`
/// of them.
pub fn filter_results(
    results: Vec<SearchResult>,
    filter: &SearchFilter,
    said: &Vec<PathAnswers>,
    cap: usize,
) -> (r: Vec<SearchResult>)
    ensures
        result_views(r@) == capped(
            survivors(result_views(results@), filter@, said@, results@.len() as int),
            cap as int,
        ),
{
    let ghost views = result_views(results@);
    let mut kept: Vec<SearchResult> = Vec::new();
    let mut i: usize = 0;
    assert(result_views(kept@) =~= survivors(views, filter@, said@, 0));
    while i < results.len()
        invariant
            views == result_views(results@),
            i <= results@.len(),
            result_views(kept@) == survivors(views, filter@, said@, i as int),
        decreases results@.len() - i,
    {
        let ghost before = result_views(kept@);
        let (included, excluded) = if i < said.len() {
            (said[i].included, said[i].excluded)
        } else {
            (None, None)
        };
        if filter.passes(&results[i].chunk, results[i].score, included, excluded) {
            kept.push(results[i].clone());
            assert(result_views(kept@) =~= before.push(views[i as int]));
        }
        i += 1;
    }
    truncate_results(&mut kept, cap);
    kept
}

/// The results whose text the keyword matches, in their order; none where
/// the keyword says nothing of some text.
pub fn keyword_gate(results: Vec<SearchResult>, found: &Vec<Option<bool>>) -> (r: Option<
    Vec<SearchResult>,
>)
    ensures
        match r {
            Some(kept) => (forall|i: int|
                0 <= i < results@.len() ==> (#[trigger] found_at(found@, i)) is Some)
                && result_views(kept@) == with_keyword(
                result_views(results@),
                found@,
                results@.len() as int,
            ),
            None => exists|i: int| 0 <= i < results@.len() && (#[trigger] found_at(found@, i)) is None,
        },
{
    let ghost views = result_views(results@);
    let mut kept: Vec<SearchResult> = Vec::new();
    let mut i: usize = 0;
    assert(result_views(kept@) =~= with_keyword(views, found@, 0));
    while i < results.len()
        invariant
            views == result_views(results@),
            i <= results@.len(),
            forall|k: int| 0 <= k < i ==> (#[trigger] found_at(found@, k)) is Some,
            result_views(kept@) == with_keyword(views, found@, i as int),
        decreases results@.len() - i,
    {
        let ghost before = result_views(kept@);
        let answer = if i < found.len() {
            found[i]
        } else {
            None
        };
        match answer {
            None => {
                assert(found_at(found@, i as int) is None);
                return None;
            },
            Some(true) => {
                kept.push(results[i].clone());
                assert(result_views(kept@) =~= before.push(views[i as int]));
            },
            Some(false) => {},
        }
        i += 1;
    }
    Some(kept)
}

/// What the patterns of a filter say of the path of each result.
fn ask_paths(results: &Vec<SearchResult>, filter: &SearchFilter) -> (r: Vec<PathAnswers>)
    ensures
        r@ == said_of(result_views(results@), filter@),
{
    let ghost views = result_views(results@);
    let mut said: Vec<PathAnswers> = Vec::new();
    let mut i: usize = 0;
    while i < results.len()
        invariant
            views == result_views(results@),
            i <= results@.len(),
            said@.len() == i,
            forall|k: int| 0 <= k < i ==> (#[trigger] said@[k]) == said_of(views, filter@)[k],
        decreases results@.len() - i,
    {
        let path = results[i].chunk.file_path.as_str();
        let included = ask(&filter.path_pattern, path);
        let excluded = ask(&filter.exclude_pattern, path);
        said.push(PathAnswers { included, excluded });
        i += 1;
    }
    assert(said@ =~= said_of(views, filter@));
    said
}

/// What a keyword says of the text of each result.
fn ask_texts(results: &Vec<SearchResult>, keyword: &str) -> (r: Vec<Option<bool>>)
    ensures
        r@ == found_in(result_views(results@), keyword@),
{
    let ghost views = result_views(results@);
    let mut found: Vec<Option<bool>> = Vec::new();
    let mut i: usize = 0;
    while i < results.len()
        invariant
            views == result_views(results@),
            i <= results@.len(),
            found@.len() == i,
            forall|k: int| 0 <= k < i ==> (#[trigger] found@[k]) == found_in(views, keyword@)[k],
        decreases results@.len() - i,
    {
        found.push(regex_search(keyword, results[i].chunk.text.as_str()));
        i += 1;
    }
    assert(found@ =~= found_in(views, keyword@));
    found
}

/// How many files and chunks an index holds, and by which model.
#[derive(Debug)]
pub struct IndexStats {
    /// How many files are indexed.
    pub files: usize,
    /// How many chunks they make.
    pub chunks: usize,
    /// The model that made the vectors.
    pub model: String,
}

/// Answers queries from an index.
#[derive(Debug)]
pub struct Searcher {
    index: VectorIndex,
}

impl Searcher {
    /// The index that is searched.
    pub closed spec fn index(&self) -> VectorIndex {
        self.index
    }

    /// A searcher on an index.
    pub fn from_index(index: VectorIndex) -> (r: Searcher)
        ensures
            r.index() == index,
    {
        Searcher { index }
    }

    /// The index that is searched.
    pub fn index_ref(&self) -> (r: &VectorIndex)
        ensures
            *r == self.index(),
    {
        &self.index
    }

    /// How many neighbours of the query to ask the store for.
    pub fn neighbours(&self, top_k: usize, filtered: bool) -> (r: usize)
        ensures
            r == wanted_neighbours(self.index().records().len(), top_k, filtered),
    {
        if self.index.chunk_count() == 0 {
            0
        } else if !filtered {
            top_k
        } else {
            match top_k.checked_mul(OVERSAMPLE) {
                Some(many) => many,
                None => usize::MAX,
            }
        }
    }

    /// The results for the neighbours of a query that the store found, the
    /// best first.
    pub fn search(&self, keys: &Vec<u64>, distances: &Vec<i32>) -> (r: Vec<SearchResult>)
        ensures
            result_views(r@) == search_results(self.index().records(), keys@, distances@),
    {
        self.index.search(keys, distances)
    }

    /// The results of a search that pass a filter, the best first, and no
    /// more of them than the filter allows or, where it sets no number, than
    /// `top_k`. Without a filter these are the first `top_k` results.
    pub fn search_with_filter(
        &self,
        keys: &Vec<u64>,
        distances: &Vec<i32>,
        top_k: usize,
        filter: Option<&SearchFilter>,
    ) -> (r: Vec<SearchResult>)
        ensures
            result_views(r@) == capped(
                passing(
                    search_results(self.index().records(), keys@, distances@),
                    filter_view(filter),
                ),
                result_cap(top_k, filter_view(filter)) as int,
            ),
    {
        let mut results = self.index.search(keys, distances);
        match filter {
            Some(wanted) => {
                let cap = match wanted.max_results {
                    Some(max) => max,
                    None => top_k,
                };
                let said = ask_paths(&results, wanted);
                filter_results(results, wanted, &said, cap)
            },
            None => {
                truncate_results(&mut results, top_k);
                results
            },
        }
    }

    /// The results of a search that pass a filter and whose text a keyword,
    /// a regular expression, matches: the best first, and no more of them
    /// than the filter allows or, where it sets no number, than `top_k`. The
    /// keyword takes results away and adds nothing to a score. A keyword
    /// that does not compile is a configuration error.
    pub fn hybrid_search(
        &self,
        keys: &Vec<u64>,
        distances: &Vec<i32>,
        keyword: &str,
        top_k: usize,
        filter: Option<&SearchFilter>,
    ) -> (r: Result<Vec<SearchResult>, LgrepError>)
        ensures
            match r {
                Ok(kept) => regex_compiles(keyword@) && result_views(kept@) == capped(
                    matching(
                        search_results(self.index().records(), keys@, distances@),
                        filter_view(filter),
                        keyword@,
                    ),
                    result_cap(top_k, filter_view(filter)) as int,
                ),
                Err(e) => !regex_compiles(keyword@) && (e matches LgrepError::Config(cause)
                    && cause@ == invalid_keyword(keyword@)),
            },
    {
        if regex_search(keyword, "").is_none() {
            return Err(LgrepError::Config(concat("Invalid keyword pattern: ", keyword)));
        }
        let results = self.index.search(keys, distances);
        let ghost all = result_views(results@);
        let count = results.len();
        let passed = match filter {
            Some(wanted) => {
                let said = ask_paths(&results, wanted);
                let kept = filter_results(results, wanted, &said, usize::MAX);
                proof {
                    let out = survivors(all, wanted@, said@, all.len() as int);
                    lemma_survivors_len(all, wanted@, said@, all.len() as int);
                    assert(out.len() <= count);
                    assert(capped(out, usize::MAX as int) == out);
                }
                kept
            },
            None => results,
        };
        let cap = match filter {
            Some(wanted) => match wanted.max_results {
                Some(max) => max,
                None => top_k,
            },
            None => top_k,
        };
        let found = ask_texts(&passed, keyword);
        let ghost passed_views = result_views(passed@);
        assert(passed_views == passing(all, filter_view(filter)));
        match keyword_gate(passed, &found) {
            Some(kept) => {
                let mut kept = kept;
                truncate_results(&mut kept, cap);
                Ok(kept)
            },
            None => {
                proof {
                    let i = choose|i: int|
                        0 <= i < passed_views.len() && (#[trigger] found_at(found@, i)) is None;
                    assert(found@[i] == answer(keyword@, passed_views[i].chunk.text));
                }
                Err(LgrepError::Config(concat("Invalid keyword pattern: ", keyword)))
            },
        }
    }

    /// How many files and chunks the index holds, and by which model.
    pub fn stats(&self) -> (r: IndexStats)
        ensures
            r.files == self.index().paths().len(),
            r.chunks == self.index().records().len(),
            r.model@ == self.index().settings().model.spec_model_name(),
    {
        IndexStats {
            files: self.index.file_count(),
            chunks: self.index.chunk_count(),
            model: self.index.config().model.model_name().to_owned(),
        }
    }
}

/// The view of a filter that may be missing.
pub open spec fn filter_view(filter: Option<&SearchFilter>) -> Option<FilterView> {
    match filter {
        Some(filter) => Some(filter@),
        None => None,
    }
}

/// The results that pass a filter are those that match it, in their order.
pub proof fn lemma_passing_matches(results: Seq<ResultView>, filter: FilterView, upto: int)
    requires
        0 <= upto <= results.len(),
    ensures
        survivors(results, filter, said_of(results, filter), upto) == results.subrange(
            0,
            upto,
        ).filter(|r: ResultView| filter_matches(filter, r.chunk, r.score)),
    decreases upto,
{
    reveal(Seq::filter);
    let matched = |r: ResultView| filter_matches(filter, r.chunk, r.score);
    if upto > 0 {
        lemma_passing_matches(results, filter, upto - 1);
        let part = results.subrange(0, upto);
        assert(part.drop_last() =~= results.subrange(0, upto - 1));
        assert(part.last() == results[upto - 1]);
        assert(said_at(said_of(results, filter), upto - 1) == said_of(results, filter)[upto - 1]);
    } else {
        assert(results.subrange(0, 0) =~= Seq::<ResultView>::empty());
    }
}

/// No more results pass a filter than there are.
pub proof fn lemma_survivors_len(
    results: Seq<ResultView>,
    filter: FilterView,
    said: Seq<PathAnswers>,
    upto: int,
)
    requires
        0 <= upto <= results.len(),
    ensures
        survivors(results, filter, said, upto).len() <= upto,
    decreases upto,
{
    if upto > 0 {
        lemma_survivors_len(results, filter, said, upto - 1);
    }
}

} // verus!
