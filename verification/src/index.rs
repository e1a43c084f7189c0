//! The record side of an index: the chunk records, the hash of every indexed
//! file, and the next chunk id.
//!
//! The vectors of the chunks live in a store outside this library, keyed by
//! chunk id. Whoever owns the store keeps it in step with the records: it
//! adds a vector for every chunk that `add_chunks` accepts and drops the
//! vectors whose ids `remove_file` returns.
use crate::chunker::{chunk_views, Chunk, ChunkView};
use crate::config::Config;
use crate::error::LgrepError;
use crate::hashes::FileHashes;
use crate::ranking::{rank_in, ranked, result_views, ResultView, SearchResult};
use crate::text::str_eq;
use vstd::prelude::*;

verus! {

/// A score or a distance of 1, in the millionths that both are counted in.
pub const SCORE_ONE: i64 = 1000000;

/// No two chunks have the same id.
pub open spec fn distinct_ids(chunks: Seq<ChunkView>) -> bool {
    forall|i: int, j: int| 0 <= i < j < chunks.len() ==> chunks[i].id != chunks[j].id
}

/// Every id is below `bound`.
pub open spec fn ids_below(chunks: Seq<ChunkView>, bound: int) -> bool {
    forall|i: int| 0 <= i < chunks.len() ==> (#[trigger] chunks[i]).id < bound
}

/// The ids rise from chunk to chunk and start at `floor` or above.
pub open spec fn rising_ids(chunks: Seq<ChunkView>, floor: int) -> bool {
    &&& forall|i: int| 0 <= i < chunks.len() ==> floor <= (#[trigger] chunks[i]).id
    &&& forall|i: int, j: int| 0 <= i < j < chunks.len() ==> chunks[i].id < chunks[j].id
}

/// The largest id of a list of chunks, 0 for an empty list.
pub open spec fn max_id(chunks: Seq<ChunkView>) -> int
    decreases chunks.len(),
{
    if chunks.len() == 0 {
        0
    } else if max_id(chunks.drop_last()) >= chunks.last().id {
        max_id(chunks.drop_last())
    } else {
        chunks.last().id
    }
}

/// No id is above the largest.
pub proof fn lemma_max_id(chunks: Seq<ChunkView>)
    ensures
        forall|i: int| 0 <= i < chunks.len() ==> (#[trigger] chunks[i]).id <= max_id(chunks),
    decreases chunks.len(),
{
    if chunks.len() > 0 {
        let front = chunks.drop_last();
        lemma_max_id(front);
        assert forall|i: int| 0 <= i < chunks.len() implies (#[trigger] chunks[i]).id <= max_id(
            chunks,
        ) by {
            if i < front.len() {
                assert(chunks[i] == front[i]);
            }
        }
    }
}

/// The table of hashes after the files of `chunks` were put on record, one
/// chunk after the other.
pub open spec fn recorded(hashes: Map<Seq<char>, Seq<char>>, chunks: Seq<ChunkView>) -> Map<
    Seq<char>,
    Seq<char>,
>
    decreases chunks.len(),
{
    if chunks.len() == 0 {
        hashes
    } else {
        recorded(hashes, chunks.drop_last()).insert(chunks.last().file_path, chunks.last().file_hash)
    }
}

/// The paths of a table after the files of `chunks` were put on record: new
/// paths come last, in the order of the chunks.
pub open spec fn recorded_paths(paths: Seq<Seq<char>>, chunks: Seq<ChunkView>) -> Seq<Seq<char>>
    decreases chunks.len(),
{
    if chunks.len() == 0 {
        paths
    } else {
        let before = recorded_paths(paths, chunks.drop_last());
        if before.contains(chunks.last().file_path) {
            before
        } else {
            before.push(chunks.last().file_path)
        }
    }
}

/// The chunks of the file at `path`.
pub open spec fn of_file(chunks: Seq<ChunkView>, path: Seq<char>) -> Seq<ChunkView> {
    chunks.filter(|c: ChunkView| c.file_path == path)
}

/// The chunks of all files but the one at `path`.
pub open spec fn of_others(chunks: Seq<ChunkView>, path: Seq<char>) -> Seq<ChunkView> {
    chunks.filter(|c: ChunkView| c.file_path != path)
}

/// The ids of a list of chunks.
pub open spec fn ids_of(chunks: Seq<ChunkView>) -> Seq<u64> {
    Seq::new(chunks.len(), |i: int| chunks[i].id as u64)
}

/// The first chunk of a list that has the id `id`.
pub open spec fn chunk_with_id(chunks: Seq<ChunkView>, id: int) -> Option<ChunkView>
    decreases chunks.len(),
{
    if chunks.len() == 0 {
        None
    } else if chunks[0].id == id {
        Some(chunks[0])
    } else {
        chunk_with_id(chunks.drop_first(), id)
    }
}

/// `chunk_with_id` gives the chunk before which no chunk has the id, and
/// none where no chunk has it.
pub proof fn lemma_chunk_with_id(chunks: Seq<ChunkView>, id: int, upto: int)
    requires
        0 <= upto <= chunks.len(),
        forall|j: int| 0 <= j < upto ==> (#[trigger] chunks[j]).id != id,
        upto < chunks.len() ==> chunks[upto].id == id,
    ensures
        chunk_with_id(chunks, id) == if upto < chunks.len() {
            Some(chunks[upto])
        } else {
            None
        },
    decreases chunks.len(),
{
    if chunks.len() > 0 && upto > 0 {
        let rest = chunks.drop_first();
        assert forall|j: int| 0 <= j < upto - 1 implies (#[trigger] rest[j]).id != id by {
            assert(rest[j] == chunks[j + 1]);
        }
        lemma_chunk_with_id(rest, id, upto - 1);
    }
}

/// What a neighbour at a distance is worth as a result: the chunk under its
/// key with the score 1 less the distance, nothing if no chunk has the key.
pub open spec fn hit(chunks: Seq<ChunkView>, key: u64, distance: i32) -> Option<ResultView> {
    match chunk_with_id(chunks, key as int) {
        Some(chunk) => Some(ResultView { chunk, score: SCORE_ONE - distance }),
        None => None,
    }
}

/// The results for the first `upto` neighbours, in their order.
pub open spec fn hits(chunks: Seq<ChunkView>, keys: Seq<u64>, distances: Seq<i32>, upto: int) -> Seq<
    ResultView,
>
    decreases upto,
{
    if upto <= 0 {
        Seq::empty()
    } else {
        let before = hits(chunks, keys, distances, upto - 1);
        match hit(chunks, keys[upto - 1], distances[upto - 1]) {
            Some(result) => before.push(result),
            None => before,
        }
    }
}

/// The results for the neighbours that the store found: one for each key
/// that has a distance and a chunk, the best score first.
pub open spec fn search_results(chunks: Seq<ChunkView>, keys: Seq<u64>, distances: Seq<i32>) -> Seq<
    ResultView,
> {
    let pairs = if keys.len() <= distances.len() {
        keys.len()
    } else {
        distances.len()
    };
    ranked(hits(chunks, keys, distances, pairs as int))
}

/// The records of an index as mathematical values: the chunk records, the
/// table of file hashes with the order of its paths, and the next id.
pub struct IndexState {
    pub records: Seq<ChunkView>,
    pub hashes: Map<Seq<char>, Seq<char>>,
    pub paths: Seq<Seq<char>>,
    pub next_id: int,
}

impl IndexState {
    /// The state after the file at `path` was taken out.
    pub open spec fn without_file(self, path: Seq<char>) -> IndexState {
        IndexState {
            records: of_others(self.records, path),
            hashes: self.hashes.remove(path),
            paths: if self.paths.contains(path) {
                self.paths.remove(self.paths.index_of(path))
            } else {
                self.paths
            },
            next_id: self.next_id,
        }
    }

    /// The state after `chunks` were added.
    pub open spec fn with_chunks(self, chunks: Seq<ChunkView>) -> IndexState {
        IndexState {
            records: self.records + chunks,
            hashes: recorded(self.hashes, chunks),
            paths: recorded_paths(self.paths, chunks),
            next_id: max_id(self.records + chunks) + 1,
        }
    }

    /// The paths are those that have a hash, each once.
    pub open spec fn linked(self) -> bool {
        &&& self.paths.no_duplicates()
        &&& forall|p: Seq<char>| self.hashes.dom().contains(p) <==> self.paths.contains(p)
    }
}

/// What is kept beside the vectors of an index.
#[derive(Debug)]
pub struct IndexMetadata {
    /// The chunks, in the order in which they were added.
    pub chunks: Vec<Chunk>,
    /// The hash that each indexed file had when it was indexed.
    pub file_hashes: FileHashes,
    /// The id that the next chunk gets.
    pub next_id: u64,
    /// Name of the model that made the vectors.
    pub model_name: String,
    /// Length of the vectors.
    pub dimension: usize,
}

impl IndexMetadata {
    /// The records of the chunks.
    pub open spec fn records(&self) -> Seq<ChunkView> {
        chunk_views(self.chunks@)
    }

    /// The ids are distinct and below `next_id`, and no file has two hashes.
    pub open spec fn wf(&self) -> bool {
        &&& self.file_hashes.wf()
        &&& distinct_ids(self.records())
        &&& ids_below(self.records(), self.next_id as int)
    }

    /// Every chunk carries the hash that is on record for its file.
    pub open spec fn hash_consistent(&self) -> bool {
        hashes_agree(self.records(), self.file_hashes@)
    }

    /// The records, the table of hashes and the next id.
    pub open spec fn state(&self) -> IndexState {
        IndexState {
            records: self.records(),
            hashes: self.file_hashes@,
            paths: self.file_hashes.paths(),
            next_id: self.next_id as int,
        }
    }

    /// The metadata of an index without chunks.
    pub fn new(model_name: String, dimension: usize) -> (r: IndexMetadata)
        ensures
            r.wf(),
            r.hash_consistent(),
            r.records() == Seq::<ChunkView>::empty(),
            r.file_hashes@ == Map::<Seq<char>, Seq<char>>::empty(),
            r.file_hashes.paths() == Seq::<Seq<char>>::empty(),
            r.next_id == 0,
            r.model_name@ == model_name@,
            r.dimension == dimension,
    {
        let r = IndexMetadata {
            chunks: Vec::new(),
            file_hashes: FileHashes::new(),
            next_id: 0,
            model_name,
            dimension,
        };
        assert(r.records() =~= Seq::<ChunkView>::empty());
        r
    }
}

/// Whether the ids rise from chunk to chunk and start at `floor` or above.
fn ids_rise(chunks: &Vec<Chunk>, floor: u64) -> (r: bool)
    ensures
        r == rising_ids(chunk_views(chunks@), floor as int),
{
    let ghost views = chunk_views(chunks@);
    let mut i: usize = 0;
    while i < chunks.len()
        invariant
            views == chunk_views(chunks@),
            i <= chunks@.len(),
            rising_ids(views.subrange(0, i as int), floor as int),
        decreases chunks@.len() - i,
    {
        if chunks[i].id < floor {
            assert(views[i as int].id < floor);
            return false;
        }
        if i > 0 && chunks[i - 1].id >= chunks[i].id {
            assert(views[i - 1].id >= views[i as int].id);
            return false;
        }
        proof {
            let next = views.subrange(0, i + 1);
            let seen = views.subrange(0, i as int);
            assert forall|a: int, b: int| 0 <= a < b < next.len() implies next[a].id < next[b].id by {
                if b < i {
                    assert(seen[a].id < seen[b].id);
                } else if a < i - 1 {
                    assert(seen[a].id < seen[i - 1].id);
                }
            }
            assert forall|a: int| 0 <= a < next.len() implies floor <= (#[trigger] next[a]).id by {
                if a < i {
                    assert(seen[a] == next[a]);
                }
            }
        }
        i += 1;
    }
    assert(views.subrange(0, i as int) =~= views);
    true
}

/// Whether one of the first `upto` chunks has the id `id`.
fn has_id(chunks: &Vec<Chunk>, upto: usize, id: u64) -> (r: bool)
    requires
        upto <= chunks@.len(),
    ensures
        r == exists|j: int| 0 <= j < upto && (#[trigger] chunk_views(chunks@)[j]).id == id,
{
    let ghost views = chunk_views(chunks@);
    let mut j: usize = 0;
    while j < upto
        invariant
            views == chunk_views(chunks@),
            j <= upto <= chunks@.len(),
            forall|k: int| 0 <= k < j ==> (#[trigger] views[k]).id != id,
        decreases upto - j,
    {
        if chunks[j].id == id {
            assert(views[j as int].id == id);
            return true;
        }
        j += 1;
    }
    false
}

/// Whether `added` can join `held` without an id occurring twice.
fn ids_stay_distinct(held: &Vec<Chunk>, next_id: u64, added: &Vec<Chunk>) -> (r: bool)
    requires
        distinct_ids(chunk_views(held@)),
        ids_below(chunk_views(held@), next_id as int),
    ensures
        r == distinct_ids(chunk_views(held@) + chunk_views(added@)),
{
    let ghost old_views = chunk_views(held@);
    let ghost new_views = chunk_views(added@);
    let ghost all = old_views + new_views;
    let n = held.len();
    if ids_rise(added, next_id) {
        proof {
            assert forall|i: int, j: int| 0 <= i < j < all.len() implies all[i].id != all[j].id by {
                if j < n {
                    assert(old_views[i].id != old_views[j].id);
                } else if i < n {
                    assert(old_views[i].id < next_id);
                    assert(next_id <= new_views[j - n].id);
                } else {
                    assert(new_views[i - n].id < new_views[j - n].id);
                }
            }
        }
        return true;
    }
    let mut i: usize = 0;
    while i < added.len()
        invariant
            n == held@.len(),
            old_views == chunk_views(held@),
            new_views == chunk_views(added@),
            all == old_views + new_views,
            distinct_ids(old_views),
            i <= added@.len(),
            distinct_ids(all.subrange(0, n + i)),
        decreases added@.len() - i,
    {
        let id = added[i].id;
        let twice = has_id(held, held.len(), id) || has_id(added, i, id);
        proof {
            let seen = all.subrange(0, n + i);
            let next = all.subrange(0, n + i + 1);
            assert(all[n + i] == new_views[i as int]);
            if twice {
                let j = if exists|j: int| 0 <= j < n && (#[trigger] old_views[j]).id == id {
                    choose|j: int| 0 <= j < n && (#[trigger] old_views[j]).id == id
                } else {
                    n + choose|j: int| 0 <= j < i && (#[trigger] new_views[j]).id == id
                };
                assert(all[j].id == all[n + i].id);
            } else {
                assert forall|a: int, b: int| 0 <= a < b < next.len() implies next[a].id
                    != next[b].id by {
                    if b < n + i {
                        assert(seen[a].id != seen[b].id);
                    } else if a < n {
                        assert(old_views[a].id != id);
                    } else {
                        assert(new_views[a - n].id != id);
                    }
                }
            }
        }
        if twice {
            return false;
        }
        i += 1;
    }
    assert(all.subrange(0, n + i) =~= all);
    true
}

/// The chunks of a list that belong to other files than the one at `path`,
/// and the ids of those that belong to it, both in the order of the list.
fn split_by_path(chunks: Vec<Chunk>, path: &str) -> (r: (Vec<Chunk>, Vec<u64>))
    ensures
        chunk_views(r.0@) == of_others(chunk_views(chunks@), path@),
        r.1@ == ids_of(of_file(chunk_views(chunks@), path@)),
{
    let ghost views = chunk_views(chunks@);
    let ghost whole = chunks@;
    let n = chunks.len();
    let mut ids: Vec<u64> = Vec::new();
    let mut i: usize = 0;
    assert(views.subrange(0, 0) =~= Seq::<ChunkView>::empty());
    while i < n
        invariant
            n == chunks@.len(),
            views == chunk_views(chunks@),
            i <= n,
            ids@ == ids_of(of_file(views.subrange(0, i as int), path@)),
        decreases n - i,
    {
        proof {
            let next = views.subrange(0, i + 1);
            assert(next.drop_last() =~= views.subrange(0, i as int));
            assert(next.last() == views[i as int]);
            reveal(Seq::filter);
            let matched = of_file(views.subrange(0, i as int), path@);
            if views[i as int].file_path == path@ {
                assert(of_file(next, path@) =~= matched.push(views[i as int]));
                assert(ids_of(matched.push(views[i as int])) =~= ids_of(matched).push(
                    chunks@[i as int].id,
                ));
            } else {
                assert(of_file(next, path@) =~= matched);
            }
        }
        if str_eq(chunks[i].file_path.as_str(), path) {
            ids.push(chunks[i].id);
        }
        i += 1;
    }
    assert(views.subrange(0, n as int) =~= views);
    let mut source = chunks;
    let mut reversed: Vec<Chunk> = Vec::new();
    while source.len() > 0
        invariant
            n == whole.len(),
            source@.len() + reversed@.len() == n,
            source@ == whole.subrange(0, source@.len() as int),
            forall|k: int| 0 <= k < reversed@.len() ==> reversed@[k] == whole[n - 1 - k],
        decreases source@.len(),
    {
        let last = source.pop();
        match last {
            Some(chunk) => {
                reversed.push(chunk);
            },
            None => {},
        }
    }
    let mut kept: Vec<Chunk> = Vec::new();
    let mut done: usize = 0;
    while reversed.len() > 0
        invariant
            n == whole.len(),
            views == chunk_views(whole),
            done + reversed@.len() == n,
            forall|k: int| 0 <= k < reversed@.len() ==> reversed@[k] == whole[n - 1 - k],
            chunk_views(kept@) == of_others(views.subrange(0, done as int), path@),
        decreases reversed@.len(),
    {
        let ghost before = kept@;
        let first = reversed.pop();
        match first {
            Some(chunk) => {
                assert(chunk == whole[done as int]);
                proof {
                    let next = views.subrange(0, done + 1);
                    assert(next.drop_last() =~= views.subrange(0, done as int));
                    assert(next.last() == views[done as int]);
                    reveal(Seq::filter);
                    let others = of_others(views.subrange(0, done as int), path@);
                    if views[done as int].file_path != path@ {
                        assert(of_others(next, path@) =~= others.push(views[done as int]));
                        assert(chunk_views(before.push(chunk)) =~= chunk_views(before).push(chunk@));
                    } else {
                        assert(of_others(next, path@) =~= others);
                    }
                }
                if !str_eq(chunk.file_path.as_str(), path) {
                    kept.push(chunk);
                }
                done += 1;
            },
            None => {},
        }
    }
    assert(views.subrange(0, n as int) =~= views);
    (kept, ids)
}

/// The index as its owner sees it: the chunk records with their file hashes
/// and the settings that it was built with.
#[derive(Debug)]
pub struct VectorIndex {
    metadata: IndexMetadata,
    config: Config,
}

/// What `from_parts` says of chunk ids that occur twice or reach the next
/// id.
pub open spec fn unusable_ids() -> Seq<char> {
    "Chunk ids are not usable"@
}

/// What `add_chunks` says when chunks and vectors do not pair up.
pub open spec fn count_mismatch() -> Seq<char> {
    "Chunks and embeddings count mismatch"@
}

/// What `add_chunks` says when a chunk comes with an id that is taken.
pub open spec fn duplicate_key() -> Seq<char> {
    "Duplicate keys not allowed"@
}

impl VectorIndex {
    /// What is kept beside the vectors.
    pub closed spec fn metadata(&self) -> IndexMetadata {
        self.metadata
    }

    /// The settings that the index was built with.
    pub closed spec fn settings(&self) -> Config {
        self.config
    }

    /// The ids are distinct and below the next id, and no file has two
    /// hashes.
    pub open spec fn wf(&self) -> bool {
        self.metadata().wf()
    }

    /// The records of the chunks, in the order in which they were added.
    pub open spec fn records(&self) -> Seq<ChunkView> {
        self.metadata().records()
    }

    /// The hash on record for each indexed file.
    pub open spec fn hashes(&self) -> Map<Seq<char>, Seq<char>> {
        self.metadata().file_hashes@
    }

    /// The paths of the indexed files, in the order in which they came in.
    pub open spec fn paths(&self) -> Seq<Seq<char>> {
        self.metadata().file_hashes.paths()
    }

    /// The records, the table of hashes and the next id.
    pub open spec fn state(&self) -> IndexState {
        self.metadata().state()
    }

    /// An index without chunks, for the model of `config`.
    pub fn new(config: Config) -> (r: VectorIndex)
        ensures
            r.wf(),
            r.metadata().hash_consistent(),
            r.records() == Seq::<ChunkView>::empty(),
            r.hashes() == Map::<Seq<char>, Seq<char>>::empty(),
            r.paths() == Seq::<Seq<char>>::empty(),
            r.metadata().next_id == 0,
            r.metadata().model_name@ == config.model.spec_model_name(),
            r.metadata().dimension == config.model.spec_dimension(),
            r.settings() == config,
    {
        let metadata = IndexMetadata::new(
            config.model.model_name().to_owned(),
            config.model.dimension(),
        );
        VectorIndex { metadata, config }
    }

    /// The index that `metadata` describes, if its ids are distinct and
    /// below its next id; else an index error.
    pub fn from_parts(metadata: IndexMetadata, config: Config) -> (r: Result<VectorIndex, LgrepError>)
        requires
            metadata.file_hashes.wf(),
        ensures
            match r {
                Ok(index) => metadata.wf() && index.metadata() == metadata && index.settings()
                    == config,
                Err(e) => !metadata.wf() && (e matches LgrepError::Index(cause) && cause@
                    == unusable_ids()),
            },
    {
        let empty: Vec<Chunk> = Vec::new();
        assert(chunk_views(empty@) + chunk_views(metadata.chunks@) =~= chunk_views(
            metadata.chunks@,
        ));
        let distinct = ids_stay_distinct(&empty, 0, &metadata.chunks);
        if distinct && !has_id_from(&metadata.chunks, metadata.next_id) {
            Ok(VectorIndex { metadata, config })
        } else {
            Err(LgrepError::Index("Chunk ids are not usable".to_owned()))
        }
    }

    /// What is kept beside the vectors.
    pub fn metadata_ref(&self) -> (r: &IndexMetadata)
        ensures
            *r == self.metadata(),
    {
        &self.metadata
    }

    /// The hash on record for a file, if the file is indexed.
    pub fn get_file_hash(&self, file_path: &str) -> (r: Option<&String>)
        requires
            self.wf(),
        ensures
            match r {
                Some(hash) => self.hashes().dom().contains(file_path@) && self.hashes()[file_path@]
                    == hash@,
                None => !self.hashes().dom().contains(file_path@),
            },
    {
        self.metadata.file_hashes.get(file_path)
    }

    /// The paths of the indexed files, in the order in which they came in.
    pub fn indexed_files(&self) -> (r: Vec<&String>)
        ensures
            r@.len() == self.paths().len(),
            forall|i: int| 0 <= i < r@.len() ==> (#[trigger] r@[i])@ == self.paths()[i],
    {
        self.metadata.file_hashes.keys()
    }

    /// How many chunks the index holds.
    pub fn chunk_count(&self) -> (r: usize)
        ensures
            r == self.records().len(),
    {
        self.metadata.chunks.len()
    }

    /// How many files the index holds.
    pub fn file_count(&self) -> (r: usize)
        ensures
            r == self.paths().len(),
    {
        self.metadata.file_hashes.len()
    }

    /// The id that the next chunk gets.
    pub fn next_id(&self) -> (r: u64)
        ensures
            r == self.metadata().next_id,
    {
        self.metadata.next_id
    }

    /// The settings that the index was built with.
    pub fn config(&self) -> (r: &Config)
        ensures
            *r == self.settings(),
    {
        &self.config
    }

    /// Adds chunks to the index, for which the store gets as many vectors.
    /// Each chunk is appended to the records and its file hash is put on
    /// record; the next id becomes the largest id plus 1.
    ///
    /// Nothing is added, and an index error comes back, where chunks and
    /// vectors do not pair up, and where an id would occur twice, which the
    /// store does not allow.
    pub fn add_chunks(&mut self, chunks: Vec<Chunk>, embedding_count: usize) -> (r: Result<
        (),
        LgrepError,
    >)
        requires
            old(self).wf(),
            forall|i: int| 0 <= i < chunks@.len() ==> (#[trigger] chunks@[i]).id < u64::MAX,
        ensures
            final(self).wf(),
            final(self).settings() == old(self).settings(),
            final(self).metadata().model_name == old(self).metadata().model_name,
            final(self).metadata().dimension == old(self).metadata().dimension,
            r is Ok <==> chunks@.len() == embedding_count && distinct_ids(
                old(self).records() + chunk_views(chunks@),
            ),
            r is Ok ==> final(self).state() == old(self).state().with_chunks(chunk_views(chunks@)),
            r matches Err(e) ==> {
                &&& final(self).metadata() == old(self).metadata()
                &&& e matches LgrepError::Index(cause)
                &&& cause@ == if chunks@.len() != embedding_count {
                    count_mismatch()
                } else {
                    duplicate_key()
                }
            },
    {
        if chunks.len() != embedding_count {
            return Err(LgrepError::Index("Chunks and embeddings count mismatch".to_owned()));
        }
        if !ids_stay_distinct(&self.metadata.chunks, self.metadata.next_id, &chunks) {
            return Err(LgrepError::Index("Duplicate keys not allowed".to_owned()));
        }
        let ghost before = self.records();
        let ghost added = chunk_views(chunks@);
        let ghost old_hashes = self.hashes();
        let ghost old_paths = self.paths();
        let mut i: usize = 0;
        assert(added.subrange(0, 0) =~= Seq::<ChunkView>::empty());
        while i < chunks.len()
            invariant
                i <= chunks@.len(),
                added == chunk_views(chunks@),
                self.metadata.file_hashes.wf(),
                self.metadata.file_hashes@ == recorded(old_hashes, added.subrange(0, i as int)),
                self.metadata.file_hashes.paths() == recorded_paths(
                    old_paths,
                    added.subrange(0, i as int),
                ),
                self.metadata.chunks == old(self).metadata().chunks,
                self.metadata.next_id == old(self).metadata().next_id,
                self.metadata.model_name == old(self).metadata().model_name,
                self.metadata.dimension == old(self).metadata().dimension,
                self.config == old(self).settings(),
            decreases chunks@.len() - i,
        {
            proof {
                let next = added.subrange(0, i + 1);
                assert(next.drop_last() =~= added.subrange(0, i as int));
                assert(next.last() == added[i as int]);
            }
            let path = chunks[i].file_path.clone();
            let hash = chunks[i].file_hash.clone();
            self.metadata.file_hashes.insert(path, hash);
            i += 1;
        }
        assert(added.subrange(0, chunks@.len() as int) =~= added);
        let mut chunks = chunks;
        self.metadata.chunks.append(&mut chunks);
        assert(self.records() =~= before + added);
        let mut largest: u64 = 0;
        let mut k: usize = 0;
        assert(self.records().subrange(0, 0) =~= Seq::<ChunkView>::empty());
        while k < self.metadata.chunks.len()
            invariant
                k <= self.metadata.chunks@.len(),
                largest == max_id(self.records().subrange(0, k as int)),
                largest < u64::MAX,
                forall|j: int| 0 <= j < self.records().len() ==> (#[trigger] self.records()[j]).id
                    < u64::MAX,
            decreases self.metadata.chunks@.len() - k,
        {
            proof {
                let next = self.records().subrange(0, k + 1);
                assert(next.drop_last() =~= self.records().subrange(0, k as int));
                assert(next.last() == self.records()[k as int]);
            }
            if self.metadata.chunks[k].id > largest {
                largest = self.metadata.chunks[k].id;
            }
            k += 1;
        }
        assert(self.records().subrange(0, self.records().len() as int) =~= self.records());
        self.metadata.next_id = largest + 1;
        proof {
            lemma_max_id(self.records());
        }
        Ok(())
    }

    /// The chunk with the given id.
    pub fn chunk_by_id(&self, id: u64) -> (r: Option<&Chunk>)
        ensures
            match r {
                Some(chunk) => chunk_with_id(self.records(), id as int) == Some(chunk@),
                None => chunk_with_id(self.records(), id as int) is None,
            },
    {
        let ghost views = self.records();
        let mut i: usize = 0;
        while i < self.metadata.chunks.len()
            invariant
                views == self.records(),
                i <= self.metadata.chunks@.len(),
                forall|j: int| 0 <= j < i ==> (#[trigger] views[j]).id != id,
            decreases self.metadata.chunks@.len() - i,
        {
            if self.metadata.chunks[i].id == id {
                proof {
                    lemma_chunk_with_id(views, id as int, i as int);
                }
                return Some(&self.metadata.chunks[i]);
            }
            i += 1;
        }
        proof {
            lemma_chunk_with_id(views, id as int, i as int);
        }
        None
    }

    /// Turns the neighbours that the store found for a query into results.
    /// `keys` are their keys and `distances` their cosine distances in
    /// millionths, nearest first. Each neighbour with a chunk becomes a
    /// result with the score 1 less its distance; one without a chunk is
    /// left out. The results come with the best score first.
    pub fn search(&self, keys: &Vec<u64>, distances: &Vec<i32>) -> (r: Vec<SearchResult>)
        ensures
            result_views(r@) == search_results(self.records(), keys@, distances@),
    {
        let pairs = if keys.len() <= distances.len() {
            keys.len()
        } else {
            distances.len()
        };
        let mut results: Vec<SearchResult> = Vec::new();
        let mut i: usize = 0;
        assert(result_views(results@) =~= ranked(hits(self.records(), keys@, distances@, 0)));
        while i < pairs
            invariant
                i <= pairs,
                pairs <= keys@.len(),
                pairs <= distances@.len(),
                result_views(results@) == ranked(
                    hits(self.records(), keys@, distances@, i as int),
                ),
            decreases pairs - i,
        {
            proof {
                let before = hits(self.records(), keys@, distances@, i as int);
                let after = hits(self.records(), keys@, distances@, i + 1);
                if hit(self.records(), keys@[i as int], distances@[i as int]) is Some {
                    assert(after.drop_last() =~= before);
                }
            }
            match self.chunk_by_id(keys[i]) {
                Some(chunk) => {
                    let score: i64 = SCORE_ONE - distances[i] as i64;
                    rank_in(&mut results, SearchResult { chunk: chunk.clone(), score });
                },
                None => {},
            }
            i += 1;
        }
        results
    }

    /// Takes a file out of the index: its chunks and its hash. Gives back
    /// the ids of the chunks, in their order, so that their vectors can be
    /// dropped too.
    pub fn remove_file(&mut self, file_path: &str) -> (r: Result<Vec<u64>, LgrepError>)
        requires
            old(self).wf(),
        ensures
            final(self).wf(),
            r matches Ok(ids) && ids@ == ids_of(of_file(old(self).records(), file_path@)),
            final(self).state() == old(self).state().without_file(file_path@),
            final(self).metadata().model_name == old(self).metadata().model_name,
            final(self).metadata().dimension == old(self).metadata().dimension,
            final(self).settings() == old(self).settings(),
    {
        let ghost before = self.records();
        let mut taken: Vec<Chunk> = Vec::new();
        std::mem::swap(&mut self.metadata.chunks, &mut taken);
        let (kept, ids) = split_by_path(taken, file_path);
        self.metadata.chunks = kept;
        self.metadata.file_hashes.remove(file_path);
        proof {
            lemma_filter_keeps_ids(before, file_path@, self.metadata.next_id as int);
        }
        Ok(ids)
    }
}

/// Whether one of the chunks has the id `bound` or one above it.
fn has_id_from(chunks: &Vec<Chunk>, bound: u64) -> (r: bool)
    ensures
        r == !ids_below(chunk_views(chunks@), bound as int),
{
    let ghost views = chunk_views(chunks@);
    let mut i: usize = 0;
    while i < chunks.len()
        invariant
            views == chunk_views(chunks@),
            i <= chunks@.len(),
            forall|k: int| 0 <= k < i ==> (#[trigger] views[k]).id < bound,
        decreases chunks@.len() - i,
    {
        if chunks[i].id >= bound {
            assert(views[i as int].id >= bound);
            return true;
        }
        i += 1;
    }
    false
}

/// Every chunk that is left after a file was taken out was there before.
pub proof fn lemma_others_are_old(chunks: Seq<ChunkView>, path: Seq<char>)
    ensures
        of_others(chunks, path).len() <= chunks.len(),
        forall|k: int|
            0 <= k < of_others(chunks, path).len() ==> exists|i: int|
                k <= i < chunks.len() && chunks[i] == #[trigger] of_others(chunks, path)[k],
        forall|a: int, b: int|
            0 <= a < b < of_others(chunks, path).len() ==> exists|i: int, j: int|
                0 <= i < j < chunks.len() && chunks[i] == #[trigger] of_others(chunks, path)[a]
                    && chunks[j] == #[trigger] of_others(chunks, path)[b],
    decreases chunks.len(),
{
    reveal(Seq::filter);
    if chunks.len() > 0 {
        let front = chunks.drop_last();
        lemma_others_are_old(front, path);
        let kept = of_others(chunks, path);
        let sub = of_others(front, path);
        assert forall|k: int| 0 <= k < kept.len() implies exists|i: int|
            k <= i < chunks.len() && chunks[i] == #[trigger] kept[k] by {
            if k < sub.len() {
                let i = choose|i: int| k <= i < front.len() && front[i] == sub[k];
                assert(chunks[i] == kept[k]);
            } else {
                assert(chunks[chunks.len() - 1] == kept[k]);
            }
        }
        assert forall|a: int, b: int| 0 <= a < b < kept.len() implies exists|i: int, j: int|
            0 <= i < j < chunks.len() && chunks[i] == #[trigger] kept[a] && chunks[j]
                == #[trigger] kept[b] by {
            if b < sub.len() {
                let (i, j) = choose|i: int, j: int|
                    0 <= i < j < front.len() && front[i] == sub[a] && front[j] == sub[b];
                assert(chunks[i] == kept[a] && chunks[j] == kept[b]);
            } else {
                let i = choose|i: int| a <= i < front.len() && front[i] == sub[a];
                assert(chunks[i] == kept[a] && chunks[chunks.len() - 1] == kept[b]);
            }
        }
    }
}

/// Taking a file out leaves the ids distinct and below their bound.
pub proof fn lemma_filter_keeps_ids(chunks: Seq<ChunkView>, path: Seq<char>, bound: int)
    requires
        distinct_ids(chunks),
        ids_below(chunks, bound),
    ensures
        distinct_ids(of_others(chunks, path)),
        ids_below(of_others(chunks, path), bound),
{
    lemma_others_are_old(chunks, path);
    let kept = of_others(chunks, path);
    assert forall|a: int, b: int| 0 <= a < b < kept.len() implies kept[a].id != kept[b].id by {
        let (i, j) = choose|i: int, j: int|
            0 <= i < j < chunks.len() && chunks[i] == kept[a] && chunks[j] == kept[b];
    }
    assert forall|k: int| 0 <= k < kept.len() implies (#[trigger] kept[k]).id < bound by {
        let i = choose|i: int| k <= i < chunks.len() && chunks[i] == kept[k];
    }
}

/// Every chunk carries the hash that is on record for its file.
pub open spec fn hashes_agree(chunks: Seq<ChunkView>, hashes: Map<Seq<char>, Seq<char>>) -> bool {
    forall|i: int|
        0 <= i < chunks.len() ==> hashes.dom().contains((#[trigger] chunks[i]).file_path)
            && hashes[chunks[i].file_path] == chunks[i].file_hash
}

/// All chunks of one file carry one hash.
pub open spec fn one_hash_per_file(chunks: Seq<ChunkView>) -> bool {
    forall|i: int, j: int|
        0 <= i < chunks.len() && 0 <= j < chunks.len() && chunks[i].file_path
            == chunks[j].file_path ==> chunks[i].file_hash == chunks[j].file_hash
}

/// What is on record after the files of `chunks` were put on record: for the
/// file of a chunk the hash of its last chunk, for every other path what was
/// on record before.
pub proof fn lemma_recorded(hashes: Map<Seq<char>, Seq<char>>, chunks: Seq<ChunkView>)
    ensures
        forall|p: Seq<char>|
            hashes.dom().contains(p) ==> #[trigger] recorded(hashes, chunks).dom().contains(p),
        forall|i: int|
            0 <= i < chunks.len() ==> recorded(hashes, chunks).dom().contains(
                (#[trigger] chunks[i]).file_path,
            ),
        forall|p: Seq<char>| #[trigger]
            recorded(hashes, chunks).dom().contains(p) ==> hashes.dom().contains(p) || exists|
                i: int,
            |
                0 <= i < chunks.len() && (#[trigger] chunks[i]).file_path == p,
        forall|p: Seq<char>|
            (forall|i: int| 0 <= i < chunks.len() ==> (#[trigger] chunks[i]).file_path != p)
                && hashes.dom().contains(p) ==> #[trigger] recorded(hashes, chunks)[p] == hashes[p],
        forall|i: int|
            0 <= i < chunks.len() && (forall|j: int|
                i < j < chunks.len() ==> (#[trigger] chunks[j]).file_path != chunks[i].file_path)
                ==> recorded(hashes, chunks)[(#[trigger] chunks[i]).file_path]
                == chunks[i].file_hash,
    decreases chunks.len(),
{
    if chunks.len() > 0 {
        let front = chunks.drop_last();
        let last = chunks.last();
        lemma_recorded(hashes, front);
        let now = recorded(hashes, chunks);
        assert forall|i: int| 0 <= i < chunks.len() implies now.dom().contains(
            (#[trigger] chunks[i]).file_path,
        ) by {
            if i < front.len() {
                assert(front[i] == chunks[i]);
            }
        }
        assert forall|p: Seq<char>| #[trigger] now.dom().contains(p) implies hashes.dom().contains(
            p,
        ) || exists|i: int| 0 <= i < chunks.len() && (#[trigger] chunks[i]).file_path == p by {
            if p == last.file_path {
                assert(chunks[chunks.len() - 1].file_path == p);
            } else if !hashes.dom().contains(p) {
                assert(recorded(hashes, front).dom().contains(p));
                let i = choose|i: int| 0 <= i < front.len() && (#[trigger] front[i]).file_path == p;
                assert(front[i] == chunks[i]);
                assert(chunks[i].file_path == p);
            }
        }
        assert forall|p: Seq<char>|
            (forall|i: int| 0 <= i < chunks.len() ==> (#[trigger] chunks[i]).file_path != p)
                && hashes.dom().contains(p) implies #[trigger] now[p] == hashes[p] by {
            assert(chunks[chunks.len() - 1].file_path != p);
            assert forall|i: int| 0 <= i < front.len() implies (#[trigger] front[i]).file_path
                != p by {
                assert(front[i] == chunks[i]);
            }
            assert(recorded(hashes, front)[p] == hashes[p]);
        }
        assert forall|i: int|
            0 <= i < chunks.len() && (forall|j: int|
                i < j < chunks.len() ==> (#[trigger] chunks[j]).file_path
                    != chunks[i].file_path) implies now[(#[trigger] chunks[i]).file_path]
            == chunks[i].file_hash by {
            if i < front.len() {
                assert(front[i] == chunks[i]);
                assert(chunks[chunks.len() - 1].file_path != chunks[i].file_path);
                assert forall|j: int| i < j < front.len() implies (#[trigger] front[j]).file_path
                    != front[i].file_path by {
                    assert(front[j] == chunks[j]);
                }
            }
        }
    }
}

/// The first `upto` neighbours give results whose scores are 1 less one of
/// their distances.
proof fn lemma_hit_scores(
    chunks: Seq<ChunkView>,
    keys: Seq<u64>,
    distances: Seq<i32>,
    upto: int,
    low: int,
    high: int,
)
    requires
        0 <= upto <= keys.len(),
        upto <= distances.len(),
        forall|i: int| 0 <= i < upto ==> low <= (#[trigger] distances[i]) <= high,
    ensures
        hits(chunks, keys, distances, upto).len() <= upto,
        forall|k: int|
            0 <= k < hits(chunks, keys, distances, upto).len() ==> SCORE_ONE - high <= (
            #[trigger] hits(chunks, keys, distances, upto)[k]).score <= SCORE_ONE - low,
    decreases upto,
{
    if upto > 0 {
        lemma_hit_scores(chunks, keys, distances, upto - 1, low, high);
        assert(low <= distances[upto - 1] <= high);
    }
}

/// Scores stay in the range of the distances: where every distance is
/// between `low` and `high`, every score is between 1 less `high` and 1 less
/// `low`. A neighbour at distance 0 scores 1, and cosine distances, which
/// lie between 0 and 2, give scores between -1 and 1.
pub proof fn lemma_scores_in_range(
    chunks: Seq<ChunkView>,
    keys: Seq<u64>,
    distances: Seq<i32>,
    low: int,
    high: int,
)
    requires
        forall|i: int| 0 <= i < distances.len() ==> low <= (#[trigger] distances[i]) <= high,
    ensures
        forall|k: int|
            0 <= k < search_results(chunks, keys, distances).len() ==> SCORE_ONE - high <= (
            #[trigger] search_results(chunks, keys, distances)[k]).score <= SCORE_ONE - low,
{
    let pairs = if keys.len() <= distances.len() {
        keys.len() as int
    } else {
        distances.len() as int
    };
    let found = hits(chunks, keys, distances, pairs);
    lemma_hit_scores(chunks, keys, distances, pairs, low, high);
    crate::ranking::lemma_ranked(found);
    let sorted = ranked(found);
    assert forall|k: int| 0 <= k < sorted.len() implies SCORE_ONE - high <= (
    #[trigger] sorted[k]).score <= SCORE_ONE - low by {
        let x = sorted[k];
        vstd::seq_lib::to_multiset_contains(sorted, x);
        assert(sorted.contains(x));
        vstd::seq_lib::to_multiset_contains(found, x);
        let j = choose|j: int| 0 <= j < found.len() && found[j] == x;
        assert(SCORE_ONE - high <= found[j].score <= SCORE_ONE - low);
    }
}

/// In a well-formed index the paths are those that have a hash, each once.
pub proof fn lemma_wf_linked(index: VectorIndex)
    requires
        index.wf(),
    ensures
        index.state().linked(),
{
}

/// In a well-formed index no two chunks share an id, and
/// the next id is above the id of every chunk.
pub proof fn lemma_ids_unique(index: VectorIndex, i: int, j: int)
    requires
        index.wf(),
        0 <= i < index.records().len(),
        0 <= j < index.records().len(),
        i != j,
    ensures
        index.records()[i].id != index.records()[j].id,
        index.records()[i].id < index.metadata().next_id,
{
    if i < j {
        assert(index.records()[i].id != index.records()[j].id);
    } else {
        assert(index.records()[j].id != index.records()[i].id);
    }
}

/// `add_chunks` keeps the hashes in line. Where every chunk carried the
/// hash on record for its file, and the chunks old and new of one file carry
/// one hash, every chunk carries the hash on record afterwards.
pub proof fn lemma_add_keeps_hashes(
    held: Seq<ChunkView>,
    hashes: Map<Seq<char>, Seq<char>>,
    added: Seq<ChunkView>,
)
    requires
        hashes_agree(held, hashes),
        one_hash_per_file(held + added),
    ensures
        hashes_agree(held + added, recorded(hashes, added)),
{
    let all = held + added;
    let now = recorded(hashes, added);
    lemma_recorded(hashes, added);
    assert forall|i: int| 0 <= i < all.len() implies now.dom().contains(
        (#[trigger] all[i]).file_path,
    ) && now[all[i].file_path] == all[i].file_hash by {
        let p = all[i].file_path;
        if i < held.len() {
            assert(all[i] == held[i]);
        } else {
            assert(all[i] == added[i - held.len()]);
        }
        if exists|k: int| 0 <= k < added.len() && (#[trigger] added[k]).file_path == p {
            let k = last_of_file(added, p);
            lemma_last_of_file(added, p);
            assert(all[held.len() + k] == added[k]);
        } else {
            assert(i < held.len());
        }
    }
}

/// Index of the last chunk of a file, -1 where it has none.
pub open spec fn last_of_file(chunks: Seq<ChunkView>, path: Seq<char>) -> int
    decreases chunks.len(),
{
    if chunks.len() == 0 {
        -1
    } else if chunks.last().file_path == path {
        chunks.len() - 1
    } else {
        last_of_file(chunks.drop_last(), path)
    }
}

/// Where `last_of_file` points.
pub proof fn lemma_last_of_file(chunks: Seq<ChunkView>, path: Seq<char>)
    ensures
        -1 <= last_of_file(chunks, path) < chunks.len(),
        last_of_file(chunks, path) >= 0 ==> chunks[last_of_file(chunks, path)].file_path == path,
        forall|j: int|
            last_of_file(chunks, path) < j < chunks.len() ==> (#[trigger] chunks[j]).file_path
                != path,
    decreases chunks.len(),
{
    if chunks.len() > 0 && chunks.last().file_path != path {
        let front = chunks.drop_last();
        lemma_last_of_file(front, path);
        assert forall|j: int| last_of_file(chunks, path) < j < chunks.len() implies (
        #[trigger] chunks[j]).file_path != path by {
            if j < front.len() {
                assert(front[j] == chunks[j]);
            }
        }
    }
}

/// `remove_file` keeps the hashes in line. Where every chunk carried the
/// hash on record for its file, the chunks that are left still do.
pub proof fn lemma_remove_keeps_hashes(
    held: Seq<ChunkView>,
    hashes: Map<Seq<char>, Seq<char>>,
    path: Seq<char>,
)
    requires
        hashes_agree(held, hashes),
    ensures
        hashes_agree(of_others(held, path), hashes.remove(path)),
{
    let kept = of_others(held, path);
    lemma_others_are_old(held, path);
    assert forall|k: int| 0 <= k < kept.len() implies hashes.remove(path).dom().contains(
        (#[trigger] kept[k]).file_path,
    ) && hashes.remove(path)[kept[k].file_path] == kept[k].file_hash by {
        let i = choose|i: int| k <= i < held.len() && held[i] == kept[k];
        assert(held[i].file_path != path) by {
            lemma_others_differ(held, path, k);
        }
    }
}

/// No chunk that is left after a file was taken out belongs to the file.
pub proof fn lemma_others_differ(chunks: Seq<ChunkView>, path: Seq<char>, k: int)
    requires
        0 <= k < of_others(chunks, path).len(),
    ensures
        of_others(chunks, path)[k].file_path != path,
    decreases chunks.len(),
{
    reveal(Seq::filter);
    if chunks.len() > 0 {
        let sub = of_others(chunks.drop_last(), path);
        if k < sub.len() {
            lemma_others_differ(chunks.drop_last(), path, k);
        }
    }
}

} // verus!
