//! Keeps an index in step with the files of a tree: which files have to be
//! taken out, which have to be indexed anew, and the chunks of those.
//!
//! Finding and reading the files, embedding the chunks and writing the index
//! are the caller's part. The caller hands in what it found and gets back
//! what to do with the store of vectors.
use crate::chunker::{chunk_records, chunk_views, Chunk, ChunkView, Chunker};
use crate::config::{indexable, should_index_file, Config};
use crate::error::concat;
use crate::hashing::{compute_hash, content_hash};
use crate::index::{distinct_ids, ids_below, ids_of, of_file, IndexState, VectorIndex};
use crate::chunker_proofs::lemma_chunk_count;
use crate::text::{decimal, split_lines, str_eq, to_decimal, utf8_len};
use vstd::prelude::*;

verus! {

/// A file that was found and read.
#[derive(Debug)]
pub struct FileToIndex {
    /// Where the file is.
    pub path: String,
    /// Its path from the root of the index.
    pub relative_path: String,
    /// Its text.
    pub content: String,
    /// The hash of its text.
    pub hash: String,
}

/// What the index goes by in a file that was found.
pub struct FileView {
    pub relative_path: Seq<char>,
    pub content: Seq<char>,
    pub hash: Seq<char>,
}

impl View for FileToIndex {
    type V = FileView;

    open spec fn view(&self) -> FileView {
        FileView { relative_path: self.relative_path@, content: self.content@, hash: self.hash@ }
    }
}

impl FileToIndex {
    /// A file with the hash of its text.
    pub fn new(path: String, relative_path: String, content: String) -> (r: FileToIndex)
        ensures
            r.path == path,
            r@ == (FileView {
                relative_path: relative_path@,
                content: content@,
                hash: content_hash(content@),
            }),
    {
        let hash = compute_hash(content.as_str());
        FileToIndex { path, relative_path, content, hash }
    }
}

/// The views of a list of files.
pub open spec fn file_views(files: Seq<FileToIndex>) -> Seq<FileView> {
    Seq::new(files.len(), |i: int| files[i]@)
}

/// How many files an update found new, changed, gone and unchanged.
#[derive(Debug, Clone, Copy, PartialEq, Eq, Structural)]
pub struct UpdateStats {
    /// Files that were not indexed before.
    pub added: usize,
    /// Files whose text has changed.
    pub updated: usize,
    /// Files that are indexed and were not found.
    pub removed: usize,
    /// Files whose text is as it was.
    pub unchanged: usize,
}

impl Default for UpdateStats {
    fn default() -> (r: UpdateStats)
        ensures
            r == (UpdateStats { added: 0, updated: 0, removed: 0, unchanged: 0 }),
    {
        UpdateStats { added: 0, updated: 0, removed: 0, unchanged: 0 }
    }
}

impl UpdateStats {
    /// The four counts in words.
    pub open spec fn spec_describe(&self) -> Seq<char> {
        "Added: "@ + decimal(self.added as nat) + ", Updated: "@ + decimal(self.updated as nat)
            + ", Removed: "@ + decimal(self.removed as nat) + ", Unchanged: "@ + decimal(
            self.unchanged as nat,
        )
    }

    /// The four counts in words.
    pub fn describe(&self) -> (r: String)
        ensures
            r@ == self.spec_describe(),
    {
        let mut text = concat("Added: ", to_decimal(self.added as u128).as_str());
        text = concat(text.as_str(), ", Updated: ");
        text = concat(text.as_str(), to_decimal(self.updated as u128).as_str());
        text = concat(text.as_str(), ", Removed: ");
        text = concat(text.as_str(), to_decimal(self.removed as u128).as_str());
        text = concat(text.as_str(), ", Unchanged: ");
        text = concat(text.as_str(), to_decimal(self.unchanged as u128).as_str());
        text
    }
}

/// Where an update stands: the index, the files that have to be indexed, the
/// ids whose vectors have to go, and the counts.
pub struct SyncState {
    pub index: IndexState,
    pub to_index: Seq<FileView>,
    pub removed_ids: Seq<u64>,
    pub added: int,
    pub updated: int,
    pub removed: int,
    pub unchanged: int,
}

/// An update that has yet to look at a file.
pub open spec fn sync_start(index: IndexState) -> SyncState {
    SyncState {
        index,
        to_index: Seq::empty(),
        removed_ids: Seq::empty(),
        added: 0,
        updated: 0,
        removed: 0,
        unchanged: 0,
    }
}

/// The update after a look at one file that was found. A file with the hash
/// that is on record is unchanged. A file with another hash is taken out of
/// the index and has to be indexed again. A file without a hash on record is
/// new and has to be indexed.
pub open spec fn sync_file(s: SyncState, file: FileView) -> SyncState {
    if s.index.hashes.dom().contains(file.relative_path) {
        if s.index.hashes[file.relative_path] == file.hash {
            SyncState { unchanged: s.unchanged + 1, ..s }
        } else {
            SyncState {
                index: s.index.without_file(file.relative_path),
                to_index: s.to_index.push(file),
                removed_ids: s.removed_ids + ids_of(of_file(s.index.records, file.relative_path)),
                updated: s.updated + 1,
                ..s
            }
        }
    } else {
        SyncState { to_index: s.to_index.push(file), added: s.added + 1, ..s }
    }
}

/// The update after a look at each of the files, in their order.
pub open spec fn sync_files(s: SyncState, files: Seq<FileView>) -> SyncState
    decreases files.len(),
{
    if files.len() == 0 {
        s
    } else {
        sync_file(sync_files(s, files.drop_last()), files.last())
    }
}

/// The update after the file at `path`, which was not found, was taken out.
pub open spec fn drop_file(s: SyncState, path: Seq<char>) -> SyncState {
    SyncState {
        index: s.index.without_file(path),
        removed_ids: s.removed_ids + ids_of(of_file(s.index.records, path)),
        removed: s.removed + 1,
        ..s
    }
}

/// The update after each of the paths was taken out, in their order.
pub open spec fn drop_files(s: SyncState, paths: Seq<Seq<char>>) -> SyncState
    decreases paths.len(),
{
    if paths.len() == 0 {
        s
    } else {
        drop_file(drop_files(s, paths.drop_last()), paths.last())
    }
}

/// Whether a file with this path was found.
#[verifier::opaque]
pub open spec fn discovered(files: Seq<FileView>, path: Seq<char>) -> bool {
    exists|i: int| 0 <= i < files.len() && (#[trigger] files[i]).relative_path == path
}

/// The indexed paths that were not found, in their order.
pub open spec fn stale_paths(paths: Seq<Seq<char>>, files: Seq<FileView>) -> Seq<Seq<char>> {
    paths.filter(|p: Seq<char>| !discovered(files, p))
}

/// A whole update: first a look at each file that was found, then the
/// indexed files that were not found are taken out.
pub open spec fn synced(index: IndexState, files: Seq<FileView>) -> SyncState {
    drop_files(sync_files(sync_start(index), files), stale_paths(index.paths, files))
}

/// The chunks of a list of files, one file after the other, with ids that
/// count up from `start_id`.
pub open spec fn chunks_of_files(
    files: Seq<FileView>,
    start_id: int,
    chunk_size: nat,
    overlap: nat,
) -> Seq<ChunkView>
    decreases files.len(),
{
    if files.len() == 0 {
        Seq::empty()
    } else {
        let before = chunks_of_files(files.drop_last(), start_id, chunk_size, overlap);
        before + chunk_records(
            files.last().content,
            files.last().relative_path,
            files.last().hash,
            start_id + before.len(),
            chunk_size,
            overlap,
        )
    }
}

/// How many bytes the texts of the files take together.
pub open spec fn total_bytes(files: Seq<FileView>) -> nat
    decreases files.len(),
{
    if files.len() == 0 {
        0
    } else {
        total_bytes(files.drop_last()) + utf8_len(files.last().content)
    }
}

/// Whether the line numbers and the ids of the chunks of the files are sure
/// to fit their types: whether each text has fewer bytes than the largest
/// line number, and all together no more than there are ids from `next_id`
/// on.
pub open spec fn files_fit(files: Seq<FileView>, next_id: u64) -> bool {
    &&& forall|i: int| 0 <= i < files.len() ==> utf8_len((#[trigger] files[i]).content) < usize::MAX
    &&& next_id + total_bytes(files) <= u64::MAX
}

/// Files have no more chunks than bytes.
pub proof fn lemma_files_fit(files: Seq<FileView>, start_id: int, chunk_size: nat, overlap: nat)
    ensures
        chunks_of_files(files, start_id, chunk_size, overlap).len() <= total_bytes(files),
        forall|i: int|
            0 <= i < files.len() ==> split_lines((#[trigger] files[i]).content).len() <= utf8_len(
                files[i].content,
            ),
    decreases files.len(),
{
    if files.len() > 0 {
        let front = files.drop_last();
        lemma_files_fit(front, start_id, chunk_size, overlap);
        lemma_chunk_count(files.last().content, chunk_size, overlap);
        assert forall|i: int| 0 <= i < files.len() implies split_lines(
            (#[trigger] files[i]).content,
        ).len() <= utf8_len(files[i].content) by {
            if i < front.len() {
                assert(front[i] == files[i]);
            }
        }
    }
}

/// Whether the files are sure to fit, by `files_fit`.
pub fn within_limits(next_id: u64, files: &Vec<FileToIndex>) -> (r: bool)
    ensures
        r == files_fit(file_views(files@), next_id),
{
    let ghost views = file_views(files@);
    let room = u64::MAX - next_id;
    let mut total: u64 = 0;
    let mut i: usize = 0;
    assert(views.subrange(0, 0) =~= Seq::<FileView>::empty());
    while i < files.len()
        invariant
            views == file_views(files@),
            room == u64::MAX - next_id,
            i <= files@.len(),
            total == total_bytes(views.subrange(0, i as int)),
            total <= room,
            forall|k: int| 0 <= k < i ==> utf8_len((#[trigger] views[k]).content) < usize::MAX,
        decreases files@.len() - i,
    {
        let bytes = files[i].content.as_str().as_bytes().len();
        proof {
            let next = views.subrange(0, i + 1);
            assert(next.drop_last() =~= views.subrange(0, i as int));
            assert(next.last() == views[i as int]);
            lemma_total_grows(views, i + 1);
        }
        if bytes == usize::MAX {
            assert(utf8_len(views[i as int].content) == usize::MAX);
            return false;
        }
        if bytes as u64 > room - total {
            return false;
        }
        total = total + bytes as u64;
        i += 1;
    }
    assert(views.subrange(0, files@.len() as int) =~= views);
    true
}

/// The first files of a list take no more bytes than all of them.
pub proof fn lemma_total_grows(files: Seq<FileView>, upto: int)
    requires
        0 <= upto <= files.len(),
    ensures
        total_bytes(files.subrange(0, upto)) <= total_bytes(files),
    decreases files.len() - upto,
{
    if upto < files.len() {
        lemma_total_grows(files, upto + 1);
        let next = files.subrange(0, upto + 1);
        assert(next.drop_last() =~= files.subrange(0, upto));
    } else {
        assert(files.subrange(0, upto) =~= files);
    }
}

/// What an update leaves for its caller to do.
#[derive(Debug)]
pub struct UpdateOutcome {
    /// The counts of the update.
    pub stats: UpdateStats,
    /// The ids of the chunks that were taken out: their vectors have to go.
    pub removed_ids: Vec<u64>,
    /// The files that have to be indexed.
    pub files_to_index: Vec<FileToIndex>,
}

/// The elements of a list in the opposite order.
fn reversed<T>(list: Vec<T>) -> (r: Vec<T>)
    ensures
        r@.len() == list@.len(),
        forall|k: int| 0 <= k < r@.len() ==> r@[k] == list@[list@.len() - 1 - k],
{
    let ghost whole = list@;
    let mut source = list;
    let mut out: Vec<T> = Vec::new();
    while source.len() > 0
        invariant
            source@.len() + out@.len() == whole.len(),
            source@ == whole.subrange(0, source@.len() as int),
            forall|k: int| 0 <= k < out@.len() ==> out@[k] == whole[whole.len() - 1 - k],
        decreases source@.len(),
    {
        match source.pop() {
            Some(item) => {
                out.push(item);
            },
            None => {},
        }
    }
    out
}

/// Whether one of the files has the path `path`.
fn is_discovered(files: &Vec<FileToIndex>, path: &str) -> (r: bool)
    ensures
        r == discovered(file_views(files@), path@),
{
    let ghost views = file_views(files@);
    let mut i: usize = 0;
    while i < files.len()
        invariant
            views == file_views(files@),
            i <= files@.len(),
            forall|k: int| 0 <= k < i ==> (#[trigger] views[k]).relative_path != path@,
        decreases files@.len() - i,
    {
        if str_eq(files[i].relative_path.as_str(), path) {
            proof {
                reveal(discovered);
                assert(views[i as int].relative_path == path@);
            }
            return true;
        }
        i += 1;
    }
    proof {
        reveal(discovered);
    }
    false
}

/// Builds an index and keeps it in step with the files of its root.
#[derive(Debug)]
pub struct Indexer {
    config: Config,
    chunker: Chunker,
}

/// How many chunks go to the embedding model at once.
pub const EMBED_BATCH_SIZE: usize = 32;

impl Indexer {
    /// The settings of the indexer.
    pub closed spec fn settings(&self) -> Config {
        self.config
    }

    /// The chunker of the indexer.
    pub closed spec fn chunker(&self) -> Chunker {
        self.chunker
    }

    /// An indexer that chunks by the sizes of `config`.
    pub fn new(config: Config) -> (r: Indexer)
        ensures
            r.settings() == config,
            r.chunker().chunk_size() == config.chunk_size,
            r.chunker().overlap() == config.chunk_overlap,
    {
        let chunker = Chunker::new(config.chunk_size, config.chunk_overlap);
        Indexer { config, chunker }
    }

    /// The settings of the indexer.
    pub fn config(&self) -> (r: &Config)
        ensures
            *r == self.settings(),
    {
        &self.config
    }

    /// Whether a file that was found is taken in: its extension is one of
    /// those that are indexed and it is not larger than the settings allow.
    pub fn accepts(&self, path: &str, size: u64) -> (r: bool)
        ensures
            r == (indexable(path@) && size <= self.settings().max_file_size),
    {
        should_index_file(path) && size <= self.config.max_file_size
    }

    /// A fresh index for the files that were found: an empty index with the
    /// settings of the indexer, and the chunks of all the files, with ids
    /// that count up from 0. The store needs a vector for the text of each
    /// chunk, and the index takes the chunks by `add_chunks`.
    pub fn build_index(&self, files: &Vec<FileToIndex>) -> (r: (VectorIndex, Vec<Chunk>))
        requires
            forall|i: int|
                0 <= i < files@.len() ==> split_lines((#[trigger] files@[i]).content@).len()
                    < usize::MAX,
            chunks_of_files(
                file_views(files@),
                0,
                self.chunker().chunk_size(),
                self.chunker().overlap(),
            ).len() <= u64::MAX,
        ensures
            r.0.wf(),
            r.0.metadata().hash_consistent(),
            r.0.state() == (IndexState {
                records: Seq::empty(),
                hashes: Map::empty(),
                paths: Seq::empty(),
                next_id: 0,
            }),
            r.0.settings()@ == self.settings()@,
            r.0.metadata().model_name@ == self.settings().model.spec_model_name(),
            r.0.metadata().dimension == self.settings().model.spec_dimension(),
            chunk_views(r.1@) == chunks_of_files(
                file_views(files@),
                0,
                self.chunker().chunk_size(),
                self.chunker().overlap(),
            ),
            distinct_ids(chunk_views(r.1@)),
            ids_below(chunk_views(r.1@), u64::MAX as int),
    {
        let index = VectorIndex::new(self.config.clone());
        let chunks = self.index_files(&index, files);
        (index, chunks)
    }

    /// The chunks of the files that have to be indexed, with ids that count
    /// up from the next id of the index. The store needs a vector for the
    /// text of each, and the index takes the chunks by `add_chunks`.
    pub fn index_files(&self, index: &VectorIndex, files: &Vec<FileToIndex>) -> (r: Vec<Chunk>)
        requires
            forall|i: int|
                0 <= i < files@.len() ==> split_lines((#[trigger] files@[i]).content@).len()
                    < usize::MAX,
            index.metadata().next_id + chunks_of_files(
                file_views(files@),
                index.metadata().next_id as int,
                self.chunker().chunk_size(),
                self.chunker().overlap(),
            ).len() <= u64::MAX,
        ensures
            chunk_views(r@) == chunks_of_files(
                file_views(files@),
                index.metadata().next_id as int,
                self.chunker().chunk_size(),
                self.chunker().overlap(),
            ),
            ids_below(chunk_views(r@), u64::MAX as int),
            index.wf() ==> distinct_ids(index.records() + chunk_views(r@)),
    {
        let ghost views = file_views(files@);
        let ghost start = index.metadata().next_id as int;
        let ghost size = self.chunker().chunk_size();
        let ghost overlap = self.chunker().overlap();
        let mut all_chunks: Vec<Chunk> = Vec::new();
        let mut next_id = index.next_id();
        let mut i: usize = 0;
        assert(views.subrange(0, 0) =~= Seq::<FileView>::empty());
        assert(chunk_views(all_chunks@) =~= Seq::<ChunkView>::empty());
        while i < files.len()
            invariant
                views == file_views(files@),
                start == index.metadata().next_id,
                size == self.chunker().chunk_size(),
                overlap == self.chunker().overlap(),
                i <= files@.len(),
                forall|k: int|
                    0 <= k < files@.len() ==> split_lines((#[trigger] files@[k]).content@).len()
                        < usize::MAX,
                start + chunks_of_files(views, start, size, overlap).len() <= u64::MAX,
                chunk_views(all_chunks@) == chunks_of_files(
                    views.subrange(0, i as int),
                    start,
                    size,
                    overlap,
                ),
                next_id == start + all_chunks@.len(),
            decreases files@.len() - i,
        {
            proof {
                let next = views.subrange(0, i + 1);
                assert(next.drop_last() =~= views.subrange(0, i as int));
                assert(next.last() == views[i as int]);
                lemma_chunks_grow(views, start, size, overlap, i + 1);
            }
            let ghost before = chunk_views(all_chunks@);
            let mut chunks = self.chunker.chunk_text(
                files[i].content.as_str(),
                files[i].relative_path.as_str(),
                files[i].hash.as_str(),
                next_id,
            );
            let ghost fresh = chunk_views(chunks@);
            next_id = next_id + chunks.len() as u64;
            all_chunks.append(&mut chunks);
            assert(chunk_views(all_chunks@) =~= before + fresh);
            i += 1;
        }
        assert(views.subrange(0, files@.len() as int) =~= views);
        proof {
            lemma_chunk_ids(views, start, size, overlap);
            if index.wf() {
                lemma_fresh_ids(index.records(), chunk_views(all_chunks@), start);
            }
        }
        all_chunks
    }

    /// The chunks of the files as `index_files` gives them, where the line
    /// numbers and the ids are sure to fit their types; nothing where they
    /// are not.
    pub fn try_index_files(&self, index: &VectorIndex, files: &Vec<FileToIndex>) -> (r: Option<
        Vec<Chunk>,
    >)
        ensures
            match r {
                Some(chunks) => {
                    &&& files_fit(file_views(files@), index.metadata().next_id)
                    &&& chunk_views(chunks@) == chunks_of_files(
                        file_views(files@),
                        index.metadata().next_id as int,
                        self.chunker().chunk_size(),
                        self.chunker().overlap(),
                    )
                    &&& ids_below(chunk_views(chunks@), u64::MAX as int)
                    &&& index.wf() ==> distinct_ids(index.records() + chunk_views(chunks@))
                },
                None => !files_fit(file_views(files@), index.metadata().next_id),
            },
    {
        if within_limits(index.next_id(), files) {
            proof {
                lemma_files_fit(
                    file_views(files@),
                    index.metadata().next_id as int,
                    self.chunker().chunk_size(),
                    self.chunker().overlap(),
                );
                assert forall|i: int| 0 <= i < files@.len() implies split_lines(
                    (#[trigger] files@[i]).content@,
                ).len() < usize::MAX by {
                    assert(file_views(files@)[i].content == files@[i].content@);
                }
            }
            Some(self.index_files(index, files))
        } else {
            None
        }
    }

    /// A fresh index for the files as `build_index` gives it, where the line
    /// numbers and the ids are sure to fit their types; nothing where they
    /// are not.
    pub fn try_build_index(&self, files: &Vec<FileToIndex>) -> (r: Option<(VectorIndex, Vec<Chunk>)>)
        ensures
            match r {
                Some(fresh) => {
                    &&& files_fit(file_views(files@), 0)
                    &&& fresh.0.wf()
                    &&& fresh.0.metadata().hash_consistent()
                    &&& fresh.0.state() == (IndexState {
                        records: Seq::empty(),
                        hashes: Map::empty(),
                        paths: Seq::empty(),
                        next_id: 0,
                    })
                    &&& fresh.0.settings()@ == self.settings()@
                    &&& chunk_views(fresh.1@) == chunks_of_files(
                        file_views(files@),
                        0,
                        self.chunker().chunk_size(),
                        self.chunker().overlap(),
                    )
                    &&& distinct_ids(chunk_views(fresh.1@))
                    &&& ids_below(chunk_views(fresh.1@), u64::MAX as int)
                },
                None => !files_fit(file_views(files@), 0),
            },
    {
        if within_limits(0, files) {
            proof {
                lemma_files_fit(
                    file_views(files@),
                    0,
                    self.chunker().chunk_size(),
                    self.chunker().overlap(),
                );
                assert forall|i: int| 0 <= i < files@.len() implies split_lines(
                    (#[trigger] files@[i]).content@,
                ).len() < usize::MAX by {
                    assert(file_views(files@)[i].content == files@[i].content@);
                }
            }
            Some(self.build_index(files))
        } else {
            None
        }
    }

    /// Brings the index in step with the files that were found. Files whose
    /// hash is as on record are left alone; changed files are taken out of
    /// the index; files that are indexed and were not found are taken out
    /// too. The outcome holds the counts, the ids that were taken out and
    /// the files, changed and new, that have to be indexed.
    pub fn update_index(&self, index: &mut VectorIndex, files: Vec<FileToIndex>) -> (r:
        UpdateOutcome)
        requires
            old(index).wf(),
        ensures
            final(index).wf(),
            final(index).settings() == old(index).settings(),
            final(index).metadata().model_name == old(index).metadata().model_name,
            final(index).metadata().dimension == old(index).metadata().dimension,
            final(index).state() == synced(old(index).state(), file_views(files@)).index,
            file_views(r.files_to_index@) == synced(
                old(index).state(),
                file_views(files@),
            ).to_index,
            r.removed_ids@ == synced(old(index).state(), file_views(files@)).removed_ids,
            r.stats.added == synced(old(index).state(), file_views(files@)).added,
            r.stats.updated == synced(old(index).state(), file_views(files@)).updated,
            r.stats.removed == synced(old(index).state(), file_views(files@)).removed,
            r.stats.unchanged == synced(old(index).state(), file_views(files@)).unchanged,
    {
        let ghost views = file_views(files@);
        let ghost start = index.state();
        let stale = self.stale_files(index, &files);
        let n = files.len();
        let ghost whole = files@;
        let mut queue = reversed(files);
        let mut stats = UpdateStats::default();
        let mut removed_ids: Vec<u64> = Vec::new();
        let mut files_to_index: Vec<FileToIndex> = Vec::new();
        let mut done: usize = 0;
        proof {
            assert(views.subrange(0, 0) =~= Seq::<FileView>::empty());
            assert(file_views(files_to_index@) =~= Seq::<FileView>::empty());
        }
        while queue.len() > 0
            invariant
                n == whole.len(),
                views == file_views(whole),
                done + queue@.len() == n,
                forall|k: int| 0 <= k < queue@.len() ==> queue@[k] == whole[n - 1 - k],
                index.wf(),
                index.settings() == old(index).settings(),
                index.metadata().model_name == old(index).metadata().model_name,
                index.metadata().dimension == old(index).metadata().dimension,
                stats.removed == 0,
                stats.added + stats.updated + stats.unchanged == done,
                ({
                    let s = sync_files(sync_start(start), views.subrange(0, done as int));
                    &&& index.state() == s.index
                    &&& file_views(files_to_index@) == s.to_index
                    &&& removed_ids@ == s.removed_ids
                    &&& stats.added == s.added
                    &&& stats.updated == s.updated
                    &&& stats.unchanged == s.unchanged
                    &&& s.removed == 0
                }),
            decreases queue@.len(),
        {
            proof {
                let next = views.subrange(0, done + 1);
                assert(next.drop_last() =~= views.subrange(0, done as int));
                assert(next.last() == views[done as int]);
            }
            let ghost queued = file_views(files_to_index@);
            match queue.pop() {
                Some(file) => {
                    assert(file == whole[done as int]);
                    let unchanged = match index.get_file_hash(file.relative_path.as_str()) {
                        Some(existing) => Some(str_eq(existing.as_str(), file.hash.as_str())),
                        None => None,
                    };
                    match unchanged {
                        Some(true) => {
                            stats.unchanged = stats.unchanged + 1;
                        },
                        Some(false) => {
                            match index.remove_file(file.relative_path.as_str()) {
                                Ok(mut ids) => {
                                    removed_ids.append(&mut ids);
                                },
                                Err(_) => {},
                            }
                            stats.updated = stats.updated + 1;
                            files_to_index.push(file);
                            assert(file_views(files_to_index@) =~= queued.push(file@));
                        },
                        None => {
                            stats.added = stats.added + 1;
                            files_to_index.push(file);
                            assert(file_views(files_to_index@) =~= queued.push(file@));
                        },
                    }
                    done += 1;
                },
                None => {},
            }
        }
        assert(views.subrange(0, n as int) =~= views);
        let ghost after_files = sync_files(sync_start(start), views);
        let ghost stale_views = stale_paths(start.paths, views);
        let mut j: usize = 0;
        assert(stale_views.subrange(0, 0) =~= Seq::<Seq<char>>::empty());
        while j < stale.len()
            invariant
                j <= stale@.len(),
                stale@.len() == stale_views.len(),
                forall|k: int| 0 <= k < stale@.len() ==> (#[trigger] stale@[k])@ == stale_views[k],
                index.wf(),
                index.settings() == old(index).settings(),
                index.metadata().model_name == old(index).metadata().model_name,
                index.metadata().dimension == old(index).metadata().dimension,
                stats.removed == j,
                ({
                    let s = drop_files(after_files, stale_views.subrange(0, j as int));
                    &&& index.state() == s.index
                    &&& file_views(files_to_index@) == s.to_index
                    &&& removed_ids@ == s.removed_ids
                    &&& stats.added == s.added
                    &&& stats.updated == s.updated
                    &&& stats.unchanged == s.unchanged
                    &&& stats.removed == s.removed
                }),
            decreases stale@.len() - j,
        {
            proof {
                let next = stale_views.subrange(0, j + 1);
                assert(next.drop_last() =~= stale_views.subrange(0, j as int));
                assert(next.last() == stale_views[j as int]);
            }
            match index.remove_file(stale[j].as_str()) {
                Ok(mut ids) => {
                    removed_ids.append(&mut ids);
                },
                Err(_) => {},
            }
            stats.removed = stats.removed + 1;
            j += 1;
        }
        assert(stale_views.subrange(0, stale@.len() as int) =~= stale_views);
        UpdateOutcome { stats, removed_ids, files_to_index }
    }

    /// The indexed paths that are not among the files that were found.
    fn stale_files(&self, index: &VectorIndex, files: &Vec<FileToIndex>) -> (r: Vec<String>)
        ensures
            r@.len() == stale_paths(index.paths(), file_views(files@)).len(),
            forall|k: int|
                0 <= k < r@.len() ==> (#[trigger] r@[k])@ == stale_paths(
                    index.paths(),
                    file_views(files@),
                )[k],
    {
        let ghost views = file_views(files@);
        let ghost paths = index.paths();
        let indexed = index.indexed_files();
        let mut stale: Vec<String> = Vec::new();
        let mut i: usize = 0;
        assert(paths.subrange(0, 0) =~= Seq::<Seq<char>>::empty());
        while i < indexed.len()
            invariant
                views == file_views(files@),
                paths == index.paths(),
                indexed@.len() == paths.len(),
                forall|k: int| 0 <= k < indexed@.len() ==> (#[trigger] indexed@[k])@ == paths[k],
                i <= indexed@.len(),
                stale@.len() == stale_paths(paths.subrange(0, i as int), views).len(),
                forall|k: int|
                    0 <= k < stale@.len() ==> (#[trigger] stale@[k])@ == stale_paths(
                        paths.subrange(0, i as int),
                        views,
                    )[k],
            decreases indexed@.len() - i,
        {
            proof {
                let next = paths.subrange(0, i + 1);
                assert(next.drop_last() =~= paths.subrange(0, i as int));
                assert(next.last() == paths[i as int]);
                reveal(Seq::filter);
            }
            if !is_discovered(files, indexed[i].as_str()) {
                stale.push(indexed[i].clone());
            }
            i += 1;
        }
        assert(paths.subrange(0, indexed@.len() as int) =~= paths);
        stale
    }
}

/// The chunks of a list of files have the ids `start_id`, `start_id + 1`
/// and so on.
pub proof fn lemma_chunk_ids(files: Seq<FileView>, start_id: int, chunk_size: nat, overlap: nat)
    ensures
        forall|k: int|
            0 <= k < chunks_of_files(files, start_id, chunk_size, overlap).len() ==> (
            #[trigger] chunks_of_files(files, start_id, chunk_size, overlap)[k]).id == start_id + k,
    decreases files.len(),
{
    if files.len() > 0 {
        lemma_chunk_ids(files.drop_last(), start_id, chunk_size, overlap);
    }
}

/// Chunks whose ids count up from a number that is above all ids of an
/// index can join the index without an id occurring twice.
pub proof fn lemma_fresh_ids(held: Seq<ChunkView>, added: Seq<ChunkView>, start_id: int)
    requires
        distinct_ids(held),
        ids_below(held, start_id),
        forall|k: int| 0 <= k < added.len() ==> (#[trigger] added[k]).id == start_id + k,
    ensures
        distinct_ids(held + added),
{
    let all = held + added;
    assert forall|i: int, j: int| 0 <= i < j < all.len() implies all[i].id != all[j].id by {
        if j < held.len() {
            assert(held[i].id != held[j].id);
        } else if i < held.len() {
            assert(held[i].id < start_id);
            assert(added[j - held.len()].id == start_id + (j - held.len()));
        } else {
            assert(added[i - held.len()].id == start_id + (i - held.len()));
            assert(added[j - held.len()].id == start_id + (j - held.len()));
        }
    }
}

/// The chunks of the first files of a list are the first chunks of the
/// whole list.
pub proof fn lemma_chunks_grow(
    files: Seq<FileView>,
    start_id: int,
    chunk_size: nat,
    overlap: nat,
    upto: int,
)
    requires
        0 <= upto <= files.len(),
    ensures
        chunks_of_files(files.subrange(0, upto), start_id, chunk_size, overlap).len()
            <= chunks_of_files(files, start_id, chunk_size, overlap).len(),
    decreases files.len() - upto,
{
    if upto < files.len() {
        lemma_chunks_grow(files, start_id, chunk_size, overlap, upto + 1);
        let next = files.subrange(0, upto + 1);
        assert(next.drop_last() =~= files.subrange(0, upto));
    } else {
        assert(files.subrange(0, upto) =~= files);
    }
}

} // verus!
