//! What holds of updates: a second update right after the first finds
//! nothing to do, and a change to one file touches the chunks of no other.
use crate::chunker::{chunk_records, ChunkView};
use crate::chunker_proofs::lemma_spans_first;
use crate::index::{
    hashes_agree, last_of_file, lemma_add_keeps_hashes, lemma_last_of_file,
    lemma_remove_keeps_hashes, of_file, of_others, one_hash_per_file, recorded, IndexState,
};
use crate::indexer::{
    chunks_of_files, discovered, drop_file, drop_files, stale_paths, sync_file, sync_files,
    sync_start, synced, FileView, SyncState,
};
use crate::text::split_lines;
use vstd::prelude::*;

verus! {

/// No two files have the same path.
pub open spec fn distinct_paths(files: Seq<FileView>) -> bool {
    forall|i: int, j: int|
        0 <= i < j < files.len() ==> files[i].relative_path != files[j].relative_path
}

/// Every file has text.
pub open spec fn all_have_text(files: Seq<FileView>) -> bool {
    forall|i: int| 0 <= i < files.len() ==> (#[trigger] files[i]).content.len() > 0
}

/// The hash on record for every file is the hash of the file.
pub open spec fn in_step(hashes: Map<Seq<char>, Seq<char>>, files: Seq<FileView>) -> bool {
    forall|i: int|
        0 <= i < files.len() ==> hashes.dom().contains((#[trigger] files[i]).relative_path)
            && hashes[files[i].relative_path] == files[i].hash
}

/// Whether `file` is one of `files`.
#[verifier::opaque]
pub open spec fn listed(files: Seq<FileView>, file: FileView) -> bool {
    exists|i: int| 0 <= i < files.len() && files[i] == file
}

/// Whether one of the chunks belongs to the file at `path`.
#[verifier::opaque]
pub open spec fn has_chunk(chunks: Seq<ChunkView>, path: Seq<char>) -> bool {
    exists|c: int| 0 <= c < chunks.len() && (#[trigger] chunks[c]).file_path == path
}

/// Whether one of the files has this path and this hash.
#[verifier::opaque]
pub open spec fn carried(files: Seq<FileView>, path: Seq<char>, hash: Seq<char>) -> bool {
    exists|i: int|
        0 <= i < files.len() && (#[trigger] files[i]).relative_path == path && files[i].hash == hash
}

proof fn lemma_listed(files: Seq<FileView>, i: int)
    requires
        0 <= i < files.len(),
    ensures
        listed(files, files[i]),
        discovered(files, files[i].relative_path),
        carried(files, files[i].relative_path, files[i].hash),
{
    reveal(listed);
    reveal(discovered);
    reveal(carried);
}

proof fn lemma_listed_at(files: Seq<FileView>, file: FileView) -> (i: int)
    requires
        listed(files, file),
    ensures
        0 <= i < files.len(),
        files[i] == file,
{
    reveal(listed);
    choose|i: int| 0 <= i < files.len() && files[i] == file
}

proof fn lemma_discovered_at(files: Seq<FileView>, path: Seq<char>) -> (i: int)
    requires
        discovered(files, path),
    ensures
        0 <= i < files.len(),
        files[i].relative_path == path,
{
    reveal(discovered);
    choose|i: int| 0 <= i < files.len() && (#[trigger] files[i]).relative_path == path
}

proof fn lemma_carried_at(files: Seq<FileView>, path: Seq<char>, hash: Seq<char>) -> (i: int)
    requires
        carried(files, path, hash),
    ensures
        0 <= i < files.len(),
        files[i].relative_path == path,
        files[i].hash == hash,
{
    reveal(carried);
    choose|i: int|
        0 <= i < files.len() && (#[trigger] files[i]).relative_path == path && files[i].hash == hash
}

proof fn lemma_has_chunk(chunks: Seq<ChunkView>, c: int)
    requires
        0 <= c < chunks.len(),
    ensures
        has_chunk(chunks, chunks[c].file_path),
{
    reveal(has_chunk);
}

proof fn lemma_has_chunk_at(chunks: Seq<ChunkView>, path: Seq<char>) -> (c: int)
    requires
        has_chunk(chunks, path),
    ensures
        0 <= c < chunks.len(),
        chunks[c].file_path == path,
{
    reveal(has_chunk);
    choose|c: int| 0 <= c < chunks.len() && (#[trigger] chunks[c]).file_path == path
}

/// Being one of the first files is being one of the files.
proof fn lemma_listed_grows(files: Seq<FileView>, file: FileView)
    requires
        files.len() > 0,
        listed(files.drop_last(), file),
    ensures
        listed(files, file),
{
    let i = lemma_listed_at(files.drop_last(), file);
    assert(files[i] == files.drop_last()[i]);
    lemma_listed(files, i);
}

/// Taking a file out keeps the paths in line with the hashes; the paths that
/// are left are the others.
pub proof fn lemma_without_file(s: IndexState, path: Seq<char>)
    requires
        s.linked(),
    ensures
        s.without_file(path).linked(),
        forall|p: Seq<char>| #[trigger]
            s.without_file(path).paths.contains(p) <==> s.paths.contains(p) && p != path,
{
    let after = s.without_file(path);
    if s.paths.contains(path) {
        let at = s.paths.index_of(path);
        assert(s.paths[at] == path);
        assert forall|a: int, b: int|
            0 <= a < after.paths.len() && 0 <= b < after.paths.len() && a
                != b implies after.paths[a] != after.paths[b] by {
            let x = if a < at { a } else { a + 1 };
            let y = if b < at { b } else { b + 1 };
            assert(after.paths[a] == s.paths[x]);
            assert(after.paths[b] == s.paths[y]);
        }
        assert forall|p: Seq<char>| #[trigger]
            after.paths.contains(p) <==> s.paths.contains(p) && p != path by {
            if after.paths.contains(p) {
                let a = choose|a: int| 0 <= a < after.paths.len() && after.paths[a] == p;
                let x = if a < at { a } else { a + 1 };
                assert(s.paths[x] == p);
            }
            if s.paths.contains(p) && p != path {
                let x = choose|x: int| 0 <= x < s.paths.len() && s.paths[x] == p;
                let a = if x < at { x } else { x - 1 };
                assert(after.paths[a] == p);
            }
        }
    }
}

/// Adding chunks keeps the paths in line with the hashes; the paths are
/// those that were there and those of the chunks.
pub proof fn lemma_with_chunks(s: IndexState, chunks: Seq<ChunkView>)
    requires
        s.linked(),
    ensures
        s.with_chunks(chunks).linked(),
        forall|p: Seq<char>| #[trigger]
            s.with_chunks(chunks).paths.contains(p) <==> s.paths.contains(p) || has_chunk(chunks, p),
    decreases chunks.len(),
{
    reveal(has_chunk);
    let after = s.with_chunks(chunks);
    if chunks.len() > 0 {
        let front = chunks.drop_last();
        let last = chunks.last();
        lemma_with_chunks(s, front);
        let mid = s.with_chunks(front);
        assert forall|p: Seq<char>| #[trigger]
            after.paths.contains(p) <==> s.paths.contains(p) || has_chunk(chunks, p) by {
            if after.paths.contains(p) {
                let a = choose|a: int| 0 <= a < after.paths.len() && after.paths[a] == p;
                if a < mid.paths.len() {
                    assert(mid.paths[a] == p);
                    assert(mid.paths.contains(p));
                    if !s.paths.contains(p) {
                        let i = choose|i: int|
                            0 <= i < front.len() && (#[trigger] front[i]).file_path == p;
                        assert(chunks[i] == front[i]);
                    }
                } else {
                    assert(chunks[chunks.len() - 1].file_path == p);
                }
            }
            if s.paths.contains(p) {
                assert(mid.paths.contains(p));
                let a = choose|a: int| 0 <= a < mid.paths.len() && mid.paths[a] == p;
                assert(after.paths[a] == p);
            }
            if has_chunk(chunks, p) {
                let i = choose|i: int| 0 <= i < chunks.len() && (#[trigger] chunks[i]).file_path == p;
                if i < front.len() {
                    assert(front[i] == chunks[i]);
                    assert(mid.paths.contains(p));
                    let a = choose|a: int| 0 <= a < mid.paths.len() && mid.paths[a] == p;
                    assert(after.paths[a] == p);
                } else if mid.paths.contains(p) {
                } else {
                    assert(after.paths[after.paths.len() - 1] == p);
                }
            }
        }
        assert forall|p: Seq<char>| after.hashes.dom().contains(p) <==> after.paths.contains(
            p,
        ) by {
            if p != last.file_path {
                assert(after.hashes.dom().contains(p) <==> mid.hashes.dom().contains(p));
                if mid.paths.contains(p) {
                    let a = choose|a: int| 0 <= a < mid.paths.len() && mid.paths[a] == p;
                    assert(after.paths[a] == p);
                }
                if after.paths.contains(p) {
                    let a = choose|a: int| 0 <= a < after.paths.len() && after.paths[a] == p;
                    assert(mid.paths[a] == p);
                }
            } else {
                assert(chunks[chunks.len() - 1].file_path == p);
            }
        }
        assert(after.paths.no_duplicates()) by {
            if !mid.paths.contains(last.file_path) {
                assert forall|a: int, b: int|
                    0 <= a < after.paths.len() && 0 <= b < after.paths.len() && a
                        != b implies after.paths[a] != after.paths[b] by {
                    if a < mid.paths.len() {
                        assert(mid.paths[a] == after.paths[a]);
                    }
                    if b < mid.paths.len() {
                        assert(mid.paths[b] == after.paths[b]);
                    }
                }
            }
        }
    }
}

/// What an update leaves: each file that was found has its hash on record
/// or has to be indexed; a file that has to be indexed was found and has no
/// hash on record.
pub open spec fn settled(index: IndexState, to_index: Seq<FileView>, files: Seq<FileView>) -> bool {
    &&& index.linked()
    &&& forall|k: int|
        0 <= k < to_index.len() ==> !index.hashes.dom().contains(
            (#[trigger] to_index[k]).relative_path,
        ) && listed(files, to_index[k])
    &&& forall|i: int|
        0 <= i < files.len() ==> (index.hashes.dom().contains((#[trigger] files[i]).relative_path)
            && index.hashes[files[i].relative_path] == files[i].hash) || listed(to_index, files[i])
}

/// A look at each file settles the index for them. Hashes only go, and only
/// those of files that were found.
pub proof fn lemma_sync_files(index: IndexState, files: Seq<FileView>)
    requires
        index.linked(),
        distinct_paths(files),
    ensures
        ({
            let s = sync_files(sync_start(index), files);
            &&& settled(s.index, s.to_index, files)
            &&& s.removed == 0
            &&& s.added + s.updated + s.unchanged == files.len()
            &&& s.added >= 0 && s.updated >= 0 && s.unchanged >= 0
            &&& forall|p: Seq<char>| #[trigger]
                s.index.hashes.dom().contains(p) ==> index.hashes.dom().contains(p)
                    && s.index.hashes[p] == index.hashes[p]
        }),
    decreases files.len(),
{
    if files.len() > 0 {
        let front = files.drop_last();
        let file = files.last();
        assert(distinct_paths(front)) by {
            assert forall|i: int, j: int| 0 <= i < j < front.len() implies front[i].relative_path
                != front[j].relative_path by {
                assert(front[i] == files[i] && front[j] == files[j]);
            }
        }
        lemma_sync_files(index, front);
        let before = sync_files(sync_start(index), front);
        let s = sync_file(before, file);
        lemma_without_file(before.index, file.relative_path);
        assert(files[files.len() - 1] == file);
        assert forall|k: int| 0 <= k < s.to_index.len() implies !s.index.hashes.dom().contains(
            (#[trigger] s.to_index[k]).relative_path,
        ) && listed(files, s.to_index[k]) by {
            if k < before.to_index.len() {
                assert(s.to_index[k] == before.to_index[k]);
                lemma_listed_grows(files, before.to_index[k]);
            } else {
                lemma_listed(files, files.len() - 1);
            }
        }
        assert forall|i: int| 0 <= i < files.len() implies (s.index.hashes.dom().contains(
            (#[trigger] files[i]).relative_path,
        ) && s.index.hashes[files[i].relative_path] == files[i].hash) || listed(
            s.to_index,
            files[i],
        ) by {
            if i < front.len() {
                assert(front[i] == files[i]);
                assert(files[i].relative_path != file.relative_path);
                if listed(before.to_index, front[i]) {
                    let k = lemma_listed_at(before.to_index, front[i]);
                    assert(s.to_index[k] == files[i]);
                    lemma_listed(s.to_index, k);
                }
            } else {
                if s.to_index.len() > before.to_index.len() {
                    lemma_listed(s.to_index, s.to_index.len() - 1);
                }
            }
        }
    }
}

/// What taking out the paths that were not found leaves: their hashes go,
/// all else stays.
pub proof fn lemma_drop_files(s: SyncState, paths: Seq<Seq<char>>)
    requires
        s.index.linked(),
    ensures
        ({
            let r = drop_files(s, paths);
            &&& r.index.linked()
            &&& r.to_index == s.to_index
            &&& r.added == s.added
            &&& r.updated == s.updated
            &&& r.unchanged == s.unchanged
            &&& r.removed == s.removed + paths.len()
            &&& forall|p: Seq<char>| #[trigger]
                r.index.hashes.dom().contains(p) <==> s.index.hashes.dom().contains(p)
                    && !paths.contains(p)
            &&& forall|p: Seq<char>| #[trigger]
                r.index.hashes.dom().contains(p) ==> r.index.hashes[p] == s.index.hashes[p]
        }),
    decreases paths.len(),
{
    if paths.len() > 0 {
        let front = paths.drop_last();
        lemma_drop_files(s, front);
        let before = drop_files(s, front);
        let r = drop_file(before, paths.last());
        lemma_without_file(before.index, paths.last());
        assert forall|p: Seq<char>| #[trigger]
            r.index.hashes.dom().contains(p) <==> s.index.hashes.dom().contains(p)
                && !paths.contains(p) by {
            if paths.contains(p) {
                let i = choose|i: int| 0 <= i < paths.len() && paths[i] == p;
                if i < front.len() {
                    assert(front[i] == p);
                }
            }
            if front.contains(p) {
                let i = choose|i: int| 0 <= i < front.len() && front[i] == p;
                assert(paths[i] == p);
            }
            if p == paths.last() {
                assert(paths[paths.len() - 1] == p);
            }
        }
    }
}

/// Files whose hashes are all on record leave an update nothing to do but
/// to count them.
pub proof fn lemma_all_unchanged(s: SyncState, files: Seq<FileView>)
    requires
        in_step(s.index.hashes, files),
    ensures
        sync_files(s, files) == (SyncState { unchanged: s.unchanged + files.len(), ..s }),
    decreases files.len(),
{
    if files.len() > 0 {
        let front = files.drop_last();
        assert(in_step(s.index.hashes, front)) by {
            assert forall|i: int| 0 <= i < front.len() implies s.index.hashes.dom().contains(
                (#[trigger] front[i]).relative_path,
            ) && s.index.hashes[front[i].relative_path] == front[i].hash by {
                assert(front[i] == files[i]);
            }
        }
        lemma_all_unchanged(s, front);
        assert(files[files.len() - 1] == files.last());
    }
}

/// A text that is not empty has a line.
pub proof fn lemma_text_has_line(text: Seq<char>)
    requires
        text.len() > 0,
    ensures
        split_lines(text).len() >= 1,
{
}

/// Each chunk carries the path and the hash of one of the files.
pub open spec fn chunks_from(chunks: Seq<ChunkView>, files: Seq<FileView>) -> bool {
    forall|c: int|
        0 <= c < chunks.len() ==> carried(
            files,
            (#[trigger] chunks[c]).file_path,
            chunks[c].file_hash,
        )
}

/// Each file with text has a chunk.
pub open spec fn chunk_for_each(chunks: Seq<ChunkView>, files: Seq<FileView>) -> bool {
    forall|i: int|
        0 <= i < files.len() && (#[trigger] files[i]).content.len() > 0 ==> has_chunk(
            chunks,
            files[i].relative_path,
        )
}

/// The chunks of a list of files: each carries the path and the hash of one
/// of the files, and each file with text has a chunk.
pub proof fn lemma_chunks_of_files(
    files: Seq<FileView>,
    start_id: int,
    chunk_size: nat,
    overlap: nat,
)
    ensures
        chunks_from(chunks_of_files(files, start_id, chunk_size, overlap), files),
        chunk_for_each(chunks_of_files(files, start_id, chunk_size, overlap), files),
    decreases files.len(),
{
    let all = chunks_of_files(files, start_id, chunk_size, overlap);
    if files.len() > 0 {
        let front = files.drop_last();
        let file = files.last();
        lemma_chunks_of_files(front, start_id, chunk_size, overlap);
        let before = chunks_of_files(front, start_id, chunk_size, overlap);
        let own = chunk_records(
            file.content,
            file.relative_path,
            file.hash,
            start_id + before.len(),
            chunk_size,
            overlap,
        );
        assert(all == before + own);
        assert forall|c: int| 0 <= c < all.len() implies carried(
            files,
            (#[trigger] all[c]).file_path,
            all[c].file_hash,
        ) by {
            if c < before.len() {
                assert(all[c] == before[c]);
                let i = lemma_carried_at(front, before[c].file_path, before[c].file_hash);
                assert(files[i] == front[i]);
                lemma_listed(files, i);
            } else {
                assert(all[c] == own[c - before.len()]);
                lemma_listed(files, files.len() - 1);
            }
        }
        assert forall|i: int|
            0 <= i < files.len() && (#[trigger] files[i]).content.len() > 0 implies has_chunk(
            all,
            files[i].relative_path,
        ) by {
            if i < front.len() {
                assert(front[i] == files[i]);
                let c = lemma_has_chunk_at(before, front[i].relative_path);
                assert(all[c] == before[c]);
                lemma_has_chunk(all, c);
            } else {
                lemma_text_has_line(file.content);
                lemma_spans_first(split_lines(file.content), chunk_size, overlap, 0, 0);
                assert(own.len() >= 1);
                assert(all[before.len() as int] == own[0]);
                assert(own[0].file_path == file.relative_path);
                lemma_has_chunk(all, before.len() as int);
            }
        }
    }
}

/// The paths of a list of files.
pub open spec fn paths_of(files: Seq<FileView>) -> Seq<Seq<char>> {
    Seq::new(files.len(), |i: int| files[i].relative_path)
}

/// The indexed paths that were not found.
proof fn lemma_stale(paths: Seq<Seq<char>>, files: Seq<FileView>, p: Seq<char>)
    ensures
        stale_paths(paths, files).contains(p) <==> paths.contains(p) && !discovered(files, p),
{
    let pred = |p: Seq<char>| !discovered(files, p);
    let stale = paths.filter(pred);
    if stale.contains(p) {
        let k = choose|k: int| 0 <= k < stale.len() && stale[k] == p;
        paths.lemma_filter_pred(pred, k);
        paths.lemma_filter_contains_rev(pred, p);
    }
    if paths.contains(p) && !discovered(files, p) {
        let i = choose|i: int| 0 <= i < paths.len() && paths[i] == p;
        paths.lemma_filter_contains(pred, i);
    }
}

/// An update settles the index, and leaves no hash on record but for files
/// that were found.
pub proof fn lemma_update_settles(index: IndexState, files: Seq<FileView>)
    requires
        index.linked(),
        distinct_paths(files),
    ensures
        settled(synced(index, files).index, synced(index, files).to_index, files),
        forall|p: Seq<char>| #[trigger]
            synced(index, files).index.hashes.dom().contains(p) ==> discovered(files, p),
        synced(index, files).added + synced(index, files).updated + synced(
            index,
            files,
        ).unchanged == files.len(),
        synced(index, files).added >= 0,
        synced(index, files).updated >= 0,
        synced(index, files).unchanged >= 0,
{
    let a = sync_files(sync_start(index), files);
    lemma_sync_files(index, files);
    let stale = stale_paths(index.paths, files);
    lemma_drop_files(a, stale);
    let first = synced(index, files);
    assert forall|i: int| 0 <= i < files.len() implies (first.index.hashes.dom().contains(
        (#[trigger] files[i]).relative_path,
    ) && first.index.hashes[files[i].relative_path] == files[i].hash) || listed(
        first.to_index,
        files[i],
    ) by {
        lemma_stale(index.paths, files, files[i].relative_path);
        lemma_listed(files, i);
    }
    assert forall|p: Seq<char>| #[trigger] first.index.hashes.dom().contains(p) implies discovered(
        files,
        p,
    ) by {
        assert(a.index.hashes.dom().contains(p));
        assert(index.hashes.dom().contains(p));
        lemma_stale(index.paths, files, p);
    }
}

/// Two files of a list without double paths that share a path are one file.
proof fn lemma_same_path(files: Seq<FileView>, i: int, j: int)
    requires
        distinct_paths(files),
        0 <= i < files.len(),
        0 <= j < files.len(),
        files[i].relative_path == files[j].relative_path,
    ensures
        i == j,
{
    if i < j {
        assert(files[i].relative_path != files[j].relative_path);
    } else if j < i {
        assert(files[j].relative_path != files[i].relative_path);
    }
}

/// A path without a chunk keeps the hash that was on record.
pub proof fn lemma_recorded_untouched(
    hashes: Map<Seq<char>, Seq<char>>,
    chunks: Seq<ChunkView>,
    path: Seq<char>,
)
    requires
        hashes.dom().contains(path),
        !has_chunk(chunks, path),
    ensures
        recorded(hashes, chunks).dom().contains(path),
        recorded(hashes, chunks)[path] == hashes[path],
    decreases chunks.len(),
{
    if chunks.len() > 0 {
        let front = chunks.drop_last();
        if has_chunk(front, path) {
            let c = lemma_has_chunk_at(front, path);
            assert(chunks[c] == front[c]);
            lemma_has_chunk(chunks, c);
        }
        lemma_recorded_untouched(hashes, front, path);
        lemma_has_chunk(chunks, chunks.len() - 1);
    }
}

/// The file of a chunk gets the hash of its last chunk.
pub proof fn lemma_recorded_last(hashes: Map<Seq<char>, Seq<char>>, chunks: Seq<ChunkView>, at: int)
    requires
        0 <= at < chunks.len(),
        forall|c: int|
            at < c < chunks.len() ==> (#[trigger] chunks[c]).file_path != chunks[at].file_path,
    ensures
        recorded(hashes, chunks).dom().contains(chunks[at].file_path),
        recorded(hashes, chunks)[chunks[at].file_path] == chunks[at].file_hash,
    decreases chunks.len(),
{
    if at < chunks.len() - 1 {
        let front = chunks.drop_last();
        assert(front[at] == chunks[at]);
        assert forall|c: int| at < c < front.len() implies (#[trigger] front[c]).file_path
            != front[at].file_path by {
            assert(front[c] == chunks[c]);
        }
        lemma_recorded_last(hashes, front, at);
        assert(chunks[chunks.len() - 1].file_path != chunks[at].file_path);
    }
}

/// After the chunks of the files that had to be indexed were added, the hash
/// of file `i` is on record.
proof fn lemma_filled_hash(
    index: IndexState,
    to_index: Seq<FileView>,
    files: Seq<FileView>,
    chunks: Seq<ChunkView>,
    i: int,
)
    requires
        distinct_paths(files),
        all_have_text(files),
        settled(index, to_index, files),
        chunks_from(chunks, to_index),
        chunk_for_each(chunks, to_index),
        0 <= i < files.len(),
    ensures
        recorded(index.hashes, chunks).dom().contains(files[i].relative_path),
        recorded(index.hashes, chunks)[files[i].relative_path] == files[i].hash,
{
    let file = files[i];
    let p = file.relative_path;
    if index.hashes.dom().contains(p) && index.hashes[p] == file.hash {
        if has_chunk(chunks, p) {
            let c = lemma_has_chunk_at(chunks, p);
            let k = lemma_carried_at(to_index, chunks[c].file_path, chunks[c].file_hash);
            assert(!index.hashes.dom().contains(to_index[k].relative_path));
        }
        lemma_recorded_untouched(index.hashes, chunks, p);
    } else {
        let k = lemma_listed_at(to_index, file);
        assert(to_index[k].content.len() > 0);
        assert(has_chunk(chunks, to_index[k].relative_path));
        let c = lemma_has_chunk_at(chunks, p);
        lemma_last_of_file(chunks, p);
        let last = last_of_file(chunks, p);
        if last < c {
            assert(chunks[c].file_path != p);
        }
        let k2 = lemma_carried_at(to_index, chunks[last].file_path, chunks[last].file_hash);
        let j = lemma_listed_at(files, to_index[k2]);
        lemma_same_path(files, i, j);
        lemma_recorded_last(index.hashes, chunks, last);
    }
}

/// After the chunks of the files that had to be indexed were added, the
/// indexed paths are paths of files that were found.
proof fn lemma_filled_path(
    index: IndexState,
    to_index: Seq<FileView>,
    files: Seq<FileView>,
    chunks: Seq<ChunkView>,
    p: Seq<char>,
)
    requires
        settled(index, to_index, files),
        forall|q: Seq<char>| #[trigger] index.hashes.dom().contains(q) ==> discovered(files, q),
        chunks_from(chunks, to_index),
        index.with_chunks(chunks).paths.contains(p),
    ensures
        discovered(files, p),
{
    lemma_with_chunks(index, chunks);
    if !index.paths.contains(p) {
        let c = lemma_has_chunk_at(chunks, p);
        let k = lemma_carried_at(to_index, chunks[c].file_path, chunks[c].file_hash);
        let i = lemma_listed_at(files, to_index[k]);
        lemma_listed(files, i);
    } else {
        assert(index.hashes.dom().contains(p));
    }
}

/// Indexing the files that a settled index asks for puts the hash of every
/// file that was found on record, and nothing else.
pub proof fn lemma_indexing_brings_in_step(
    index: IndexState,
    to_index: Seq<FileView>,
    files: Seq<FileView>,
    chunk_size: nat,
    overlap: nat,
)
    requires
        settled(index, to_index, files),
        forall|q: Seq<char>| #[trigger] index.hashes.dom().contains(q) ==> discovered(files, q),
        distinct_paths(files),
        all_have_text(files),
    ensures
        ({
            let chunks = chunks_of_files(to_index, index.next_id, chunk_size, overlap);
            let filled = index.with_chunks(chunks);
            &&& filled.linked()
            &&& in_step(filled.hashes, files)
            &&& forall|p: Seq<char>| #[trigger] filled.paths.contains(p) ==> discovered(files, p)
        }),
{
    let chunks = chunks_of_files(to_index, index.next_id, chunk_size, overlap);
    let filled = index.with_chunks(chunks);
    lemma_chunks_of_files(to_index, index.next_id, chunk_size, overlap);
    assert(filled.linked()) by {
        lemma_with_chunks(index, chunks);
    }
    assert forall|p: Seq<char>| #[trigger] filled.paths.contains(p) implies discovered(
        files,
        p,
    ) by {
        lemma_filled_path(index, to_index, files, chunks, p);
    }
    assert forall|i: int| 0 <= i < files.len() implies filled.hashes.dom().contains(
        (#[trigger] files[i]).relative_path,
    ) && filled.hashes[files[i].relative_path] == files[i].hash by {
        assert(chunk_for_each(chunks, to_index));
        lemma_filled_hash(index, to_index, files, chunks, i);
    }
}

/// Where only paths that were found are indexed, none is stale.
proof fn lemma_none_stale(paths: Seq<Seq<char>>, files: Seq<FileView>)
    requires
        forall|p: Seq<char>| #[trigger] paths.contains(p) ==> discovered(files, p),
    ensures
        stale_paths(paths, files) == Seq::<Seq<char>>::empty(),
{
    let pred = |p: Seq<char>| !discovered(files, p);
    assert(paths.all(|p: Seq<char>| !pred(p))) by {
        assert forall|i: int| 0 <= i < paths.len() implies discovered(files, #[trigger] paths[i]) by {
            assert(paths.contains(paths[i]));
        }
    }
    paths.lemma_all_neg_filter_empty(pred);
    assert(stale_paths(paths, files) =~= Seq::<Seq<char>>::empty());
}

/// An index whose paths are those of the files, each once, holds as many
/// files as were found.
proof fn lemma_same_count(index: IndexState, files: Seq<FileView>)
    requires
        index.linked(),
        distinct_paths(files),
        in_step(index.hashes, files),
        forall|p: Seq<char>| #[trigger] index.paths.contains(p) ==> discovered(files, p),
    ensures
        index.paths.len() == files.len(),
{
    let found = paths_of(files);
    assert(found.no_duplicates());
    assert(found.to_set() =~= index.paths.to_set()) by {
        assert forall|p: Seq<char>| found.to_set().contains(p) <==> index.paths.to_set().contains(
            p,
        ) by {
            if found.contains(p) {
                let i = choose|i: int| 0 <= i < found.len() && found[i] == p;
                assert(files[i].relative_path == p);
                assert(index.hashes.dom().contains(p));
            }
            if index.paths.contains(p) {
                let i = lemma_discovered_at(files, p);
                assert(found[i] == p);
            }
        }
    }
    found.unique_seq_to_set();
    index.paths.unique_seq_to_set();
}

/// When an index has been updated for a set of
/// files, none of them empty, and the files that the update asked for have
/// been indexed, a second update for the same files finds every file
/// unchanged: it adds, updates and removes nothing, asks for nothing, and
/// leaves the index as it is, with as many files as were found.
pub proof fn lemma_second_update_changes_nothing(
    index: IndexState,
    files: Seq<FileView>,
    chunk_size: nat,
    overlap: nat,
)
    requires
        index.linked(),
        distinct_paths(files),
        all_have_text(files),
    ensures
        ({
            let first = synced(index, files);
            let chunks = chunks_of_files(first.to_index, first.index.next_id, chunk_size, overlap);
            let filled = first.index.with_chunks(chunks);
            let second = synced(filled, files);
            &&& second.added == 0
            &&& second.updated == 0
            &&& second.removed == 0
            &&& second.unchanged == files.len()
            &&& second.index == filled
            &&& second.to_index.len() == 0
            &&& second.removed_ids.len() == 0
            &&& filled.paths.len() == files.len()
        }),
{
    let first = synced(index, files);
    let chunks = chunks_of_files(first.to_index, first.index.next_id, chunk_size, overlap);
    let filled = first.index.with_chunks(chunks);
    lemma_update_settles(index, files);
    lemma_indexing_brings_in_step(first.index, first.to_index, files, chunk_size, overlap);
    lemma_all_unchanged(sync_start(filled), files);
    lemma_none_stale(filled.paths, files);
    lemma_same_count(filled, files);
}

/// A look at each file leaves every chunk with the hash on record for its
/// file.
proof fn lemma_sync_keeps_hashes(s: SyncState, files: Seq<FileView>)
    requires
        hashes_agree(s.index.records, s.index.hashes),
    ensures
        hashes_agree(sync_files(s, files).index.records, sync_files(s, files).index.hashes),
    decreases files.len(),
{
    if files.len() > 0 {
        lemma_sync_keeps_hashes(s, files.drop_last());
        let before = sync_files(s, files.drop_last());
        lemma_remove_keeps_hashes(
            before.index.records,
            before.index.hashes,
            files.last().relative_path,
        );
    }
}

/// Taking files out leaves every chunk with the hash on record for its
/// file.
proof fn lemma_drop_keeps_hashes(s: SyncState, paths: Seq<Seq<char>>)
    requires
        hashes_agree(s.index.records, s.index.hashes),
    ensures
        hashes_agree(drop_files(s, paths).index.records, drop_files(s, paths).index.hashes),
    decreases paths.len(),
{
    if paths.len() > 0 {
        lemma_drop_keeps_hashes(s, paths.drop_last());
        let before = drop_files(s, paths.drop_last());
        lemma_remove_keeps_hashes(before.index.records, before.index.hashes, paths.last());
    }
}

/// The chunks of a settled index and the chunks of the files that it asks
/// for carry one hash per file.
proof fn lemma_one_hash_per_file(
    index: IndexState,
    to_index: Seq<FileView>,
    files: Seq<FileView>,
    chunks: Seq<ChunkView>,
    i: int,
    j: int,
)
    requires
        hashes_agree(index.records, index.hashes),
        settled(index, to_index, files),
        distinct_paths(files),
        chunks_from(chunks, to_index),
        0 <= i < (index.records + chunks).len(),
        0 <= j < (index.records + chunks).len(),
        (index.records + chunks)[i].file_path == (index.records + chunks)[j].file_path,
    ensures
        (index.records + chunks)[i].file_hash == (index.records + chunks)[j].file_hash,
{
    let held = index.records;
    let all = held + chunks;
    let n = held.len() as int;
    if i < n && j < n {
        assert(all[i] == held[i] && all[j] == held[j]);
    } else if i >= n && j >= n {
        let a = chunks[i - n];
        let b = chunks[j - n];
        assert(all[i] == a && all[j] == b);
        let ka = lemma_carried_at(to_index, a.file_path, a.file_hash);
        let kb = lemma_carried_at(to_index, b.file_path, b.file_hash);
        let fa = lemma_listed_at(files, to_index[ka]);
        let fb = lemma_listed_at(files, to_index[kb]);
        lemma_same_path(files, fa, fb);
    } else {
        let (h, c) = if i < n { (i, j) } else { (j, i) };
        assert(all[h] == held[h]);
        assert(all[c] == chunks[c - n]);
        let k = lemma_carried_at(to_index, chunks[c - n].file_path, chunks[c - n].file_hash);
        assert(!index.hashes.dom().contains(to_index[k].relative_path));
        assert(index.hashes.dom().contains(held[h].file_path));
    }
}

/// An update and the indexing that it asks for keep the hashes in line:
/// where every chunk carried the hash on record for its file before, every
/// chunk does afterwards.
pub proof fn lemma_update_keeps_hashes(
    index: IndexState,
    files: Seq<FileView>,
    chunk_size: nat,
    overlap: nat,
)
    requires
        index.linked(),
        hashes_agree(index.records, index.hashes),
        distinct_paths(files),
    ensures
        ({
            let first = synced(index, files);
            let chunks = chunks_of_files(first.to_index, first.index.next_id, chunk_size, overlap);
            let filled = first.index.with_chunks(chunks);
            &&& hashes_agree(first.index.records, first.index.hashes)
            &&& hashes_agree(filled.records, filled.hashes)
        }),
{
    let first = synced(index, files);
    let chunks = chunks_of_files(first.to_index, first.index.next_id, chunk_size, overlap);
    lemma_sync_keeps_hashes(sync_start(index), files);
    lemma_drop_keeps_hashes(
        sync_files(sync_start(index), files),
        stale_paths(index.paths, files),
    );
    lemma_update_settles(index, files);
    lemma_chunks_of_files(first.to_index, first.index.next_id, chunk_size, overlap);
    let all = first.index.records + chunks;
    assert(one_hash_per_file(all)) by {
        assert forall|i: int, j: int|
            0 <= i < all.len() && 0 <= j < all.len() && all[i].file_path
                == all[j].file_path implies all[i].file_hash == all[j].file_hash by {
            lemma_one_hash_per_file(first.index, first.to_index, files, chunks, i, j);
        }
    }
    lemma_add_keeps_hashes(first.index.records, first.index.hashes, chunks);
}

/// A look at two lists of files in a row is a look at the first and then a
/// look at the second.
pub proof fn lemma_sync_concat(s: SyncState, first: Seq<FileView>, second: Seq<FileView>)
    ensures
        sync_files(s, first + second) == sync_files(sync_files(s, first), second),
    decreases second.len(),
{
    if second.len() == 0 {
        assert(first + second =~= first);
    } else {
        lemma_sync_concat(s, first, second.drop_last());
        assert((first + second).drop_last() =~= first + second.drop_last());
        assert((first + second).last() == second.last());
    }
}

/// The files with the file at `at` replaced by one of the same path with
/// another text and hash.
pub open spec fn edited(files: Seq<FileView>, at: int, content: Seq<char>, hash: Seq<char>) -> Seq<
    FileView,
> {
    files.update(at, FileView { relative_path: files[at].relative_path, content, hash })
}

/// When an index is in step with a set of files and one of
/// the files gets another text, and with it another hash, the next update
/// counts one file as updated and all others as unchanged, and adds and
/// removes none. It takes the chunks of that file out of the index, asks for
/// that file alone to be indexed, and leaves the chunks of all other files
/// as they are, ids and order included.
pub proof fn lemma_one_file_changed(
    index: IndexState,
    files: Seq<FileView>,
    at: int,
    content: Seq<char>,
    hash: Seq<char>,
)
    requires
        index.linked(),
        distinct_paths(files),
        in_step(index.hashes, files),
        forall|p: Seq<char>| #[trigger] index.paths.contains(p) ==> discovered(files, p),
        0 <= at < files.len(),
        hash != files[at].hash,
    ensures
        ({
            let after = synced(index, edited(files, at, content, hash));
            let path = files[at].relative_path;
            &&& after.added == 0
            &&& after.updated == 1
            &&& after.removed == 0
            &&& after.unchanged == files.len() - 1
            &&& after.to_index == seq![edited(files, at, content, hash)[at]]
            &&& after.index == index.without_file(path)
            &&& after.index.records == of_others(index.records, path)
            &&& after.removed_ids == crate::index::ids_of(of_file(index.records, path))
        }),
{
    let now = edited(files, at, content, hash);
    let path = files[at].relative_path;
    let head = now.subrange(0, at);
    let tail = now.subrange(at + 1, now.len() as int);
    let start = sync_start(index);
    assert(now =~= (head + seq![now[at]]) + tail);
    assert(in_step(index.hashes, head)) by {
        assert forall|i: int| 0 <= i < head.len() implies index.hashes.dom().contains(
            (#[trigger] head[i]).relative_path,
        ) && index.hashes[head[i].relative_path] == head[i].hash by {
            assert(head[i] == files[i]);
        }
    }
    lemma_all_unchanged(start, head);
    let s1 = sync_files(start, head);
    lemma_sync_concat(start, head, seq![now[at]]);
    let one = seq![now[at]];
    assert(one.drop_last() =~= Seq::<FileView>::empty());
    assert(sync_files(s1, one.drop_last()) == s1);
    assert(one.last() == now[at]);
    assert(sync_files(s1, one) == sync_file(s1, now[at]));
    let s2 = sync_file(s1, now[at]);
    assert(index.hashes.dom().contains(files[at].relative_path));
    assert(s2.index == index.without_file(path));
    assert(s2.to_index =~= seq![now[at]]);
    assert(s2.removed_ids =~= crate::index::ids_of(of_file(index.records, path)));
    assert(in_step(s2.index.hashes, tail)) by {
        assert forall|i: int| 0 <= i < tail.len() implies s2.index.hashes.dom().contains(
            (#[trigger] tail[i]).relative_path,
        ) && s2.index.hashes[tail[i].relative_path] == tail[i].hash by {
            assert(tail[i] == files[at + 1 + i]);
            lemma_same_path_differs(files, at, at + 1 + i);
        }
    }
    lemma_all_unchanged(s2, tail);
    lemma_sync_concat(start, head + one, tail);
    let s3 = sync_files(start, now);
    assert(s3 == sync_files(s2, tail));
    assert forall|p: Seq<char>| #[trigger] index.paths.contains(p) implies discovered(now, p) by {
        let i = lemma_discovered_at(files, p);
        assert(now[i].relative_path == p);
        lemma_listed(now, i);
    }
    lemma_none_stale(index.paths, now);
}

/// Two files at different places of a list without double paths have
/// different paths.
proof fn lemma_same_path_differs(files: Seq<FileView>, i: int, j: int)
    requires
        distinct_paths(files),
        0 <= i < files.len(),
        0 <= j < files.len(),
        i != j,
    ensures
        files[i].relative_path != files[j].relative_path,
{
    if files[i].relative_path == files[j].relative_path {
        lemma_same_path(files, i, j);
    }
}

} // verus!
