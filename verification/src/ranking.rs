//! Search results and their order: best score first, and among equal scores
//! the one that came in first.
use crate::chunker::{Chunk, ChunkView};
use vstd::prelude::*;
use vstd::seq_lib::to_multiset_build;

verus! {

/// A chunk that a search found, with its score in millionths: 1000000 for
/// the best match there can be, less for what is farther away.
#[derive(Debug)]
pub struct SearchResult {
    /// The chunk.
    pub chunk: Chunk,
    /// How well the chunk matches, in millionths.
    pub score: i64,
}

/// What a search result holds, as mathematical values.
pub struct ResultView {
    pub chunk: ChunkView,
    pub score: int,
}

impl View for SearchResult {
    type V = ResultView;

    open spec fn view(&self) -> ResultView {
        ResultView { chunk: self.chunk@, score: self.score as int }
    }
}

impl Clone for SearchResult {
    fn clone(&self) -> (r: SearchResult)
        ensures
            r@ == self@,
    {
        SearchResult { chunk: self.chunk.clone(), score: self.score }
    }
}

/// The views of a list of results.
pub open spec fn result_views(results: Seq<SearchResult>) -> Seq<ResultView> {
    Seq::new(results.len(), |i: int| results[i]@)
}

/// A list in which the scores never rise.
pub open spec fn falling(list: Seq<ResultView>) -> bool {
    forall|i: int, j: int| 0 <= i < j < list.len() ==> list[i].score >= list[j].score
}

/// A list with falling scores after `item` has entered it: behind every
/// result that scores as high or higher, before all others.
pub open spec fn insert_ranked(sorted: Seq<ResultView>, item: ResultView) -> Seq<ResultView>
    decreases sorted.len(),
{
    if sorted.len() == 0 || sorted.last().score >= item.score {
        sorted.push(item)
    } else {
        insert_ranked(sorted.drop_last(), item).push(sorted.last())
    }
}

/// The results by falling score; results with the same score keep their
/// order.
pub open spec fn ranked(list: Seq<ResultView>) -> Seq<ResultView>
    decreases list.len(),
{
    if list.len() == 0 {
        list
    } else {
        insert_ranked(ranked(list.drop_last()), list.last())
    }
}

/// Where `insert_ranked` puts an item.
pub proof fn lemma_insert_ranked_at(sorted: Seq<ResultView>, item: ResultView, pos: int)
    requires
        0 <= pos <= sorted.len(),
        forall|j: int| pos <= j < sorted.len() ==> sorted[j].score < item.score,
        pos > 0 ==> sorted[pos - 1].score >= item.score,
    ensures
        insert_ranked(sorted, item) == sorted.insert(pos, item),
    decreases sorted.len(),
{
    if pos == sorted.len() {
        assert(sorted.push(item) =~= sorted.insert(pos, item));
    } else {
        let front = sorted.drop_last();
        lemma_insert_ranked_at(front, item, pos);
        assert(front.insert(pos, item).push(sorted.last()) =~= sorted.insert(pos, item));
    }
}

/// An item that enters a list with falling scores leaves the scores falling,
/// and the list holds what it held and the item.
pub proof fn lemma_insert_ranked(sorted: Seq<ResultView>, item: ResultView)
    requires
        falling(sorted),
    ensures
        falling(insert_ranked(sorted, item)),
        insert_ranked(sorted, item).len() == sorted.len() + 1,
        insert_ranked(sorted, item).to_multiset() == sorted.to_multiset().insert(item),
    decreases sorted.len(),
{
    if sorted.len() == 0 || sorted.last().score >= item.score {
        let out = sorted.push(item);
        assert forall|i: int, j: int| 0 <= i < j < out.len() implies out[i].score
            >= out[j].score by {
            if j == sorted.len() && i < sorted.len() - 1 {
                assert(sorted[i].score >= sorted[sorted.len() - 1].score);
            }
        }
        to_multiset_build(sorted, item);
    } else {
        let front = sorted.drop_last();
        assert(falling(front)) by {
            assert forall|i: int, j: int| 0 <= i < j < front.len() implies front[i].score
                >= front[j].score by {
                assert(sorted[i].score >= sorted[j].score);
            }
        }
        lemma_insert_ranked(front, item);
        let mid = insert_ranked(front, item);
        let out = mid.push(sorted.last());
        assert forall|i: int, j: int| 0 <= i < j < out.len() implies out[i].score
            >= out[j].score by {
            if j == mid.len() {
                let x = mid[i];
                assert(mid.to_multiset().count(x) > 0) by {
                    vstd::seq_lib::to_multiset_contains(mid, x);
                    assert(mid.contains(x));
                }
                if x != item {
                    assert(front.to_multiset().count(x) > 0);
                    vstd::seq_lib::to_multiset_contains(front, x);
                    let k = choose|k: int| 0 <= k < front.len() && front[k] == x;
                    assert(sorted[k].score >= sorted[sorted.len() - 1].score);
                }
            }
        }
        to_multiset_build(mid, sorted.last());
        to_multiset_build(front, sorted.last());
        assert(front.push(sorted.last()) =~= sorted);
        assert(out.to_multiset() =~= sorted.to_multiset().insert(item));
    }
}

/// The ranked results are the given results, put in the order of falling
/// scores.
pub proof fn lemma_ranked(list: Seq<ResultView>)
    ensures
        falling(ranked(list)),
        ranked(list).len() == list.len(),
        ranked(list).to_multiset() == list.to_multiset(),
    decreases list.len(),
{
    if list.len() > 0 {
        let front = list.drop_last();
        lemma_ranked(front);
        lemma_insert_ranked(ranked(front), list.last());
        to_multiset_build(front, list.last());
        assert(front.push(list.last()) =~= list);
    }
}

/// Lets a result enter a list with falling scores.
pub fn rank_in(results: &mut Vec<SearchResult>, item: SearchResult)
    ensures
        result_views(final(results)@) == insert_ranked(result_views(old(results)@), item@),
{
    let ghost before = result_views(results@);
    let mut pos: usize = results.len();
    while pos > 0 && results[pos - 1].score < item.score
        invariant
            pos <= results@.len(),
            before == result_views(results@),
            forall|j: int| pos <= j < results@.len() ==> before[j].score < item@.score,
        decreases pos,
    {
        pos -= 1;
    }
    proof {
        lemma_insert_ranked_at(before, item@, pos as int);
    }
    results.insert(pos, item);
    assert(result_views(results@) =~= before.insert(pos as int, item@));
}

/// The first `count` results of a list.
pub fn truncate_results(results: &mut Vec<SearchResult>, count: usize)
    ensures
        result_views(final(results)@) == if count < old(results)@.len() {
            result_views(old(results)@).subrange(0, count as int)
        } else {
            result_views(old(results)@)
        },
{
    let ghost before = result_views(results@);
    if count < results.len() {
        results.truncate(count);
        assert(result_views(results@) =~= before.subrange(0, count as int));
    }
}

} // verus!
