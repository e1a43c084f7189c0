//! What holds of the chunks of every text: they cover its lines, and each
//! chunk opens with the last lines of the one before.
use crate::chunker::{chunk_records, chunk_spans, line_cost, lines_cost, retained, spans_from, tail_fit};
use crate::text::{
    join_lines, lemma_ascii_scalar, lemma_line_count, lemma_utf8_concat, lemma_utf8_len_bound,
    line_feed, split_lines, utf8_len,
};
use vstd::prelude::*;
use vstd::utf8::encode_utf8;

verus! {

/// How far chunk `k` of a tail of the chunks reports its lines above their
/// place in the file: the first chunk of a text by 0, all others by 1.
pub open spec fn shift(first: bool, k: int) -> int {
    if first && k == 0 {
        0
    } else {
        1
    }
}

/// The lines carried over never outnumber the lines of the closed chunk, and
/// are at least one.
pub proof fn lemma_retained_bounds(buffer: Seq<Seq<char>>, overlap: nat)
    requires
        buffer.len() > 0,
    ensures
        1 <= retained(buffer, overlap) <= buffer.len(),
{
}

/// The pending lines and the lines to come give at least one chunk, and the
/// first of them starts where the pending lines start.
pub proof fn lemma_spans_first(
    lines: Seq<Seq<char>>,
    chunk_size: nat,
    overlap: nat,
    lo: int,
    i: int,
)
    requires
        0 <= lo <= i <= lines.len(),
        lo < lines.len(),
    ensures
        spans_from(lines, chunk_size, overlap, lo, i).len() >= 1,
        spans_from(lines, chunk_size, overlap, lo, i)[0].0 == lo,
    decreases lines.len() - i,
{
    if i >= lines.len() {
    } else if lo < i && lines_cost(lines.subrange(lo, i)) + line_cost(lines[i]) > chunk_size {
    } else {
        lemma_spans_first(lines, chunk_size, overlap, lo, i + 1);
    }
}

/// There are no more chunks to come than lines, counting the pending lines
/// as one.
pub proof fn lemma_spans_count(
    lines: Seq<Seq<char>>,
    chunk_size: nat,
    overlap: nat,
    lo: int,
    i: int,
)
    requires
        0 <= lo <= i <= lines.len(),
    ensures
        spans_from(lines, chunk_size, overlap, lo, i).len() <= lines.len() - i + if lo < i {
            1int
        } else {
            0int
        },
    decreases lines.len() - i,
{
    if i >= lines.len() {
    } else if lo < i && lines_cost(lines.subrange(lo, i)) + line_cost(lines[i]) > chunk_size {
        let buffer = lines.subrange(lo, i);
        lemma_retained_bounds(buffer, overlap);
        lemma_spans_count(lines, chunk_size, overlap, i - retained(buffer, overlap), i + 1);
    } else {
        lemma_spans_count(lines, chunk_size, overlap, lo, i + 1);
    }
}

/// A text has no more chunks than lines, and no more lines than bytes.
pub proof fn lemma_chunk_count(text: Seq<char>, chunk_size: nat, overlap: nat)
    ensures
        chunk_spans(split_lines(text), chunk_size, overlap).len() <= split_lines(text).len(),
        split_lines(text).len() <= utf8_len(text),
{
    lemma_spans_count(split_lines(text), chunk_size, overlap, 0, 0);
    lemma_line_count(text);
    lemma_utf8_len_bound(text);
}

/// Every chunk holds at least one line, all of them lines of the text, and
/// the last chunk ends with the last line.
pub proof fn lemma_spans_bounds(
    lines: Seq<Seq<char>>,
    chunk_size: nat,
    overlap: nat,
    lo: int,
    i: int,
    k: int,
)
    requires
        0 <= lo <= i <= lines.len(),
        0 <= k < spans_from(lines, chunk_size, overlap, lo, i).len(),
    ensures
        lo <= spans_from(lines, chunk_size, overlap, lo, i)[k].0,
        spans_from(lines, chunk_size, overlap, lo, i)[k].0 < spans_from(
            lines,
            chunk_size,
            overlap,
            lo,
            i,
        )[k].1,
        i <= spans_from(lines, chunk_size, overlap, lo, i)[k].1 <= lines.len(),
        k == spans_from(lines, chunk_size, overlap, lo, i).len() - 1 ==> spans_from(
            lines,
            chunk_size,
            overlap,
            lo,
            i,
        )[k].1 == lines.len(),
    decreases lines.len() - i,
{
    if i >= lines.len() {
    } else if lo < i && lines_cost(lines.subrange(lo, i)) + line_cost(lines[i]) > chunk_size {
        let buffer = lines.subrange(lo, i);
        lemma_retained_bounds(buffer, overlap);
        let next = i - retained(buffer, overlap);
        if k > 0 {
            lemma_spans_bounds(lines, chunk_size, overlap, next, i + 1, k - 1);
        } else {
            lemma_spans_first(lines, chunk_size, overlap, next, i + 1);
        }
    } else {
        lemma_spans_bounds(lines, chunk_size, overlap, lo, i + 1, k);
    }
}

/// Chunk `k + 1` starts with the last lines of chunk `k`, as many as
/// `retained` tells, and ends after it.
pub proof fn lemma_spans_step(
    lines: Seq<Seq<char>>,
    chunk_size: nat,
    overlap: nat,
    lo: int,
    i: int,
    k: int,
)
    requires
        0 <= lo <= i <= lines.len(),
        0 <= k,
        k + 1 < spans_from(lines, chunk_size, overlap, lo, i).len(),
    ensures
        ({
            let spans = spans_from(lines, chunk_size, overlap, lo, i);
            let buffer = lines.subrange(spans[k].0, spans[k].1);
            &&& spans[k + 1].0 == spans[k].1 - retained(buffer, overlap)
            &&& spans[k].0 <= spans[k + 1].0 < spans[k].1
            &&& spans[k].1 < spans[k + 1].1
        }),
    decreases lines.len() - i,
{
    if i >= lines.len() {
    } else if lo < i && lines_cost(lines.subrange(lo, i)) + line_cost(lines[i]) > chunk_size {
        let buffer = lines.subrange(lo, i);
        lemma_retained_bounds(buffer, overlap);
        let next = i - retained(buffer, overlap);
        if k > 0 {
            lemma_spans_step(lines, chunk_size, overlap, next, i + 1, k - 1);
        } else {
            lemma_spans_first(lines, chunk_size, overlap, next, i + 1);
            lemma_spans_bounds(lines, chunk_size, overlap, next, i + 1, 0);
        }
    } else {
        lemma_spans_step(lines, chunk_size, overlap, lo, i + 1, k);
    }
}

/// Every line from the pending ones on is held by a chunk.
pub proof fn lemma_spans_cover(
    lines: Seq<Seq<char>>,
    chunk_size: nat,
    overlap: nat,
    lo: int,
    i: int,
    line: int,
)
    requires
        0 <= lo <= i <= lines.len(),
        lo <= line < lines.len(),
    ensures
        exists|k: int|
            0 <= k < spans_from(lines, chunk_size, overlap, lo, i).len() && (#[trigger] spans_from(
                lines,
                chunk_size,
                overlap,
                lo,
                i,
            )[k]).0 <= line < spans_from(lines, chunk_size, overlap, lo, i)[k].1,
    decreases lines.len() - i,
{
    let spans = spans_from(lines, chunk_size, overlap, lo, i);
    if i >= lines.len() {
        assert(spans[0].0 <= line < spans[0].1);
    } else if lo < i && lines_cost(lines.subrange(lo, i)) + line_cost(lines[i]) > chunk_size {
        if line < i {
            assert(spans[0].0 <= line < spans[0].1);
        } else {
            let buffer = lines.subrange(lo, i);
            lemma_retained_bounds(buffer, overlap);
            let next = i - retained(buffer, overlap);
            lemma_spans_cover(lines, chunk_size, overlap, next, i + 1, line);
            let rest = spans_from(lines, chunk_size, overlap, next, i + 1);
            let k = choose|k: int| 0 <= k < rest.len() && (#[trigger] rest[k]).0 <= line < rest[k].1;
            assert(spans[k + 1] == rest[k]);
        }
    } else {
        lemma_spans_cover(lines, chunk_size, overlap, lo, i + 1, line);
    }
}

/// Every line number from the pending lines on lies between the first and
/// the last line number that some chunk reports.
pub proof fn lemma_spans_cover_reported(
    lines: Seq<Seq<char>>,
    chunk_size: nat,
    overlap: nat,
    lo: int,
    i: int,
    first: bool,
    line: int,
)
    requires
        0 <= lo <= i <= lines.len(),
        lo + shift(first, 0) <= line < lines.len(),
    ensures
        exists|k: int|
            0 <= k < spans_from(lines, chunk_size, overlap, lo, i).len() && (#[trigger] spans_from(
                lines,
                chunk_size,
                overlap,
                lo,
                i,
            )[k]).0 + shift(first, k) <= line < spans_from(lines, chunk_size, overlap, lo, i)[k].1
                + shift(first, k),
    decreases lines.len() - i,
{
    let spans = spans_from(lines, chunk_size, overlap, lo, i);
    if i >= lines.len() {
        assert(spans[0].0 + shift(first, 0) <= line < spans[0].1 + shift(first, 0));
    } else if lo < i && lines_cost(lines.subrange(lo, i)) + line_cost(lines[i]) > chunk_size {
        if line < i + shift(first, 0) {
            assert(spans[0].0 + shift(first, 0) <= line < spans[0].1 + shift(first, 0));
        } else {
            let buffer = lines.subrange(lo, i);
            lemma_retained_bounds(buffer, overlap);
            let next = i - retained(buffer, overlap);
            lemma_spans_cover_reported(lines, chunk_size, overlap, next, i + 1, false, line);
            let rest = spans_from(lines, chunk_size, overlap, next, i + 1);
            let k = choose|k: int|
                0 <= k < rest.len() && (#[trigger] rest[k]).0 + shift(false, k) <= line < rest[k].1
                    + shift(false, k);
            assert(spans[k + 1] == rest[k]);
        }
    } else {
        lemma_spans_cover_reported(lines, chunk_size, overlap, lo, i + 1, first, line);
    }
}

/// Every line of a text stands in one of its chunks, and its
/// number lies between the first and the last line number that one of the
/// chunks reports.
pub proof fn lemma_chunks_cover_lines(
    text: Seq<char>,
    file_path: Seq<char>,
    file_hash: Seq<char>,
    start_id: int,
    chunk_size: nat,
    overlap: nat,
    line: int,
)
    requires
        1 <= line <= split_lines(text).len(),
    ensures
        exists|k: int|
            0 <= k < chunk_spans(split_lines(text), chunk_size, overlap).len() && (
            #[trigger] chunk_spans(split_lines(text), chunk_size, overlap)[k]).0 < line
                <= chunk_spans(split_lines(text), chunk_size, overlap)[k].1,
        exists|k: int|
            0 <= k < chunk_records(text, file_path, file_hash, start_id, chunk_size, overlap).len()
                && (#[trigger] chunk_records(
                text,
                file_path,
                file_hash,
                start_id,
                chunk_size,
                overlap,
            )[k]).start_line <= line <= chunk_records(
                text,
                file_path,
                file_hash,
                start_id,
                chunk_size,
                overlap,
            )[k].end_line,
{
    let lines = split_lines(text);
    let spans = chunk_spans(lines, chunk_size, overlap);
    let records = chunk_records(text, file_path, file_hash, start_id, chunk_size, overlap);
    lemma_spans_cover(lines, chunk_size, overlap, 0, 0, line - 1);
    let held = choose|k: int| 0 <= k < spans.len() && (#[trigger] spans[k]).0 <= line - 1 < spans[k].1;
    assert(spans[held].0 < line <= spans[held].1);
    lemma_spans_cover_reported(lines, chunk_size, overlap, 0, 0, true, line - 1);
    let k = choose|k: int|
        0 <= k < spans.len() && (#[trigger] spans[k]).0 + shift(true, k) <= line - 1 < spans[k].1
            + shift(true, k);
    assert(records[k].start_line <= line <= records[k].end_line);
}

/// Every chunk reports as many lines as its text joins, at least one, with
/// line numbers from 1 up to one above the number of lines of the text; a
/// text with lines has a chunk.
pub proof fn lemma_chunk_lines(
    text: Seq<char>,
    file_path: Seq<char>,
    file_hash: Seq<char>,
    start_id: int,
    chunk_size: nat,
    overlap: nat,
    k: int,
)
    requires
        0 <= k < chunk_records(text, file_path, file_hash, start_id, chunk_size, overlap).len(),
    ensures
        ({
            let lines = split_lines(text);
            let spans = chunk_spans(lines, chunk_size, overlap);
            let record = chunk_records(text, file_path, file_hash, start_id, chunk_size, overlap)[k];
            &&& 0 <= spans[k].0 < spans[k].1 <= lines.len()
            &&& record.text == join_lines(lines.subrange(spans[k].0, spans[k].1))
            &&& record.end_line - record.start_line + 1 == spans[k].1 - spans[k].0
            &&& 1 <= record.start_line <= record.end_line <= lines.len() + 1
            &&& k == 0 ==> record.start_line == 1 && record.end_line <= lines.len()
            &&& record.id == start_id + k
        }),
{
    let lines = split_lines(text);
    lemma_spans_bounds(lines, chunk_size, overlap, 0, 0, k);
    lemma_spans_first(lines, chunk_size, overlap, 0, 0);
}

/// The lines that fit into a budget are lines of the run, and their size is
/// within the budget.
pub proof fn lemma_tail_fit_cost(lines: Seq<Seq<char>>, budget: nat)
    ensures
        tail_fit(lines, budget) <= lines.len(),
        lines_cost(lines.subrange(lines.len() - tail_fit(lines, budget), lines.len() as int))
            <= budget,
    decreases lines.len(),
{
    let n = lines.len() as int;
    if lines.len() == 0 || line_cost(lines.last()) > budget {
        assert(lines.subrange(n, n) =~= Seq::<Seq<char>>::empty());
    } else {
        let front = lines.drop_last();
        let left = (budget - line_cost(lines.last())) as nat;
        lemma_tail_fit_cost(front, left);
        let t = tail_fit(lines, budget) as int;
        let tail = lines.subrange(n - t, n);
        assert(tail.drop_last() =~= front.subrange(front.len() - (t - 1), front.len() as int));
        assert(tail.last() == lines.last());
    }
}

/// A run of lines, joined, takes one byte less than its size.
pub proof fn lemma_join_cost(lines: Seq<Seq<char>>)
    requires
        lines.len() >= 1,
    ensures
        utf8_len(join_lines(lines)) + 1 == lines_cost(lines),
    decreases lines.len(),
{
    if lines.len() == 1 {
        assert(lines.drop_last() =~= Seq::<Seq<char>>::empty());
        assert(lines_cost(lines.drop_last()) == 0);
    } else {
        let front = lines.drop_last();
        lemma_join_cost(front);
        let feed = seq![line_feed()];
        lemma_utf8_concat(join_lines(front) + feed, lines.last());
        lemma_utf8_concat(join_lines(front), feed);
        lemma_ascii_scalar(10);
        assert(line_feed() == 10u8 as char);
        assert(feed.drop_first() =~= Seq::<char>::empty());
        assert(encode_utf8(feed.drop_first()) =~= Seq::<u8>::empty());
        assert(encode_utf8(feed) =~= seq![10u8]);
    }
}

/// Each chunk after the first opens with the last lines of the
/// chunk before it: at least one line, as many as `retained` tells, and
/// joined no more bytes than the overlap and the longest line of the text
/// together. The line numbers that the two chunks report meet or overlap;
/// they overlap by a line or more from the second pair of chunks on, and for
/// the first pair where two lines or more are carried over.
pub proof fn lemma_chunks_overlap(
    text: Seq<char>,
    file_path: Seq<char>,
    file_hash: Seq<char>,
    start_id: int,
    chunk_size: nat,
    overlap: nat,
    longest: nat,
    k: int,
)
    requires
        0 <= k,
        k + 1 < chunk_spans(split_lines(text), chunk_size, overlap).len(),
        forall|j: int|
            0 <= j < split_lines(text).len() ==> utf8_len(#[trigger] split_lines(text)[j])
                <= longest,
    ensures
        ({
            let lines = split_lines(text);
            let spans = chunk_spans(lines, chunk_size, overlap);
            let records = chunk_records(text, file_path, file_hash, start_id, chunk_size, overlap);
            let shared = lines.subrange(spans[k + 1].0, spans[k].1);
            &&& 0 <= spans[k].0 <= spans[k + 1].0 < spans[k].1 < spans[k + 1].1 <= lines.len()
            &&& shared.len() == retained(lines.subrange(spans[k].0, spans[k].1), overlap)
            &&& shared.len() >= 1
            &&& utf8_len(join_lines(shared)) <= overlap + longest
            &&& records[k].end_line - records[k + 1].start_line + 1 == if k == 0 {
                shared.len() - 1
            } else {
                shared.len() as int
            }
            &&& records[k + 1].start_line <= records[k].end_line + 1
            &&& (k >= 1 || shared.len() >= 2) ==> records[k + 1].start_line <= records[k].end_line
        }),
{
    let lines = split_lines(text);
    let spans = chunk_spans(lines, chunk_size, overlap);
    lemma_spans_step(lines, chunk_size, overlap, 0, 0, k);
    lemma_spans_bounds(lines, chunk_size, overlap, 0, 0, k);
    lemma_spans_bounds(lines, chunk_size, overlap, 0, 0, k + 1);
    let buffer = lines.subrange(spans[k].0, spans[k].1);
    let n = buffer.len() as int;
    let shared = lines.subrange(spans[k + 1].0, spans[k].1);
    lemma_retained_bounds(buffer, overlap);
    let r = retained(buffer, overlap) as int;
    assert(shared =~= buffer.subrange(n - r, n));
    lemma_join_cost(shared);
    lemma_tail_fit_cost(buffer, overlap);
    if tail_fit(buffer, overlap) == 0 {
        assert(shared =~= seq![buffer.last()]);
        assert(join_lines(shared) == buffer.last());
        assert(buffer.last() == lines[spans[k].1 - 1]);
    }
}

} // verus!
