//! The queries that were asked of an index, for looking back and for
//! suggestions.
use crate::filter::string_views;
use crate::text::{has_substring, lowercase_of, opt_view, str_contains, str_eq, to_lowercase};
use vstd::prelude::*;

verus! {

/// How many queries a history keeps.
pub const MAX_HISTORY_SIZE: usize = 100;

/// One query that was asked.
#[derive(Debug)]
pub struct QueryEntry {
    /// The words of the query.
    pub query: String,
    /// When it was asked, in seconds since 1970.
    pub timestamp: u64,
    /// How many results it had.
    pub result_count: usize,
    /// The filters that it was asked with, in words.
    pub filters: Option<String>,
}

/// What an entry holds, as mathematical values.
pub struct EntryView {
    pub query: Seq<char>,
    pub timestamp: u64,
    pub result_count: usize,
    pub filters: Option<Seq<char>>,
}

impl View for QueryEntry {
    type V = EntryView;

    open spec fn view(&self) -> EntryView {
        EntryView {
            query: self.query@,
            timestamp: self.timestamp,
            result_count: self.result_count,
            filters: opt_view(self.filters),
        }
    }
}

/// The views of a list of entries.
pub open spec fn entry_views(entries: Seq<QueryEntry>) -> Seq<EntryView> {
    Seq::new(entries.len(), |i: int| entries[i]@)
}

/// The last `MAX_HISTORY_SIZE` entries of a list.
pub open spec fn newest(entries: Seq<EntryView>) -> Seq<EntryView> {
    if entries.len() > MAX_HISTORY_SIZE {
        entries.subrange(entries.len() - MAX_HISTORY_SIZE, entries.len() as int)
    } else {
        entries
    }
}

/// Whether a query is the one that was asked last.
pub open spec fn repeats(entries: Seq<EntryView>, query: Seq<char>) -> bool {
    entries.len() > 0 && entries.last().query == query
}

/// The first `count` entries from the newest backwards, or all if there are
/// fewer.
pub open spec fn latest(entries: Seq<EntryView>, count: int) -> Seq<EntryView> {
    Seq::new(
        if count < entries.len() {
            count as nat
        } else {
            entries.len()
        },
        |i: int| entries[entries.len() - 1 - i],
    )
}

/// The queries among the newest `upto` entries that hold `needle` in lower
/// case, from the newest backwards.
pub open spec fn candidates(entries: Seq<EntryView>, needle: Seq<char>, upto: int) -> Seq<Seq<char>>
    decreases upto,
{
    if upto <= 0 {
        Seq::empty()
    } else {
        let before = candidates(entries, needle, upto - 1);
        let query = entries[entries.len() - upto].query;
        if has_substring(lowercase_of(query), needle) {
            before.push(query)
        } else {
            before
        }
    }
}

/// A list without the entries that repeat the entry before them.
pub open spec fn deduped(list: Seq<Seq<char>>) -> Seq<Seq<char>>
    decreases list.len(),
{
    if list.len() == 0 {
        list
    } else {
        let before = deduped(list.drop_last());
        if before.len() > 0 && before.last() == list.last() {
            before
        } else {
            before.push(list.last())
        }
    }
}

/// The first `limit` entries of a list.
pub open spec fn first_of<T>(list: Seq<T>, limit: int) -> Seq<T> {
    if 0 <= limit < list.len() {
        list.subrange(0, limit)
    } else {
        list
    }
}

/// The suggestions for a partial query: the queries that hold it, without
/// regard to case, from the newest backwards, each run of equal queries
/// once, and no more than `limit`.
pub open spec fn suggestions(entries: Seq<EntryView>, partial: Seq<char>, limit: int) -> Seq<Seq<char>> {
    first_of(deduped(candidates(entries, lowercase_of(partial), entries.len() as int)), limit)
}

/// A query and how often it was asked.
pub struct Tally {
    pub query: Seq<char>,
    pub count: int,
}

/// Where a query stands in a list of tallies, -1 where it does not.
pub open spec fn tally_index(tallies: Seq<Tally>, query: Seq<char>) -> int
    decreases tallies.len(),
{
    if tallies.len() == 0 {
        -1
    } else if tallies[0].query == query {
        0
    } else {
        let rest = tally_index(tallies.drop_first(), query);
        if rest < 0 {
            -1
        } else {
            rest + 1
        }
    }
}

/// The tallies after `query` was asked once more.
pub open spec fn counted(tallies: Seq<Tally>, query: Seq<char>) -> Seq<Tally> {
    let at = tally_index(tallies, query);
    if at >= 0 {
        tallies.update(at, Tally { query, count: tallies[at].count + 1 })
    } else {
        tallies.push(Tally { query, count: 1 })
    }
}

/// How often each query of the first `upto` entries was asked, in the order
/// in which the queries were first asked.
pub open spec fn tallies(entries: Seq<EntryView>, upto: int) -> Seq<Tally>
    decreases upto,
{
    if upto <= 0 {
        Seq::empty()
    } else {
        counted(tallies(entries, upto - 1), entries[upto - 1].query)
    }
}

/// A list with falling counts after `item` has entered it: behind every
/// tally that counts as high or higher, before all others.
pub open spec fn insert_by_count(sorted: Seq<Tally>, item: Tally) -> Seq<Tally>
    decreases sorted.len(),
{
    if sorted.len() == 0 || sorted.last().count >= item.count {
        sorted.push(item)
    } else {
        insert_by_count(sorted.drop_last(), item).push(sorted.last())
    }
}

/// The tallies by falling count; tallies with the same count keep their
/// order.
pub open spec fn by_count(list: Seq<Tally>) -> Seq<Tally>
    decreases list.len(),
{
    if list.len() == 0 {
        list
    } else {
        insert_by_count(by_count(list.drop_last()), list.last())
    }
}

/// The queries that were asked most often, the most frequent first and no
/// more than `limit`. Queries that were asked equally often stand in the
/// order in which they were first asked.
pub open spec fn top(entries: Seq<EntryView>, limit: int) -> Seq<Tally> {
    first_of(by_count(tallies(entries, entries.len() as int)), limit)
}

/// The views of a list of counts.
pub open spec fn tally_views(list: Seq<(String, usize)>) -> Seq<Tally> {
    Seq::new(list.len(), |i: int| Tally { query: list[i].0@, count: list[i].1 as int })
}

/// `tally_index` gives the first place of a query.
proof fn lemma_tally_index(list: Seq<Tally>, query: Seq<char>, upto: int)
    requires
        0 <= upto <= list.len(),
        forall|j: int| 0 <= j < upto ==> (#[trigger] list[j]).query != query,
        upto < list.len() ==> list[upto].query == query,
    ensures
        tally_index(list, query) == if upto < list.len() {
            upto
        } else {
            -1
        },
    decreases list.len(),
{
    if list.len() > 0 && upto > 0 {
        let rest = list.drop_first();
        assert forall|j: int| 0 <= j < upto - 1 implies (#[trigger] rest[j]).query != query by {
            assert(rest[j] == list[j + 1]);
        }
        lemma_tally_index(rest, query, upto - 1);
    }
}

/// Where `insert_by_count` puts an item.
proof fn lemma_insert_by_count_at(sorted: Seq<Tally>, item: Tally, pos: int)
    requires
        0 <= pos <= sorted.len(),
        forall|j: int| pos <= j < sorted.len() ==> sorted[j].count < item.count,
        pos > 0 ==> sorted[pos - 1].count >= item.count,
    ensures
        insert_by_count(sorted, item) == sorted.insert(pos, item),
    decreases sorted.len(),
{
    if pos == sorted.len() {
        assert(sorted.push(item) =~= sorted.insert(pos, item));
    } else {
        let front = sorted.drop_last();
        lemma_insert_by_count_at(front, item, pos);
        assert(front.insert(pos, item).push(sorted.last()) =~= sorted.insert(pos, item));
    }
}

/// The counts never outgrow the number of entries.
proof fn lemma_tallies_bound(entries: Seq<EntryView>, upto: int)
    requires
        0 <= upto <= entries.len(),
    ensures
        tallies(entries, upto).len() <= upto,
        forall|i: int|
            0 <= i < tallies(entries, upto).len() ==> 1 <= (#[trigger] tallies(
                entries,
                upto,
            )[i]).count <= upto,
    decreases upto,
{
    if upto > 0 {
        lemma_tallies_bound(entries, upto - 1);
        let before = tallies(entries, upto - 1);
        let query = entries[upto - 1].query;
        lemma_tally_index_bounds(before, query);
    }
}

/// `tally_index` stays within the list.
proof fn lemma_tally_index_bounds(list: Seq<Tally>, query: Seq<char>)
    ensures
        -1 <= tally_index(list, query) < list.len(),
    decreases list.len(),
{
    if list.len() > 0 && list[0].query != query {
        lemma_tally_index_bounds(list.drop_first(), query);
    }
}

/// The queries that were asked of an index, the newest last.
#[derive(Debug)]
pub struct QueryHistory {
    queries: Vec<QueryEntry>,
}

impl QueryHistory {
    /// The entries, the newest last.
    pub closed spec fn entries(&self) -> Seq<EntryView> {
        entry_views(self.queries@)
    }

    /// A history without entries.
    pub fn new() -> (r: QueryHistory)
        ensures
            r.entries() == Seq::<EntryView>::empty(),
    {
        let r = QueryHistory { queries: Vec::new() };
        assert(r.entries() =~= Seq::<EntryView>::empty());
        r
    }

    /// A history of the given entries, the newest last.
    pub fn from_entries(entries: Vec<QueryEntry>) -> (r: QueryHistory)
        ensures
            r.entries() == entry_views(entries@),
    {
        QueryHistory { queries: entries }
    }

    /// The entries, the newest last.
    pub fn as_entries(&self) -> (r: &Vec<QueryEntry>)
        ensures
            entry_views(r@) == self.entries(),
    {
        &self.queries
    }

    /// Takes down a query that was asked at `timestamp`, unless it repeats
    /// the query before it, and keeps the newest `MAX_HISTORY_SIZE` entries.
    /// Tells whether the history has changed.
    pub fn add_query(
        &mut self,
        query: String,
        result_count: usize,
        filters: Option<String>,
        timestamp: u64,
    ) -> (r: bool)
        ensures
            r == !repeats(old(self).entries(), query@),
            final(self).entries() == if repeats(old(self).entries(), query@) {
                old(self).entries()
            } else {
                newest(
                    old(self).entries().push(
                        EntryView { query: query@, timestamp, result_count, filters: opt_view(filters) },
                    ),
                )
            },
    {
        let n = self.queries.len();
        if n > 0 && str_eq(self.queries[n - 1].query.as_str(), query.as_str()) {
            return false;
        }
        let ghost before = self.entries();
        let entry = QueryEntry { query, timestamp, result_count, filters };
        let ghost pushed = before.push(entry@);
        self.queries.push(entry);
        assert(self.entries() =~= pushed);
        let ghost mut dropped: int = 0;
        assert(pushed.subrange(0, pushed.len() as int) =~= pushed);
        while self.queries.len() > MAX_HISTORY_SIZE
            invariant
                0 <= dropped <= pushed.len(),
                self.queries@.len() == pushed.len() - dropped,
                dropped > 0 ==> self.queries@.len() >= MAX_HISTORY_SIZE,
                self.entries() == pushed.subrange(dropped, pushed.len() as int),
            decreases self.queries@.len(),
        {
            let ghost held = self.entries();
            let _ = self.queries.remove(0);
            proof {
                assert(self.entries() =~= held.subrange(1, held.len() as int));
                dropped = dropped + 1;
                assert(self.entries() =~= pushed.subrange(dropped, pushed.len() as int));
            }
        }
        true
    }

    /// The newest `limit` entries, the newest first.
    pub fn recent(&self, limit: usize) -> (r: Vec<&QueryEntry>)
        ensures
            r@.len() == latest(self.entries(), limit as int).len(),
            forall|i: int|
                0 <= i < r@.len() ==> (#[trigger] r@[i])@ == latest(self.entries(), limit as int)[i],
    {
        let n = self.queries.len();
        let count = if limit < n {
            limit
        } else {
            n
        };
        let mut out: Vec<&QueryEntry> = Vec::new();
        let mut i: usize = 0;
        while i < count
            invariant
                n == self.queries@.len(),
                count <= n,
                i <= count,
                out@.len() == i,
                forall|k: int| 0 <= k < i ==> (#[trigger] out@[k])@ == self.entries()[n - 1 - k],
            decreases count - i,
        {
            out.push(&self.queries[n - 1 - i]);
            i += 1;
        }
        out
    }

    /// All entries, the newest first.
    pub fn all(&self) -> (r: Vec<&QueryEntry>)
        ensures
            r@.len() == self.entries().len(),
            forall|i: int|
                0 <= i < r@.len() ==> (#[trigger] r@[i])@ == self.entries()[self.entries().len() - 1
                    - i],
    {
        self.recent(self.queries.len())
    }

    /// Queries that were asked before and hold `partial`, without regard to
    /// case: from the newest backwards, each run of equal queries once, and
    /// no more than `limit`.
    pub fn suggest(&self, partial: &str, limit: usize) -> (r: Vec<String>)
        ensures
            string_views(r@) == suggestions(self.entries(), partial@, limit as int),
    {
        let needle = to_lowercase(partial);
        let n = self.queries.len();
        let ghost entries = self.entries();
        let mut out: Vec<String> = Vec::new();
        let mut k: usize = 0;
        assert(string_views(out@) =~= deduped(candidates(entries, needle@, 0)));
        while k < n
            invariant
                n == self.queries@.len(),
                entries == self.entries(),
                k <= n,
                string_views(out@) == deduped(candidates(entries, needle@, k as int)),
            decreases n - k,
        {
            let entry = &self.queries[n - 1 - k];
            let ghost before = string_views(out@);
            let lowered = to_lowercase(entry.query.as_str());
            if str_contains(lowered.as_str(), needle.as_str()) {
                proof {
                    let list = candidates(entries, needle@, k + 1);
                    assert(list.drop_last() =~= candidates(entries, needle@, k as int));
                }
                let m = out.len();
                if m == 0 || !str_eq(out[m - 1].as_str(), entry.query.as_str()) {
                    out.push(entry.query.clone());
                    assert(string_views(out@) =~= before.push(entry.query@));
                }
            }
            k += 1;
        }
        if limit < out.len() {
            out.truncate(limit);
        }
        assert(string_views(out@) =~= suggestions(
            self.entries(),
            partial@,
            limit as int,
        ));
        out
    }

    /// The queries that were asked most often with their counts, the most
    /// frequent first and no more than `limit`.
    pub fn top_queries(&self, limit: usize) -> (r: Vec<(String, usize)>)
        ensures
            tally_views(r@) == top(self.entries(), limit as int),
    {
        let n = self.queries.len();
        let ghost entries = self.entries();
        let mut counts: Vec<(String, usize)> = Vec::new();
        let mut i: usize = 0;
        assert(tally_views(counts@) =~= tallies(entries, 0));
        while i < n
            invariant
                n == self.queries@.len(),
                entries == self.entries(),
                i <= n,
                tally_views(counts@) == tallies(entries, i as int),
            decreases n - i,
        {
            let ghost before = tally_views(counts@);
            let query = &self.queries[i].query;
            proof {
                lemma_tallies_bound(entries, i as int);
            }
            let mut at: usize = 0;
            while at < counts.len() && !str_eq(counts[at].0.as_str(), query.as_str())
                invariant
                    at <= counts@.len(),
                    before == tally_views(counts@),
                    forall|j: int| 0 <= j < at ==> (#[trigger] before[j]).query != query@,
                decreases counts@.len() - at,
            {
                at += 1;
            }
            proof {
                lemma_tally_index(before, query@, at as int);
            }
            if at < counts.len() {
                let seen = counts[at].1;
                assert(before[at as int].count == seen);
                counts.set(at, (query.clone(), seen + 1));
                assert(tally_views(counts@) =~= counted(before, query@));
            } else {
                counts.push((query.clone(), 1));
                assert(tally_views(counts@) =~= counted(before, query@));
            }
            i += 1;
        }
        let ghost all = tally_views(counts@);
        let mut sorted: Vec<(String, usize)> = Vec::new();
        let mut j: usize = 0;
        assert(all.subrange(0, 0) =~= Seq::<Tally>::empty());
        assert(tally_views(sorted@) =~= by_count(all.subrange(0, 0)));
        while j < counts.len()
            invariant
                all == tally_views(counts@),
                j <= counts@.len(),
                tally_views(sorted@) == by_count(all.subrange(0, j as int)),
            decreases counts@.len() - j,
        {
            let ghost held = tally_views(sorted@);
            let item = (counts[j].0.clone(), counts[j].1);
            proof {
                let next = all.subrange(0, j + 1);
                assert(next.drop_last() =~= all.subrange(0, j as int));
                assert(next.last() == all[j as int]);
            }
            let mut pos: usize = sorted.len();
            while pos > 0 && sorted[pos - 1].1 < item.1
                invariant
                    pos <= sorted@.len(),
                    held == tally_views(sorted@),
                    forall|k: int| pos <= k < sorted@.len() ==> held[k].count < item.1,
                decreases pos,
            {
                pos -= 1;
            }
            proof {
                lemma_insert_by_count_at(held, all[j as int], pos as int);
            }
            sorted.insert(pos, item);
            assert(tally_views(sorted@) =~= held.insert(pos as int, all[j as int]));
            j += 1;
        }
        assert(all.subrange(0, counts@.len() as int) =~= all);
        if limit < sorted.len() {
            sorted.truncate(limit);
        }
        assert(tally_views(sorted@) =~= top(self.entries(), limit as int));
        sorted
    }

    /// Forgets all entries.
    pub fn clear(&mut self)
        ensures
            final(self).entries() == Seq::<EntryView>::empty(),
    {
        self.queries.clear();
        assert(self.entries() =~= Seq::<EntryView>::empty());
    }

    /// How many entries there are.
    pub fn len(&self) -> (r: usize)
        ensures
            r == self.entries().len(),
    {
        self.queries.len()
    }

    /// Whether there is no entry.
    pub fn is_empty(&self) -> (r: bool)
        ensures
            r == (self.entries().len() == 0),
    {
        self.queries.len() == 0
    }
}

} // verus!
