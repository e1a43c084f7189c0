//! The hash that each indexed file had when it was last indexed.
use crate::text::str_eq;
use vstd::prelude::*;

verus! {

/// One file and the hash of its contents.
#[derive(Debug)]
pub struct FileHash {
    /// Path of the file, relative to the root of the index.
    pub path: String,
    /// Hash of the contents, in hex.
    pub hash: String,
}

/// A table from file paths to hashes that keeps the order in which the
/// paths came in.
#[derive(Debug)]
pub struct FileHashes {
    entries: Vec<FileHash>,
}

/// The paths of a list of entries.
pub open spec fn entry_paths(entries: Seq<FileHash>) -> Seq<Seq<char>> {
    Seq::new(entries.len(), |i: int| entries[i].path@)
}

/// What a path stands for in a list of entries in which it occurs.
pub open spec fn entry_hash(entries: Seq<FileHash>, path: Seq<char>) -> Seq<char> {
    entries[entry_paths(entries).index_of(path)].hash@
}

impl FileHashes {
    /// The entries of the table, in the order in which their paths came in.
    pub closed spec fn entries(&self) -> Seq<FileHash> {
        self.entries@
    }

    /// The paths of the table, in the order in which they came in.
    pub open spec fn paths(&self) -> Seq<Seq<char>> {
        entry_paths(self.entries())
    }

    /// No path has two entries.
    pub open spec fn wf(&self) -> bool {
        self.paths().no_duplicates()
    }

    /// The table as a map from paths to hashes.
    pub open spec fn view(&self) -> Map<Seq<char>, Seq<char>> {
        Map::new(
            |path: Seq<char>| self.paths().contains(path),
            |path: Seq<char>| entry_hash(self.entries(), path),
        )
    }

    /// An empty table.
    pub fn new() -> (r: FileHashes)
        ensures
            r.wf(),
            r.paths() == Seq::<Seq<char>>::empty(),
            r@ == Map::<Seq<char>, Seq<char>>::empty(),
    {
        let r = FileHashes { entries: Vec::new() };
        proof {
            assert(r.paths() =~= Seq::<Seq<char>>::empty());
            assert(r@ =~= Map::<Seq<char>, Seq<char>>::empty());
        }
        r
    }

    /// Where the entry of a path stands.
    fn find(&self, path: &str) -> (r: Option<usize>)
        ensures
            match r {
                Some(i) => i < self.entries().len() && self.paths()[i as int] == path@,
                None => !self.paths().contains(path@),
            },
    {
        let mut i: usize = self.entries.len();
        while i > 0
            invariant
                i <= self.entries@.len(),
                forall|j: int| i <= j < self.entries@.len() ==> self.paths()[j] != path@,
            decreases i,
        {
            i -= 1;
            if str_eq(self.entries[i].path.as_str(), path) {
                return Some(i);
            }
        }
        None
    }

    /// The hash on record for a path.
    pub fn get(&self, path: &str) -> (r: Option<&String>)
        requires
            self.wf(),
        ensures
            match r {
                Some(hash) => self@.dom().contains(path@) && self@[path@] == hash@,
                None => !self@.dom().contains(path@),
            },
    {
        match self.find(path) {
            Some(i) => {
                proof {
                    let k = self.paths().index_of(path@);
                    assert(self.paths()[i as int] == path@);
                    assert(self.paths().contains(path@));
                    assert(self.paths()[k] == path@);
                    assert(k == i);
                }
                Some(&self.entries[i].hash)
            },
            None => None,
        }
    }

    /// Puts a hash on record for a path, in place of the one that was there
    /// if there was one, else as the last entry.
    pub fn insert(&mut self, path: String, hash: String)
        requires
            old(self).wf(),
        ensures
            final(self).wf(),
            final(self)@ == old(self)@.insert(path@, hash@),
            final(self).paths() == if old(self).paths().contains(path@) {
                old(self).paths()
            } else {
                old(self).paths().push(path@)
            },
    {
        let ghost before = self.entries@;
        let ghost old_map = self@;
        match self.find(path.as_str()) {
            Some(i) => {
                let entry = FileHash { path, hash };
                self.entries.set(i, entry);
                proof {
                    assert(self.paths() =~= entry_paths(before));
                    assert(entry_paths(before).contains(path@));
                    assert forall|p: Seq<char>| #[trigger]
                        self@.dom().contains(p) implies self@[p] == old_map.insert(path@, hash@)[p] by {
                        let k = self.paths().index_of(p);
                        assert(self.paths()[k] == p);
                        if p != path@ {
                            assert(k != i);
                        } else {
                            assert(k == i);
                        }
                    }
                    assert(self@ =~= old_map.insert(path@, hash@));
                }
            },
            None => {
                let entry = FileHash { path, hash };
                self.entries.push(entry);
                proof {
                    let n = before.len() as int;
                    assert(self.paths() =~= entry_paths(before).push(path@));
                    assert forall|p: Seq<char>| #[trigger]
                        self@.dom().contains(p) <==> old_map.insert(path@, hash@).dom().contains(
                            p,
                        ) by {
                        if self.paths().contains(p) {
                            let k = choose|k: int| 0 <= k < self.paths().len() && self.paths()[k] == p;
                            if k < n {
                                assert(entry_paths(before)[k] == p);
                            }
                        }
                        if entry_paths(before).contains(p) {
                            let k = choose|k: int|
                                0 <= k < before.len() && entry_paths(before)[k] == p;
                            assert(self.paths()[k] == p);
                        }
                        if p == path@ {
                            assert(self.paths()[n] == p);
                        }
                    }
                    assert forall|p: Seq<char>| #[trigger]
                        self@.dom().contains(p) implies self@[p] == old_map.insert(path@, hash@)[p] by {
                        let k = self.paths().index_of(p);
                        assert(self.paths()[k] == p);
                        if p != path@ {
                            assert(k < n);
                            assert(entry_paths(before)[k] == p);
                            let j = entry_paths(before).index_of(p);
                            assert(entry_paths(before)[j] == p);
                            assert(self.paths()[j] == p);
                            assert(j == k);
                        } else {
                            assert(self.paths()[n] == p);
                            assert(k == n);
                        }
                    }
                    assert(self@ =~= old_map.insert(path@, hash@));
                }
            },
        }
    }

    /// Takes a path off the record.
    pub fn remove(&mut self, path: &str)
        requires
            old(self).wf(),
        ensures
            final(self).wf(),
            final(self)@ == old(self)@.remove(path@),
            final(self).paths() == if old(self).paths().contains(path@) {
                old(self).paths().remove(old(self).paths().index_of(path@))
            } else {
                old(self).paths()
            },
    {
        let ghost before = self.entries@;
        let ghost old_map = self@;
        let ghost old_paths = self.paths();
        match self.find(path) {
            Some(i) => {
                proof {
                    assert(old_paths[i as int] == path@);
                    let k = old_paths.index_of(path@);
                    assert(old_paths[k] == path@);
                    assert(k == i);
                }
                let _ = self.entries.remove(i);
                proof {
                    assert(self.paths() =~= old_paths.remove(i as int));
                    assert forall|a: int, b: int|
                        0 <= a < self.paths().len() && 0 <= b < self.paths().len() && a
                            != b implies self.paths()[a] != self.paths()[b] by {
                        let x = if a < i { a } else { a + 1 };
                        let y = if b < i { b } else { b + 1 };
                        assert(self.paths()[a] == old_paths[x]);
                        assert(self.paths()[b] == old_paths[y]);
                    }
                    assert forall|p: Seq<char>| #[trigger]
                        self@.dom().contains(p) <==> old_map.remove(path@).dom().contains(p) by {
                        if self.paths().contains(p) {
                            let a = choose|a: int| 0 <= a < self.paths().len() && self.paths()[a] == p;
                            let x = if a < i { a } else { a + 1 };
                            assert(old_paths[x] == p);
                        }
                        if old_paths.contains(p) && p != path@ {
                            let x = choose|x: int| 0 <= x < old_paths.len() && old_paths[x] == p;
                            let a = if x < i { x } else { x - 1 };
                            assert(self.paths()[a] == p);
                        }
                    }
                    assert forall|p: Seq<char>| #[trigger]
                        self@.dom().contains(p) implies self@[p] == old_map.remove(path@)[p] by {
                        let a = self.paths().index_of(p);
                        assert(self.paths()[a] == p);
                        let x = if a < i { a } else { a + 1 };
                        assert(old_paths[x] == p);
                        let j = old_paths.index_of(p);
                        assert(old_paths[j] == p);
                        assert(j == x);
                    }
                    assert(self@ =~= old_map.remove(path@));
                }
            },
            None => {
                proof {
                    assert(self@ =~= old_map.remove(path@));
                }
            },
        }
    }

    /// How many paths are on record.
    pub fn len(&self) -> (r: usize)
        ensures
            r == self.paths().len(),
    {
        self.entries.len()
    }

    /// The paths on record, in the order in which they came in.
    pub fn keys(&self) -> (r: Vec<&String>)
        ensures
            r@.len() == self.paths().len(),
            forall|i: int| 0 <= i < r@.len() ==> (#[trigger] r@[i])@ == self.paths()[i],
    {
        let mut keys: Vec<&String> = Vec::new();
        let mut i: usize = 0;
        while i < self.entries.len()
            invariant
                i <= self.entries@.len(),
                keys@.len() == i,
                forall|j: int| 0 <= j < i ==> (#[trigger] keys@[j])@ == self.paths()[j],
            decreases self.entries@.len() - i,
        {
            keys.push(&self.entries[i].path);
            i += 1;
        }
        keys
    }

    /// The entries, in the order in which their paths came in.
    pub fn as_entries(&self) -> (r: &Vec<FileHash>)
        ensures
            r@ == self.entries(),
    {
        &self.entries
    }
}

} // verus!
