use vstd::prelude::*;

verus! {

/// One path and the slot holding what was loaded from it.
struct PathEntry {
    path: String,
    slot: usize,
}

/// Maps a canonical path string to the slot of the resource loaded from it.
///
/// Paths are compared as strings: two spellings of one file are two keys.
pub struct PathIndex {
    entries: Vec<PathEntry>,
}

impl View for PathIndex {
    type V = Map<Seq<char>, usize>;

    closed spec fn view(&self) -> Map<Seq<char>, usize> {
        Map::new(
            |p: Seq<char>| exists|i: int| 0 <= i < self.entries@.len() && self.entries@[i].path@ == p,
            |p: Seq<char>|
                self.entries@[choose|i: int|
                    0 <= i < self.entries@.len() && self.entries@[i].path@ == p].slot,
        )
    }
}

impl PathIndex {
    /// No two entries share a path.
    pub closed spec fn wf(&self) -> bool {
        forall|i: int, j: int|
            0 <= i < self.entries@.len() && 0 <= j < self.entries@.len() && i != j
                ==> #[trigger] self.entries@[i].path@ != #[trigger] self.entries@[j].path@
    }

    proof fn lemma_entry(&self, i: int)
        requires
            self.wf(),
            0 <= i < self.entries@.len(),
        ensures
            self@.contains_key(self.entries@[i].path@),
            self@[self.entries@[i].path@] == self.entries@[i].slot,
    {
        let p = self.entries@[i].path@;
        assert(exists|k: int| 0 <= k < self.entries@.len() && self.entries@[k].path@ == p);
        let k = choose|k: int| 0 <= k < self.entries@.len() && self.entries@[k].path@ == p;
        assert(k == i);
    }

    /// An index with no entries.
    pub fn new() -> (r: Self)
        ensures
            r.wf(),
            r@ == Map::<Seq<char>, usize>::empty(),
    {
        let r = PathIndex { entries: Vec::new() };
        assert(r@ =~= Map::<Seq<char>, usize>::empty());
        r
    }

    /// Where `path` stands in the entry list, if it is there.
    fn position(&self, path: &str) -> (r: Option<usize>)
        requires
            self.wf(),
        ensures
            match r {
                Some(i) => i < self.entries@.len() && self.entries@[i as int].path@ == path@,
                None => !self@.contains_key(path@),
            },
    {
        let key = path.to_owned();
        let mut i: usize = 0;
        while i < self.entries.len()
            invariant
                i <= self.entries@.len(),
                key@ == path@,
                forall|j: int| 0 <= j < i ==> (#[trigger] self.entries@[j]).path@ != path@,
            decreases self.entries@.len() - i,
        {
            if self.entries[i].path == key {
                return Some(i);
            }
            i = i + 1;
        }
        None
    }

    /// The slot recorded for `path`.
    pub fn lookup(&self, path: &str) -> (r: Option<usize>)
        requires
            self.wf(),
        ensures
            r == self@.get(path@),
    {
        match self.position(path) {
            Some(i) => {
                proof {
                    self.lemma_entry(i as int);
                }
                Some(self.entries[i].slot)
            },
            None => None,
        }
    }

    /// Records `slot` for `path`, replacing the slot it had, if any.
    pub fn insert(&mut self, path: &str, slot: usize)
        requires
            old(self).wf(),
        ensures
            final(self).wf(),
            final(self)@ == old(self)@.insert(path@, slot),
    {
        match self.position(path) {
            Some(k) => self.replace_slot(k, path, slot),
            None => self.push_new(path, slot),
        }
    }

    /// Gives the entry at `k`, whose path is `path`, the slot `slot`.
    fn replace_slot(&mut self, k: usize, path: &str, slot: usize)
        requires
            old(self).wf(),
            k < old(self).entries@.len(),
            old(self).entries@[k as int].path@ == path@,
        ensures
            final(self).wf(),
            final(self)@ == old(self)@.insert(path@, slot),
    {
        let ghost before = self.entries@;
        self.entries.set(k, PathEntry { path: path.to_owned(), slot });
        let ghost after = self.entries@;
        assert(after =~= before.update(k as int, PathEntry { path: after[k as int].path, slot }));
        assert forall|i: int, j: int|
            0 <= i < after.len() && 0 <= j < after.len() && i != j
                implies #[trigger] after[i].path@ != #[trigger] after[j].path@ by {
            assert(after[i].path@ == before[i].path@);
            assert(after[j].path@ == before[j].path@);
        }
        assert forall|p: Seq<char>| #[trigger] self@.contains_key(p) <==> old(self)@.insert(path@, slot).contains_key(p) by {
            if old(self)@.contains_key(p) {
                let j = choose|j: int| 0 <= j < before.len() && before[j].path@ == p;
                assert(after[j].path@ == p);
            }
            if self@.contains_key(p) {
                let j = choose|j: int| 0 <= j < after.len() && after[j].path@ == p;
                assert(before[j].path@ == p);
            }
        }
        assert forall|p: Seq<char>| #[trigger] self@.contains_key(p) implies self@[p] == old(self)@.insert(path@, slot)[p] by {
            let j = choose|j: int| 0 <= j < after.len() && after[j].path@ == p;
            self.lemma_entry(j);
            if j != k {
                old(self).lemma_entry(j);
            }
        }
        assert(self@ =~= old(self)@.insert(path@, slot));
    }

    /// Appends an entry for a path that has none yet.
    fn push_new(&mut self, path: &str, slot: usize)
        requires
            old(self).wf(),
            !old(self)@.contains_key(path@),
        ensures
            final(self).wf(),
            final(self)@ == old(self)@.insert(path@, slot),
    {
        let ghost before = self.entries@;
        proof {
            assert forall|i: int| 0 <= i < before.len() implies before[i].path@ != path@ by {
                old(self).lemma_entry(i);
            }
        }
        self.entries.push(PathEntry { path: path.to_owned(), slot });
        let ghost after = self.entries@;
        assert(after.len() == before.len() + 1);
        assert forall|p: Seq<char>| #[trigger] self@.contains_key(p) <==> old(self)@.insert(path@, slot).contains_key(p) by {
            if old(self)@.contains_key(p) {
                let k = choose|k: int| 0 <= k < before.len() && before[k].path@ == p;
                assert(after[k] == before[k]);
            }
            if self@.contains_key(p) && p != path@ {
                let k = choose|k: int| 0 <= k < after.len() && after[k].path@ == p;
                assert(k < before.len());
                assert(before[k] == after[k]);
            }
            if p == path@ {
                assert(after[before.len() as int].path@ == p);
            }
        }
        assert forall|p: Seq<char>| #[trigger] self@.contains_key(p) implies self@[p] == old(self)@.insert(path@, slot)[p] by {
            let k = choose|k: int| 0 <= k < after.len() && after[k].path@ == p;
            self.lemma_entry(k);
            if k < before.len() {
                assert(before[k] == after[k]);
                old(self).lemma_entry(k);
            }
        }
        assert(self@ =~= old(self)@.insert(path@, slot));
    }

    /// Drops the entry of `path`; a path with no entry changes nothing.
    pub fn remove(&mut self, path: &str)
        requires
            old(self).wf(),
        ensures
            final(self).wf(),
            final(self)@ == old(self)@.remove(path@),
    {
        match self.position(path) {
            None => {
                assert(self@ =~= old(self)@.remove(path@));
            },
            Some(k) => {
                let ghost before = self.entries@;
                self.entries.remove(k);
                let ghost after = self.entries@;
                assert(after =~= before.remove(k as int));
                assert forall|p: Seq<char>| #[trigger] self@.contains_key(p) <==> old(self)@.remove(path@).contains_key(p) by {
                    if old(self)@.contains_key(p) && p != path@ {
                        let j = choose|j: int| 0 <= j < before.len() && before[j].path@ == p;
                        if j < k {
                            assert(after[j] == before[j]);
                        } else {
                            assert(j != k);
                            assert(after[j - 1] == before[j]);
                        }
                    }
                    if self@.contains_key(p) {
                        let j = choose|j: int| 0 <= j < after.len() && after[j].path@ == p;
                        if j < k {
                            assert(after[j] == before[j]);
                        } else {
                            assert(after[j] == before[j + 1]);
                        }
                    }
                }
                assert forall|p: Seq<char>| #[trigger] self@.contains_key(p) implies self@[p] == old(self)@[p] by {
                    let j = choose|j: int| 0 <= j < after.len() && after[j].path@ == p;
                    self.lemma_entry(j);
                    if j < k {
                        assert(after[j] == before[j]);
                        old(self).lemma_entry(j);
                    } else {
                        assert(after[j] == before[j + 1]);
                        old(self).lemma_entry(j + 1);
                    }
                }
                assert(self@ =~= old(self)@.remove(path@));
            },
        }
    }

    /// The path whose entry records `slot`, found by scanning the entries.
    pub fn path_of(&self, slot: usize) -> (r: Option<String>)
        requires
            self.wf(),
        ensures
            match r {
                Some(p) => self@.contains_key(p@) && self@[p@] == slot,
                None => forall|p: Seq<char>| #[trigger] self@.contains_key(p) ==> self@[p] != slot,
            },
    {
        let mut i: usize = 0;
        while i < self.entries.len()
            invariant
                self.wf(),
                i <= self.entries@.len(),
                forall|j: int| 0 <= j < i ==> (#[trigger] self.entries@[j]).slot != slot,
            decreases self.entries@.len() - i,
        {
            if self.entries[i].slot == slot {
                proof {
                    self.lemma_entry(i as int);
                }
                return Some(self.entries[i].path.clone());
            }
            i = i + 1;
        }
        assert forall|p: Seq<char>| #[trigger] self@.contains_key(p) implies self@[p] != slot by {
            let j = choose|j: int| 0 <= j < self.entries@.len() && self.entries@[j].path@ == p;
            self.lemma_entry(j);
        }
        None
    }
}

} // verus!
