use vstd::prelude::*;

verus! {

/// Where a key's latest record lies in the log.
#[derive(Debug, Clone, Copy, PartialEq, Eq, Structural)]
pub struct MemoryData {
    /// Byte offset of the record's start.
    pub offset: usize,
    /// Total byte length of the record.
    pub len: usize,
}

struct IndexEntry {
    key: String,
    loc: MemoryData,
}

/// The in-memory map from each live key to the location of its record.
pub struct Index {
    entries: Vec<IndexEntry>,
    map: Ghost<Map<Seq<char>, MemoryData>>,
}

impl View for Index {
    type V = Map<Seq<char>, MemoryData>;

    closed spec fn view(&self) -> Map<Seq<char>, MemoryData> {
        self.map@
    }
}

impl Index {
    /// The key of the `i`-th entry, in the order that `entry` hands them out.
    pub closed spec fn key_at(&self, i: int) -> Seq<char> {
        self.entries@[i].key@
    }

    /// The number of entries.
    pub closed spec fn size(&self) -> nat {
        self.entries@.len()
    }

    /// Each key has one entry, and the entries are exactly the map.
    pub closed spec fn wf(&self) -> bool {
        &&& forall|i: int, j: int|
            0 <= i < j < self.entries@.len() ==> #[trigger] self.key_at(i) != #[trigger] self.key_at(j)
        &&& forall|i: int|
            0 <= i < self.entries@.len() ==> self.map@.contains_key(#[trigger] self.key_at(i))
                && self.map@[self.key_at(i)] == self.entries@[i].loc
        &&& forall|k: Seq<char>|
            #[trigger] self.map@.contains_key(k) ==> exists|i: int|
                0 <= i < self.entries@.len() && #[trigger] self.key_at(i) == k
    }

    /// The entries' keys are the map's keys.
    pub proof fn lemma_keys(&self)
        requires
            self.wf(),
        ensures
            forall|k: Seq<char>|
                self@.contains_key(k) <==> exists|i: int| 0 <= i < self.size() && #[trigger] self.key_at(i) == k,
            forall|i: int, j: int|
                0 <= i < j < self.size() ==> #[trigger] self.key_at(i) != #[trigger] self.key_at(j),
    {
    }

    /// An empty index.
    pub fn new() -> (r: Self)
        ensures
            r.wf(),
            r@ == Map::<Seq<char>, MemoryData>::empty(),
            r.size() == 0,
    {
        Index { entries: Vec::new(), map: Ghost(Map::empty()) }
    }

    fn find(&self, key: &String) -> (r: Option<usize>)
        requires
            self.wf(),
        ensures
            match r {
                Some(i) => i < self.size() && self.key_at(i as int) == key@,
                None => !self@.contains_key(key@),
            },
    {
        let mut i: usize = 0;
        while i < self.entries.len()
            invariant
                self.wf(),
                i <= self.entries@.len(),
                forall|j: int| 0 <= j < i ==> self.key_at(j) != key@,
            decreases self.entries@.len() - i,
        {
            if self.entries[i].key == *key {
                return Some(i);
            }
            i = i + 1;
        }
        None
    }

    /// The location stored for `key`.
    pub fn lookup(&self, key: &String) -> (r: Option<MemoryData>)
        requires
            self.wf(),
        ensures
            match r {
                Some(l) => self@.contains_key(key@) && self@[key@] == l,
                None => !self@.contains_key(key@),
            },
    {
        match self.find(key) {
            Some(i) => Some(self.entries[i].loc),
            None => None,
        }
    }

    /// Installs or overwrites the location of `key`.
    pub fn upsert(&mut self, key: String, loc: MemoryData)
        requires
            old(self).wf(),
        ensures
            final(self).wf(),
            final(self)@ == old(self)@.insert(key@, loc),
    {
        let ghost k = key@;
        match self.find(&key) {
            Some(i) => {
                self.entries.set(i, IndexEntry { key, loc });
                self.map = Ghost(self.map@.insert(k, loc));
                assert forall|j: int| 0 <= j < self.entries@.len() implies #[trigger] self.key_at(j)
                    == old(self).key_at(j) by {}
                assert forall|j: int| 0 <= j < self.entries@.len() && j != i implies self.key_at(j) != k by {
                    assert(old(self).key_at(j) != old(self).key_at(i as int));
                }
                assert forall|k2: Seq<char>| #[trigger] self.map@.contains_key(k2) implies exists|j: int|
                    0 <= j < self.entries@.len() && #[trigger] self.key_at(j) == k2 by {
                    if k2 == k {
                        assert(self.key_at(i as int) == k2);
                    } else {
                        assert(old(self).map@.contains_key(k2));
                        let j = choose|j: int| 0 <= j < old(self).entries@.len() && #[trigger] old(self).key_at(j) == k2;
                        assert(self.key_at(j) == k2);
                    }
                }
            },
            None => {
                self.entries.push(IndexEntry { key, loc });
                self.map = Ghost(self.map@.insert(k, loc));
                let ghost n: int = self.entries@.len() - 1;
                assert forall|i: int| 0 <= i < n implies self.key_at(i) == old(self).key_at(i) by {}
                assert forall|i: int| 0 <= i < n implies self.key_at(i) != k by {
                    assert(old(self).map@.contains_key(old(self).key_at(i)));
                }
                assert(self.key_at(n) == k);
                assert forall|k2: Seq<char>| #[trigger] self.map@.contains_key(k2) implies exists|j: int|
                    0 <= j < self.entries@.len() && #[trigger] self.key_at(j) == k2 by {
                    if k2 == k {
                        assert(self.key_at(n) == k2);
                    } else {
                        assert(old(self).map@.contains_key(k2));
                        let j = choose|j: int| 0 <= j < old(self).entries@.len() && #[trigger] old(self).key_at(j) == k2;
                        assert(self.key_at(j) == k2);
                    }
                }
            },
        }
        assert(self.map@ == old(self)@.insert(k, loc));
    }

    /// Removes any entry for `key`.
    pub fn delete(&mut self, key: &String)
        requires
            old(self).wf(),
        ensures
            final(self).wf(),
            final(self)@ == old(self)@.remove(key@),
    {
        match self.find(key) {
            Some(i) => {
                self.entries.remove(i);
                self.map = Ghost(self.map@.remove(key@));
                assert forall|j: int| 0 <= j < self.entries@.len() implies #[trigger] self.key_at(j)
                    == old(self).key_at(if j < i { j } else { j + 1 }) by {}
                assert forall|k2: Seq<char>| #[trigger] self.map@.contains_key(k2) implies exists|j: int|
                    0 <= j < self.entries@.len() && #[trigger] self.key_at(j) == k2 by {
                    assert(old(self).map@.contains_key(k2));
                    let j = choose|j: int| 0 <= j < old(self).entries@.len() && #[trigger] old(self).key_at(j) == k2;
                    assert(j != i);
                    if j < i {
                        assert(self.key_at(j) == k2);
                    } else {
                        assert(self.key_at(j - 1) == k2);
                    }
                }
            },
            None => {
                assert(self.map@ =~= old(self)@.remove(key@));
            },
        }
    }

    /// The number of entries.
    pub fn len(&self) -> (r: usize)
        ensures
            r == self.size(),
    {
        self.entries.len()
    }

    /// The `i`-th entry: a key and its location.
    pub fn entry(&self, i: usize) -> (r: (&String, MemoryData))
        requires
            self.wf(),
            i < self.size(),
        ensures
            r.0@ == self.key_at(i as int),
            self@.contains_key(r.0@),
            self@[r.0@] == r.1,
    {
        (&self.entries[i].key, self.entries[i].loc)
    }
}

} // verus!
