//! The in-memory index: each live key with the locator of its latest record.
use vstd::prelude::*;

verus! {

/// Where a record body lies in the data file: its offset and its length.
#[derive(Clone, Copy, Debug, PartialEq, Eq, Structural)]
pub struct LogIndex {
    pub pos: u64,
    pub len: u64,
}

/// Keys with their locators, each key at most once.
pub struct KeyIndex {
    entries: Vec<(Vec<u8>, LogIndex)>,
}

impl KeyIndex {
    /// No key occurs twice.
    pub closed spec fn wf(&self) -> bool {
        forall|i: int, j: int|
            0 <= i < j < self.entries@.len() ==> (#[trigger] self.entries@[i].0)@
                != (#[trigger] self.entries@[j].0)@
    }

    pub closed spec fn has_at(&self, k: Seq<u8>, i: int) -> bool {
        0 <= i < self.entries@.len() && self.entries@[i].0@ == k
    }

    pub closed spec fn len_spec(&self) -> nat {
        self.entries@.len()
    }

    /// The index as a map from key to locator.
    pub closed spec fn view(&self) -> Map<Seq<u8>, LogIndex> {
        Map::new(
            |k: Seq<u8>| exists|i: int| self.has_at(k, i),
            |k: Seq<u8>| self.entries@[choose|i: int| self.has_at(k, i)].1,
        )
    }

    proof fn lemma_at(&self, k: Seq<u8>, i: int)
        requires
            self.wf(),
            self.has_at(k, i),
        ensures
            self.view().contains_key(k),
            self.view()[k] == self.entries@[i].1,
    {
        let j = choose|j: int| self.has_at(k, j);
        assert(self.has_at(k, j));
        if i != j {
            if i < j {
                assert(self.entries@[i].0@ != self.entries@[j].0@);
            } else {
                assert(self.entries@[j].0@ != self.entries@[i].0@);
            }
        }
    }

    /// An empty index.
    pub fn new() -> (r: KeyIndex)
        ensures
            r.wf(),
            r.view() == Map::<Seq<u8>, LogIndex>::empty(),
    {
        let r = KeyIndex { entries: Vec::new() };
        assert(r.view() =~= Map::<Seq<u8>, LogIndex>::empty());
        r
    }

    /// Number of keys.
    pub fn len(&self) -> (n: usize)
        requires
            self.wf(),
        ensures
            n == self.view().len(),
    {
        proof {
            self.lemma_dom_len();
        }
        self.entries.len()
    }

    /// The keys of a well-formed index are finitely many.
    pub proof fn lemma_dom_len(&self)
        requires
            self.wf(),
        ensures
            self.view().dom().finite(),
            self.view().len() == self.len_spec(),
    {
        let keys = Seq::new(self.entries@.len(), |i: int| self.entries@[i].0@);
        assert forall|i: int, j: int| 0 <= i < j < keys.len() implies keys[i] != keys[j] by {
            assert(self.entries@[i].0@ != self.entries@[j].0@);
        }
        assert(keys.no_duplicates());
        keys.unique_seq_to_set();
        assert(self.view().dom() =~= keys.to_set()) by {
            assert forall|k: Seq<u8>| self.view().dom().contains(k) implies keys.to_set().contains(k) by {
                let i = choose|i: int| self.has_at(k, i);
                assert(keys[i] == k);
            }
            assert forall|k: Seq<u8>| keys.to_set().contains(k) implies self.view().dom().contains(k) by {
                let i = choose|i: int| 0 <= i < keys.len() && keys[i] == k;
                assert(self.has_at(k, i));
            }
        }
    }

    /// Position of `key` among the entries.
    fn find(&self, key: &[u8]) -> (r: Option<usize>)
        requires
            self.wf(),
        ensures
            match r {
                Some(i) => self.has_at(key@, i as int),
                None => !self.view().contains_key(key@),
            },
    {
        let mut i: usize = 0;
        while i < self.entries.len()
            invariant
                i <= self.entries@.len(),
                forall|j: int| 0 <= j < i ==> self.entries@[j].0@ != key@,
            decreases self.entries@.len() - i,
        {
            if bytes_eq(self.entries[i].0.as_slice(), key) {
                return Some(i);
            }
            i = i + 1;
        }
        None
    }

    /// The locator of `key`, if the key is live.
    pub fn get(&self, key: &[u8]) -> (r: Option<LogIndex>)
        requires
            self.wf(),
        ensures
            r == self.view().get(key@),
    {
        match self.find(key) {
            Some(i) => {
                proof {
                    self.lemma_at(key@, i as int);
                }
                Some(self.entries[i].1)
            },
            None => None,
        }
    }

    /// Points `key` at `loc`, in place of any earlier locator.
    pub fn insert(&mut self, key: Vec<u8>, loc: LogIndex)
        requires
            old(self).wf(),
        ensures
            final(self).wf(),
            final(self).view() == old(self).view().insert(key@, loc),
    {
        let ghost pre = *self;
        match self.find(key.as_slice()) {
            Some(i) => {
                let ghost k = key@;
                self.entries.set(i, (key, loc));
                proof {
                    assert forall|i1: int, j1: int|
                        0 <= i1 < j1 < self.entries@.len() implies (#[trigger] self.entries@[i1].0)@
                        != (#[trigger] self.entries@[j1].0)@ by {
                        assert(pre.entries@[i1].0@ != pre.entries@[j1].0@);
                    }
                    assert(self.has_at(k, i as int));
                    assert forall|k2: Seq<u8>, i2: int|
                        k2 != k && #[trigger] self.has_at(k2, i2) implies exists|j: int| pre.has_at(k2, j) && pre.entries@[j].1 == self.entries@[i2].1 by {
                        assert(pre.has_at(k2, i2));
                    }
                    assert forall|k2: Seq<u8>, j: int|
                        k2 != k && #[trigger] pre.has_at(k2, j) implies exists|i2: int| self.has_at(k2, i2) by {
                        assert(self.has_at(k2, j));
                    }
                    self.lemma_view_after(pre, k, loc);
                }
            },
            None => {
                let ghost k = key@;
                self.entries.push((key, loc));
                proof {
                    assert forall|i1: int, j1: int|
                        0 <= i1 < j1 < self.entries@.len() implies (#[trigger] self.entries@[i1].0)@
                        != (#[trigger] self.entries@[j1].0)@ by {
                        if j1 < pre.entries@.len() {
                            assert(pre.entries@[i1].0@ != pre.entries@[j1].0@);
                        } else {
                            if pre.entries@[i1].0@ == k {
                                assert(pre.has_at(k, i1));
                            }
                        }
                    }
                    let last = pre.entries@.len() as int;
                    assert(self.has_at(k, last));
                    assert forall|k2: Seq<u8>, i2: int|
                        k2 != k && #[trigger] self.has_at(k2, i2) implies exists|j: int| pre.has_at(k2, j) && pre.entries@[j].1 == self.entries@[i2].1 by {
                        assert(pre.has_at(k2, i2));
                    }
                    assert forall|k2: Seq<u8>, j: int|
                        k2 != k && #[trigger] pre.has_at(k2, j) implies exists|i2: int| self.has_at(k2, i2) by {
                        assert(self.has_at(k2, j));
                    }
                    self.lemma_view_after(pre, k, loc);
                }
            },
        }
    }

    /// After an insert, the view is the old one with `k` at `loc`: shown key
    /// by key from where each key stands.
    proof fn lemma_view_after(&self, pre: KeyIndex, k: Seq<u8>, loc: LogIndex)
        requires
            self.wf(),
            pre.wf(),
            exists|i: int| self.has_at(k, i) && self.entries@[i].1 == loc,
            forall|k2: Seq<u8>, i: int|
                k2 != k && #[trigger] self.has_at(k2, i) ==> exists|j: int| pre.has_at(k2, j) && pre.entries@[j].1 == self.entries@[i].1,
            forall|k2: Seq<u8>, j: int|
                k2 != k && #[trigger] pre.has_at(k2, j) ==> exists|i: int| self.has_at(k2, i),
        ensures
            self.view() == pre.view().insert(k, loc),
    {
        let i = choose|i: int| self.has_at(k, i) && self.entries@[i].1 == loc;
        self.lemma_at(k, i);
        assert forall|k2: Seq<u8>| k2 != k implies (self.view().contains_key(k2) == pre.view().contains_key(k2)
            && (self.view().contains_key(k2) ==> self.view()[k2] == pre.view()[k2])) by {
            if self.view().contains_key(k2) {
                let i2 = choose|i2: int| self.has_at(k2, i2);
                self.lemma_at(k2, i2);
                let j2 = choose|j2: int| pre.has_at(k2, j2) && pre.entries@[j2].1 == self.entries@[i2].1;
                pre.lemma_at(k2, j2);
            }
            if pre.view().contains_key(k2) {
                let j2 = choose|j2: int| pre.has_at(k2, j2);
                assert(pre.has_at(k2, j2));
            }
        }
        assert(self.view() =~= pre.view().insert(k, loc));
    }

    /// Takes `key` out of the index.
    pub fn remove(&mut self, key: &[u8])
        requires
            old(self).wf(),
        ensures
            final(self).wf(),
            final(self).view() == old(self).view().remove(key@),
    {
        let ghost pre = *self;
        match self.find(key) {
            Some(i) => {
                let _ = self.entries.swap_remove(i);
                proof {
                    let n = pre.entries@.len() - 1;
                    assert forall|i1: int, j1: int|
                        0 <= i1 < j1 < self.entries@.len() implies (#[trigger] self.entries@[i1].0)@
                        != (#[trigger] self.entries@[j1].0)@ by {
                        let a = if i1 == i { n } else { i1 };
                        let b = if j1 == i { n } else { j1 };
                        if a < b {
                            assert(pre.entries@[a].0@ != pre.entries@[b].0@);
                        } else {
                            assert(pre.entries@[b].0@ != pre.entries@[a].0@);
                        }
                    }
                    assert forall|j: int| 0 <= j < n implies #[trigger] self.entries@[j] == pre.entries@[if j == i { n } else { j }] by {}
                    assert forall|k2: Seq<u8>| #[trigger] self.view().contains_key(k2) implies pre.view().remove(key@).contains_key(k2)
                        && self.view()[k2] == pre.view()[k2] by {
                        let i2 = choose|i2: int| self.has_at(k2, i2);
                        self.lemma_at(k2, i2);
                        let a = if i2 == i { n } else { i2 };
                        assert(self.entries@[i2] == pre.entries@[a]);
                        assert(pre.has_at(k2, a));
                        pre.lemma_at(k2, a);
                        assert(a != i);
                        if k2 == key@ {
                            if a < i {
                                assert(pre.entries@[a].0@ != pre.entries@[i as int].0@);
                            } else {
                                assert(pre.entries@[i as int].0@ != pre.entries@[a].0@);
                            }
                        }
                    }
                    assert forall|k2: Seq<u8>| #[trigger] pre.view().remove(key@).contains_key(k2) implies self.view().contains_key(k2) by {
                        let j2 = choose|j2: int| pre.has_at(k2, j2);
                        assert(j2 != i);
                        let a = if j2 == n { i as int } else { j2 };
                        assert(self.entries@[a] == pre.entries@[j2]);
                        assert(self.has_at(k2, a));
                    }
                    assert(self.view() =~= pre.view().remove(key@));
                }
            },
            None => {
                proof {
                    assert(self.view() =~= pre.view().remove(key@));
                }
            },
        }
    }

    /// Every key with its locator, each once.
    pub fn snapshot(&self) -> (r: Vec<(Vec<u8>, LogIndex)>)
        requires
            self.wf(),
        ensures
            r@.len() == self.view().len(),
            forall|i: int| 0 <= i < r@.len() ==> self.view().contains_key((#[trigger] r@[i]).0@)
                && self.view()[r@[i].0@] == r@[i].1,
            forall|k: Seq<u8>| #[trigger] self.view().contains_key(k) ==> exists|i: int| 0 <= i < r@.len() && r@[i].0@ == k,
            forall|i: int, j: int| 0 <= i < j < r@.len() ==> (#[trigger] r@[i].0)@ != (#[trigger] r@[j].0)@,
    {
        let mut out: Vec<(Vec<u8>, LogIndex)> = Vec::new();
        let mut i: usize = 0;
        proof {
            self.lemma_dom_len();
        }
        while i < self.entries.len()
            invariant
                self.wf(),
                i <= self.entries@.len(),
                out@.len() == i,
                forall|j: int| 0 <= j < i ==> (#[trigger] out@[j]).0@ == self.entries@[j].0@ && out@[j].1 == self.entries@[j].1,
            decreases self.entries@.len() - i,
        {
            let k = self.entries[i].0.clone();
            out.push((k, self.entries[i].1));
            i = i + 1;
        }
        proof {
            self.lemma_dom_len();
            assert forall|i: int| 0 <= i < out@.len() implies self.view().contains_key((#[trigger] out@[i]).0@)
                && self.view()[out@[i].0@] == out@[i].1 by {
                self.lemma_at(out@[i].0@, i);
            }
            assert forall|k: Seq<u8>| #[trigger] self.view().contains_key(k) implies exists|i: int| 0 <= i < out@.len() && out@[i].0@ == k by {
                let i = choose|i: int| self.has_at(k, i);
                assert(out@[i].0@ == k);
            }
            assert forall|i: int, j: int| 0 <= i < j < out@.len() implies (#[trigger] out@[i].0)@ != (#[trigger] out@[j].0)@ by {
                assert(self.entries@[i].0@ != self.entries@[j].0@);
            }
        }
        out
    }
}

/// Whether two byte strings are equal.
pub fn bytes_eq(a: &[u8], b: &[u8]) -> (r: bool)
    ensures
        r == (a@ == b@),
{
    if a.len() != b.len() {
        return false;
    }
    let mut i: usize = 0;
    while i < a.len()
        invariant
            a@.len() == b@.len(),
            i <= a@.len(),
            forall|j: int| 0 <= j < i ==> a@[j] == b@[j],
        decreases a@.len() - i,
    {
        if a[i] != b[i] {
            return false;
        }
        i = i + 1;
    }
    assert(a@ =~= b@);
    true
}

} // verus!
