//! Small association maps keyed by byte strings and by peer ids.
//!
//! They keep their entries in a vector in which no key occurs twice, and are
//! seen from outside as a `Map` from the key to the view of the value.
use vstd::prelude::*;

verus! {

/// Compares two byte strings.
pub fn bytes_eq(a: &[u8], b: &[u8]) -> (r: bool)
    ensures
        r == (a@ == b@),
{
    if a.len() != b.len() {
        return false;
    }
    let mut i: usize = 0;
    while i < a.len()
        invariant
            a@.len() == b@.len(),
            0 <= i <= a@.len(),
            forall|j: int| 0 <= j < i ==> a@[j] == b@[j],
        decreases a@.len() - i,
    {
        if a[i] != b[i] {
            return false;
        }
        i = i + 1;
    }
    assert(a@ =~= b@);
    true
}

/// Compares two byte vectors.
pub fn bytes_eq_vec(a: &Vec<u8>, b: &Vec<u8>) -> (r: bool)
    ensures
        r == (a@ == b@),
{
    bytes_eq(a.as_slice(), b.as_slice())
}

/// Copies a byte string.
pub fn copy_bytes(a: &Vec<u8>) -> (r: Vec<u8>)
    ensures
        r@ == a@,
{
    let r = a.clone();
    assert(r@ =~= a@);
    r
}

/// Copies a list of peer ids.
pub fn copy_ids(a: &Vec<u32>) -> (r: Vec<u32>)
    ensures
        r@ == a@,
{
    let r = a.clone();
    assert(r@ =~= a@);
    r
}

/// The byte strings held in a list of byte vectors, in order.
pub open spec fn byte_seqs(v: Seq<Vec<u8>>) -> Seq<Seq<u8>> {
    v.map_values(|k: Vec<u8>| k@)
}

/// A map from byte strings to values.
pub struct BytesMap<V> {
    entries: Vec<(Vec<u8>, V)>,
}

impl<V: View> BytesMap<V> {
    /// No key occurs twice.
    pub closed spec fn wf(&self) -> bool {
        forall|i: int, j: int|
            0 <= i < self.entries@.len() && 0 <= j < self.entries@.len() && i != j
                ==> #[trigger] self.entries@[i].0@ != #[trigger] self.entries@[j].0@
    }

    pub closed spec fn has(&self, k: Seq<u8>) -> bool {
        exists|i: int| 0 <= i < self.entries@.len() && #[trigger] self.entries@[i].0@ == k
    }

    pub closed spec fn index_of(&self, k: Seq<u8>) -> int {
        choose|i: int| 0 <= i < self.entries@.len() && #[trigger] self.entries@[i].0@ == k
    }

    pub closed spec fn map(&self) -> Map<Seq<u8>, V::V> {
        Map::new(|k: Seq<u8>| self.has(k), |k: Seq<u8>| self.entries@[self.index_of(k)].1@)
    }

    /// The keys in the order in which the map keeps them.
    pub closed spec fn key_seq(&self) -> Seq<Seq<u8>> {
        self.entries@.map_values(|e: (Vec<u8>, V)| e.0@)
    }

    proof fn lemma_index(&self, i: int)
        requires
            self.wf(),
            0 <= i < self.entries@.len(),
        ensures
            self.has(self.entries@[i].0@),
            self.index_of(self.entries@[i].0@) == i,
            self.map().dom().contains(self.entries@[i].0@),
            self.map()[self.entries@[i].0@] == self.entries@[i].1@,
    {
        let k = self.entries@[i].0@;
        assert(self.has(k));
        let j = self.index_of(k);
        assert(self.entries@[j].0@ == k);
    }

    proof fn lemma_key_seq(&self)
        requires
            self.wf(),
        ensures
            self.key_seq().no_duplicates(),
            forall|k: Seq<u8>| self.map().dom().contains(k) <==> self.key_seq().contains(k),
    {
        assert forall|i: int, j: int|
            0 <= i < self.key_seq().len() && 0 <= j < self.key_seq().len() && i != j implies self.key_seq()[i]
            != self.key_seq()[j] by {
            assert(self.key_seq()[i] == self.entries@[i].0@);
            assert(self.key_seq()[j] == self.entries@[j].0@);
        }
        assert forall|k: Seq<u8>| self.map().dom().contains(k) <==> self.key_seq().contains(k) by {
            if self.map().dom().contains(k) {
                let i = self.index_of(k);
                assert(self.key_seq()[i] == k);
            }
            if self.key_seq().contains(k) {
                let i = choose|i: int| 0 <= i < self.key_seq().len() && self.key_seq()[i] == k;
                assert(self.entries@[i].0@ == k);
            }
        }
    }

    /// An empty map.
    pub fn new() -> (r: Self)
        ensures
            r.wf(),
            r.map() == Map::<Seq<u8>, V::V>::empty(),
    {
        let r = BytesMap { entries: Vec::new() };
        assert(r.map() =~= Map::<Seq<u8>, V::V>::empty());
        r
    }

    /// Number of keys.
    pub fn len(&self) -> (r: usize)
        requires
            self.wf(),
        ensures
            r == self.map().dom().len(),
            r == self.key_seq().len(),
    {
        proof {
            self.lemma_key_seq();
            self.key_seq().unique_seq_to_set();
            assert(self.key_seq().to_set() =~= self.map().dom());
        }
        self.entries.len()
    }

    /// The position of `k`, when it is a key.
    fn find(&self, k: &[u8]) -> (r: Option<usize>)
        requires
            self.wf(),
        ensures
            r matches Some(i) ==> i < self.entries@.len() && self.entries@[i as int].0@ == k@,
            r is None ==> !self.map().dom().contains(k@),
    {
        let mut i: usize = 0;
        while i < self.entries.len()
            invariant
                0 <= i <= self.entries@.len(),
                forall|j: int| 0 <= j < i ==> self.entries@[j].0@ != k@,
            decreases self.entries@.len() - i,
        {
            if bytes_eq(self.entries[i].0.as_slice(), k) {
                return Some(i);
            }
            i = i + 1;
        }
        None
    }

    /// Whether `k` is a key.
    pub fn contains_key(&self, k: &[u8]) -> (r: bool)
        requires
            self.wf(),
        ensures
            r == self.map().dom().contains(k@),
    {
        match self.find(k) {
            Some(i) => {
                proof {
                    self.lemma_index(i as int);
                }
                true
            },
            None => false,
        }
    }

    /// The value of `k`, when it is a key.
    pub fn get(&self, k: &[u8]) -> (r: Option<&V>)
        requires
            self.wf(),
        ensures
            r matches Some(v) ==> self.map().dom().contains(k@) && v@ == self.map()[k@],
            r is None ==> !self.map().dom().contains(k@),
    {
        match self.find(k) {
            Some(i) => {
                proof {
                    self.lemma_index(i as int);
                }
                Some(&self.entries[i].1)
            },
            None => None,
        }
    }

    /// Sets the value of `k`: in place when it is a key, as a new last key otherwise.
    pub fn insert(&mut self, k: Vec<u8>, v: V)
        requires
            old(self).wf(),
        ensures
            final(self).wf(),
            final(self).map() == old(self).map().insert(k@, v@),
            old(self).map().dom().contains(k@) ==> final(self).key_seq() == old(self).key_seq(),
            !old(self).map().dom().contains(k@) ==> final(self).key_seq() == old(self).key_seq().push(k@),
    {
        let ghost kv = k@;
        let ghost vv = v@;
        let ghost old_map = self.map();
        match self.find(k.as_slice()) {
            Some(i) => {
                proof {
                    self.lemma_index(i as int);
                }
                let ghost pre = *self;
                self.entries.set(i, (k, v));
                proof {
                    assert(self.wf()) by {
                        assert forall|a: int, b: int|
                            0 <= a < self.entries@.len() && 0 <= b < self.entries@.len() && a != b implies #[trigger] self.entries@[a].0@
                            != #[trigger] self.entries@[b].0@ by {
                            assert(pre.entries@[a].0@ != pre.entries@[b].0@);
                        }
                    }
                    assert(self.map() =~= old_map.insert(kv, vv)) by {
                        assert forall|q: Seq<u8>| self.has(q) <==> (pre.has(q) || q == kv) by {
                            if self.has(q) {
                                let j = choose|j: int|
                                    0 <= j < self.entries@.len() && #[trigger] self.entries@[j].0@ == q;
                                if j != i {
                                    assert(pre.entries@[j].0@ == q);
                                }
                            }
                            if pre.has(q) {
                                let j = choose|j: int|
                                    0 <= j < pre.entries@.len() && #[trigger] pre.entries@[j].0@ == q;
                                assert(self.entries@[j].0@ == q);
                            }
                            if q == kv {
                                assert(self.entries@[i as int].0@ == q);
                            }
                        }
                        assert forall|q: Seq<u8>| #[trigger] self.has(q) implies self.map()[q] == old_map.insert(
                            kv,
                            vv,
                        )[q] by {
                            let j = self.index_of(q);
                            self.lemma_index(j);
                            if q != kv {
                                assert(j != i);
                                pre.lemma_index(j);
                            }
                        }
                    }
                    assert(self.key_seq() =~= pre.key_seq());
                }
            },
            None => {
                let ghost pre = *self;
                self.entries.push((k, v));
                proof {
                    let n = pre.entries@.len() as int;
                    assert(self.wf()) by {
                        assert forall|a: int, b: int|
                            0 <= a < self.entries@.len() && 0 <= b < self.entries@.len() && a != b implies #[trigger] self.entries@[a].0@
                            != #[trigger] self.entries@[b].0@ by {
                            if a < n && b < n {
                                assert(pre.entries@[a].0@ != pre.entries@[b].0@);
                            } else if a < n {
                                pre.lemma_index(a);
                            } else {
                                pre.lemma_index(b);
                            }
                        }
                    }
                    assert(self.map() =~= old_map.insert(kv, vv)) by {
                        assert forall|q: Seq<u8>| self.has(q) <==> (pre.has(q) || q == kv) by {
                            if self.has(q) {
                                let j = choose|j: int|
                                    0 <= j < self.entries@.len() && #[trigger] self.entries@[j].0@ == q;
                                if j != n {
                                    assert(pre.entries@[j].0@ == q);
                                }
                            }
                            if pre.has(q) {
                                let j = choose|j: int|
                                    0 <= j < pre.entries@.len() && #[trigger] pre.entries@[j].0@ == q;
                                assert(self.entries@[j].0@ == q);
                            }
                            if q == kv {
                                assert(self.entries@[n].0@ == q);
                            }
                        }
                        assert forall|q: Seq<u8>| #[trigger] self.has(q) implies self.map()[q] == old_map.insert(
                            kv,
                            vv,
                        )[q] by {
                            let j = self.index_of(q);
                            self.lemma_index(j);
                            if q != kv {
                                assert(j != n);
                                pre.lemma_index(j);
                            }
                        }
                    }
                    assert(self.key_seq() =~= pre.key_seq().push(kv));
                }
            },
        }
    }

    /// Removes `k` when it is a key.
    pub fn remove(&mut self, k: &[u8])
        requires
            old(self).wf(),
        ensures
            final(self).wf(),
            final(self).map() == old(self).map().remove(k@),
    {
        let ghost old_map = self.map();
        match self.find(k) {
            None => {
                assert(self.map() =~= old_map.remove(k@));
            },
            Some(i) => {
                let ghost pre = *self;
                proof {
                    pre.lemma_index(i as int);
                }
                self.entries.remove(i);
                proof {
                    assert(self.wf()) by {
                        assert forall|a: int, b: int|
                            0 <= a < self.entries@.len() && 0 <= b < self.entries@.len() && a != b implies #[trigger] self.entries@[a].0@
                            != #[trigger] self.entries@[b].0@ by {
                            let a2 = if a < i { a } else { a + 1 };
                            let b2 = if b < i { b } else { b + 1 };
                            assert(pre.entries@[a2].0@ != pre.entries@[b2].0@);
                        }
                    }
                    assert(self.map() =~= old_map.remove(k@)) by {
                        assert forall|q: Seq<u8>| self.has(q) <==> (pre.has(q) && q != k@) by {
                            if self.has(q) {
                                let j = choose|j: int|
                                    0 <= j < self.entries@.len() && #[trigger] self.entries@[j].0@ == q;
                                let j2 = if j < i { j } else { j + 1 };
                                assert(pre.entries@[j2].0@ == q);
                                assert(j2 != i);
                                pre.lemma_index(j2);
                            }
                            if pre.has(q) && q != k@ {
                                let j = choose|j: int|
                                    0 <= j < pre.entries@.len() && #[trigger] pre.entries@[j].0@ == q;
                                assert(j != i);
                                let j2 = if j < i { j } else { j - 1 };
                                assert(self.entries@[j2].0@ == q);
                            }
                        }
                        assert forall|q: Seq<u8>| #[trigger] self.has(q) implies self.map()[q] == old_map.remove(
                            k@,
                        )[q] by {
                            let j = self.index_of(q);
                            self.lemma_index(j);
                            let j2 = if j < i { j } else { j + 1 };
                            assert(pre.entries@[j2].0@ == q);
                            pre.lemma_index(j2);
                        }
                    }
                }
            },
        }
    }

    /// Two maps whose entries look the same are the same map.
    proof fn lemma_same_views(&self, other: &Self)
        requires
            self.wf(),
            self.entries@.len() == other.entries@.len(),
            forall|j: int|
                0 <= j < self.entries@.len() ==> (#[trigger] other.entries@[j]).0@ == self.entries@[j].0@
                    && other.entries@[j].1@ == self.entries@[j].1@,
        ensures
            other.wf(),
            other.map() == self.map(),
            other.key_seq() == self.key_seq(),
    {
        assert(other.wf()) by {
            assert forall|a: int, b: int|
                0 <= a < other.entries@.len() && 0 <= b < other.entries@.len() && a != b implies #[trigger] other.entries@[a].0@
                != #[trigger] other.entries@[b].0@ by {
                assert(self.entries@[a].0@ != self.entries@[b].0@);
            }
        }
        assert forall|q: Seq<u8>| other.has(q) <==> self.has(q) by {
            if other.has(q) {
                let j = choose|j: int| 0 <= j < other.entries@.len() && #[trigger] other.entries@[j].0@ == q;
                assert(self.entries@[j].0@ == q);
            }
            if self.has(q) {
                let j = choose|j: int| 0 <= j < self.entries@.len() && #[trigger] self.entries@[j].0@ == q;
                assert(other.entries@[j].0@ == q);
            }
        }
        assert forall|q: Seq<u8>| #[trigger] other.has(q) implies other.map()[q] == self.map()[q] by {
            let j = other.index_of(q);
            other.lemma_index(j);
            self.lemma_index(j);
        }
        assert(other.map() =~= self.map());
        assert(other.key_seq() =~= self.key_seq());
    }

    /// The keys, each once, in the order in which the map keeps them.
    pub fn keys(&self) -> (r: Vec<Vec<u8>>)
        requires
            self.wf(),
        ensures
            r@.map_values(|k: Vec<u8>| k@) == self.key_seq(),
            self.key_seq().no_duplicates(),
            forall|k: Seq<u8>| self.map().dom().contains(k) <==> self.key_seq().contains(k),
    {
        proof {
            self.lemma_key_seq();
        }
        let mut r: Vec<Vec<u8>> = Vec::new();
        let mut i: usize = 0;
        while i < self.entries.len()
            invariant
                0 <= i <= self.entries@.len(),
                r@.map_values(|k: Vec<u8>| k@) == self.key_seq().take(i as int),
            decreases self.entries@.len() - i,
        {
            let k = copy_bytes(&self.entries[i].0);
            let ghost old_r = r@;
            r.push(k);
            proof {
                assert(self.key_seq()[i as int] == self.entries@[i as int].0@);
                assert(r@.map_values(|k: Vec<u8>| k@) =~= old_r.map_values(|k: Vec<u8>| k@).push(k@));
                assert(r@.map_values(|k: Vec<u8>| k@) =~= self.key_seq().take(i + 1));
            }
            i = i + 1;
        }
        assert(self.key_seq().take(self.entries@.len() as int) =~= self.key_seq());
        r
    }
}

impl BytesMap<Vec<u32>> {
    /// A copy of the map.
    pub fn duplicate(&self) -> (r: Self)
        requires
            self.wf(),
        ensures
            r.wf(),
            r.map() == self.map(),
            r.key_seq() == self.key_seq(),
    {
        let mut entries: Vec<(Vec<u8>, Vec<u32>)> = Vec::new();
        let mut i: usize = 0;
        while i < self.entries.len()
            invariant
                0 <= i <= self.entries@.len(),
                entries@.len() == i,
                forall|j: int|
                    0 <= j < i ==> (#[trigger] entries@[j]).0@ == self.entries@[j].0@ && entries@[j].1@
                        == self.entries@[j].1@,
            decreases self.entries@.len() - i,
        {
            entries.push((copy_bytes(&self.entries[i].0), copy_ids(&self.entries[i].1)));
            i = i + 1;
        }
        let r = BytesMap { entries };
        proof {
            self.lemma_same_views(&r);
        }
        r
    }
}

impl BytesMap<crate::types::FileMetaInfo> {
    /// A copy of the map.
    pub fn duplicate(&self) -> (r: Self)
        requires
            self.wf(),
        ensures
            r.wf(),
            r.map() == self.map(),
            r.key_seq() == self.key_seq(),
    {
        let mut entries: Vec<(Vec<u8>, crate::types::FileMetaInfo)> = Vec::new();
        let mut i: usize = 0;
        while i < self.entries.len()
            invariant
                0 <= i <= self.entries@.len(),
                entries@.len() == i,
                forall|j: int|
                    0 <= j < i ==> (#[trigger] entries@[j]).0@ == self.entries@[j].0@ && entries@[j].1@
                        == self.entries@[j].1@,
            decreases self.entries@.len() - i,
        {
            entries.push((copy_bytes(&self.entries[i].0), self.entries[i].1.duplicate()));
            i = i + 1;
        }
        let r = BytesMap { entries };
        proof {
            self.lemma_same_views(&r);
        }
        r
    }
}

impl BytesMap<Vec<u8>> {
    /// A copy of the map.
    pub fn duplicate(&self) -> (r: Self)
        requires
            self.wf(),
        ensures
            r.wf(),
            r.map() == self.map(),
            r.key_seq() == self.key_seq(),
    {
        let mut entries: Vec<(Vec<u8>, Vec<u8>)> = Vec::new();
        let mut i: usize = 0;
        while i < self.entries.len()
            invariant
                0 <= i <= self.entries@.len(),
                entries@.len() == i,
                forall|j: int|
                    0 <= j < i ==> (#[trigger] entries@[j]).0@ == self.entries@[j].0@ && entries@[j].1@
                        == self.entries@[j].1@,
            decreases self.entries@.len() - i,
        {
            entries.push((copy_bytes(&self.entries[i].0), copy_bytes(&self.entries[i].1)));
            i = i + 1;
        }
        let r = BytesMap { entries };
        proof {
            self.lemma_same_views(&r);
        }
        r
    }
}

/// A map from peer ids to values.
pub struct IdMap<V> {
    entries: Vec<(u32, V)>,
}

impl<V: View> IdMap<V> {
    /// No key occurs twice.
    pub closed spec fn wf(&self) -> bool {
        forall|i: int, j: int|
            0 <= i < self.entries@.len() && 0 <= j < self.entries@.len() && i != j
                ==> #[trigger] self.entries@[i].0 != #[trigger] self.entries@[j].0
    }

    pub closed spec fn has(&self, k: u32) -> bool {
        exists|i: int| 0 <= i < self.entries@.len() && #[trigger] self.entries@[i].0 == k
    }

    pub closed spec fn index_of(&self, k: u32) -> int {
        choose|i: int| 0 <= i < self.entries@.len() && #[trigger] self.entries@[i].0 == k
    }

    pub closed spec fn map(&self) -> Map<u32, V::V> {
        Map::new(|k: u32| self.has(k), |k: u32| self.entries@[self.index_of(k)].1@)
    }

    /// The keys in the order in which the map keeps them.
    pub closed spec fn key_seq(&self) -> Seq<u32> {
        self.entries@.map_values(|e: (u32, V)| e.0)
    }

    proof fn lemma_index(&self, i: int)
        requires
            self.wf(),
            0 <= i < self.entries@.len(),
        ensures
            self.has(self.entries@[i].0),
            self.index_of(self.entries@[i].0) == i,
            self.map().dom().contains(self.entries@[i].0),
            self.map()[self.entries@[i].0] == self.entries@[i].1@,
    {
        let k = self.entries@[i].0;
        assert(self.has(k));
        let j = self.index_of(k);
        assert(self.entries@[j].0 == k);
    }

    proof fn lemma_key_seq(&self)
        requires
            self.wf(),
        ensures
            self.key_seq().no_duplicates(),
            forall|k: u32| self.map().dom().contains(k) <==> self.key_seq().contains(k),
    {
        assert forall|i: int, j: int|
            0 <= i < self.key_seq().len() && 0 <= j < self.key_seq().len() && i != j implies self.key_seq()[i]
            != self.key_seq()[j] by {
            assert(self.key_seq()[i] == self.entries@[i].0);
            assert(self.key_seq()[j] == self.entries@[j].0);
        }
        assert forall|k: u32| self.map().dom().contains(k) <==> self.key_seq().contains(k) by {
            if self.map().dom().contains(k) {
                let i = self.index_of(k);
                assert(self.key_seq()[i] == k);
            }
            if self.key_seq().contains(k) {
                let i = choose|i: int| 0 <= i < self.key_seq().len() && self.key_seq()[i] == k;
                assert(self.entries@[i].0 == k);
            }
        }
    }

    /// An empty map.
    pub fn new() -> (r: Self)
        ensures
            r.wf(),
            r.map() == Map::<u32, V::V>::empty(),
    {
        let r = IdMap { entries: Vec::new() };
        assert(r.map() =~= Map::<u32, V::V>::empty());
        r
    }

    /// Number of keys.
    pub fn len(&self) -> (r: usize)
        requires
            self.wf(),
        ensures
            r == self.map().dom().len(),
            r == self.key_seq().len(),
    {
        proof {
            self.lemma_key_seq();
            self.key_seq().unique_seq_to_set();
            assert(self.key_seq().to_set() =~= self.map().dom());
        }
        self.entries.len()
    }

    /// The position of `k`, when it is a key.
    fn find(&self, k: u32) -> (r: Option<usize>)
        requires
            self.wf(),
        ensures
            r matches Some(i) ==> i < self.entries@.len() && self.entries@[i as int].0 == k,
            r is None ==> !self.map().dom().contains(k),
    {
        let mut i: usize = 0;
        while i < self.entries.len()
            invariant
                0 <= i <= self.entries@.len(),
                forall|j: int| 0 <= j < i ==> self.entries@[j].0 != k,
            decreases self.entries@.len() - i,
        {
            if self.entries[i].0 == k {
                return Some(i);
            }
            i = i + 1;
        }
        None
    }

    /// Whether `k` is a key.
    pub fn contains_key(&self, k: u32) -> (r: bool)
        requires
            self.wf(),
        ensures
            r == self.map().dom().contains(k),
    {
        match self.find(k) {
            Some(i) => {
                proof {
                    self.lemma_index(i as int);
                }
                true
            },
            None => false,
        }
    }

    /// The value of `k`, when it is a key.
    pub fn get(&self, k: u32) -> (r: Option<&V>)
        requires
            self.wf(),
        ensures
            r matches Some(v) ==> self.map().dom().contains(k) && v@ == self.map()[k],
            r is None ==> !self.map().dom().contains(k),
    {
        match self.find(k) {
            Some(i) => {
                proof {
                    self.lemma_index(i as int);
                }
                Some(&self.entries[i].1)
            },
            None => None,
        }
    }

    /// Sets the value of `k`: in place when it is a key, as a new last key otherwise.
    pub fn insert(&mut self, k: u32, v: V)
        requires
            old(self).wf(),
        ensures
            final(self).wf(),
            final(self).map() == old(self).map().insert(k, v@),
            old(self).map().dom().contains(k) ==> final(self).key_seq() == old(self).key_seq(),
            !old(self).map().dom().contains(k) ==> final(self).key_seq() == old(self).key_seq().push(k),
    {
        let ghost kv = k;
        let ghost vv = v@;
        let ghost old_map = self.map();
        match self.find(k) {
            Some(i) => {
                proof {
                    self.lemma_index(i as int);
                }
                let ghost pre = *self;
                self.entries.set(i, (k, v));
                proof {
                    assert(self.wf()) by {
                        assert forall|a: int, b: int|
                            0 <= a < self.entries@.len() && 0 <= b < self.entries@.len() && a != b implies #[trigger] self.entries@[a].0
                            != #[trigger] self.entries@[b].0 by {
                            assert(pre.entries@[a].0 != pre.entries@[b].0);
                        }
                    }
                    assert(self.map() =~= old_map.insert(kv, vv)) by {
                        assert forall|q: u32| self.has(q) <==> (pre.has(q) || q == kv) by {
                            if self.has(q) {
                                let j = choose|j: int|
                                    0 <= j < self.entries@.len() && #[trigger] self.entries@[j].0 == q;
                                if j != i {
                                    assert(pre.entries@[j].0 == q);
                                }
                            }
                            if pre.has(q) {
                                let j = choose|j: int|
                                    0 <= j < pre.entries@.len() && #[trigger] pre.entries@[j].0 == q;
                                assert(self.entries@[j].0 == q);
                            }
                            if q == kv {
                                assert(self.entries@[i as int].0 == q);
                            }
                        }
                        assert forall|q: u32| #[trigger] self.has(q) implies self.map()[q] == old_map.insert(
                            kv,
                            vv,
                        )[q] by {
                            let j = self.index_of(q);
                            self.lemma_index(j);
                            if q != kv {
                                assert(j != i);
                                pre.lemma_index(j);
                            }
                        }
                    }
                    assert(self.key_seq() =~= pre.key_seq());
                }
            },
            None => {
                let ghost pre = *self;
                self.entries.push((k, v));
                proof {
                    let n = pre.entries@.len() as int;
                    assert(self.wf()) by {
                        assert forall|a: int, b: int|
                            0 <= a < self.entries@.len() && 0 <= b < self.entries@.len() && a != b implies #[trigger] self.entries@[a].0
                            != #[trigger] self.entries@[b].0 by {
                            if a < n && b < n {
                                assert(pre.entries@[a].0 != pre.entries@[b].0);
                            } else if a < n {
                                pre.lemma_index(a);
                            } else {
                                pre.lemma_index(b);
                            }
                        }
                    }
                    assert(self.map() =~= old_map.insert(kv, vv)) by {
                        assert forall|q: u32| self.has(q) <==> (pre.has(q) || q == kv) by {
                            if self.has(q) {
                                let j = choose|j: int|
                                    0 <= j < self.entries@.len() && #[trigger] self.entries@[j].0 == q;
                                if j != n {
                                    assert(pre.entries@[j].0 == q);
                                }
                            }
                            if pre.has(q) {
                                let j = choose|j: int|
                                    0 <= j < pre.entries@.len() && #[trigger] pre.entries@[j].0 == q;
                                assert(self.entries@[j].0 == q);
                            }
                            if q == kv {
                                assert(self.entries@[n].0 == q);
                            }
                        }
                        assert forall|q: u32| #[trigger] self.has(q) implies self.map()[q] == old_map.insert(
                            kv,
                            vv,
                        )[q] by {
                            let j = self.index_of(q);
                            self.lemma_index(j);
                            if q != kv {
                                assert(j != n);
                                pre.lemma_index(j);
                            }
                        }
                    }
                    assert(self.key_seq() =~= pre.key_seq().push(kv));
                }
            },
        }
    }

    /// Removes `k` when it is a key.
    pub fn remove(&mut self, k: u32)
        requires
            old(self).wf(),
        ensures
            final(self).wf(),
            final(self).map() == old(self).map().remove(k),
    {
        let ghost old_map = self.map();
        match self.find(k) {
            None => {
                assert(self.map() =~= old_map.remove(k));
            },
            Some(i) => {
                let ghost pre = *self;
                proof {
                    pre.lemma_index(i as int);
                }
                self.entries.remove(i);
                proof {
                    assert(self.wf()) by {
                        assert forall|a: int, b: int|
                            0 <= a < self.entries@.len() && 0 <= b < self.entries@.len() && a != b implies #[trigger] self.entries@[a].0
                            != #[trigger] self.entries@[b].0 by {
                            let a2 = if a < i { a } else { a + 1 };
                            let b2 = if b < i { b } else { b + 1 };
                            assert(pre.entries@[a2].0 != pre.entries@[b2].0);
                        }
                    }
                    assert(self.map() =~= old_map.remove(k)) by {
                        assert forall|q: u32| self.has(q) <==> (pre.has(q) && q != k) by {
                            if self.has(q) {
                                let j = choose|j: int|
                                    0 <= j < self.entries@.len() && #[trigger] self.entries@[j].0 == q;
                                let j2 = if j < i { j } else { j + 1 };
                                assert(pre.entries@[j2].0 == q);
                                assert(j2 != i);
                                pre.lemma_index(j2);
                            }
                            if pre.has(q) && q != k {
                                let j = choose|j: int|
                                    0 <= j < pre.entries@.len() && #[trigger] pre.entries@[j].0 == q;
                                assert(j != i);
                                let j2 = if j < i { j } else { j - 1 };
                                assert(self.entries@[j2].0 == q);
                            }
                        }
                        assert forall|q: u32| #[trigger] self.has(q) implies self.map()[q] == old_map.remove(
                            k,
                        )[q] by {
                            let j = self.index_of(q);
                            self.lemma_index(j);
                            let j2 = if j < i { j } else { j + 1 };
                            assert(pre.entries@[j2].0 == q);
                            pre.lemma_index(j2);
                        }
                    }
                }
            },
        }
    }
    /// Two maps whose entries look the same are the same map.
    proof fn lemma_same_views(&self, other: &Self)
        requires
            self.wf(),
            self.entries@.len() == other.entries@.len(),
            forall|j: int|
                0 <= j < self.entries@.len() ==> (#[trigger] other.entries@[j]).0 == self.entries@[j].0
                    && other.entries@[j].1@ == self.entries@[j].1@,
        ensures
            other.wf(),
            other.map() == self.map(),
            other.key_seq() == self.key_seq(),
    {
        assert(other.wf()) by {
            assert forall|a: int, b: int|
                0 <= a < other.entries@.len() && 0 <= b < other.entries@.len() && a != b implies #[trigger] other.entries@[a].0
                != #[trigger] other.entries@[b].0 by {
                assert(self.entries@[a].0 != self.entries@[b].0);
            }
        }
        assert forall|q: u32| other.has(q) <==> self.has(q) by {
            if other.has(q) {
                let j = choose|j: int| 0 <= j < other.entries@.len() && #[trigger] other.entries@[j].0 == q;
                assert(self.entries@[j].0 == q);
            }
            if self.has(q) {
                let j = choose|j: int| 0 <= j < self.entries@.len() && #[trigger] self.entries@[j].0 == q;
                assert(other.entries@[j].0 == q);
            }
        }
        assert forall|q: u32| #[trigger] other.has(q) implies other.map()[q] == self.map()[q] by {
            let j = other.index_of(q);
            other.lemma_index(j);
            self.lemma_index(j);
        }
        assert(other.map() =~= self.map());
        assert(other.key_seq() =~= self.key_seq());
    }

}

impl IdMap<crate::peers_info_table::PeerAddr> {
    /// A copy of the map.
    pub fn duplicate(&self) -> (r: Self)
        requires
            self.wf(),
        ensures
            r.wf(),
            r.map() == self.map(),
    {
        let mut entries: Vec<(u32, crate::peers_info_table::PeerAddr)> = Vec::new();
        let mut i: usize = 0;
        while i < self.entries.len()
            invariant
                0 <= i <= self.entries@.len(),
                entries@.len() == i,
                forall|j: int|
                    0 <= j < i ==> (#[trigger] entries@[j]).0 == self.entries@[j].0 && entries@[j].1@
                        == self.entries@[j].1@,
            decreases self.entries@.len() - i,
        {
            let a = &self.entries[i].1;
            entries.push((self.entries[i].0, crate::peers_info_table::PeerAddr { ip: copy_bytes(&a.ip), port: a.port }));
            i = i + 1;
        }
        let r = IdMap { entries };
        proof {
            self.lemma_same_views(&r);
        }
        r
    }
}

} // verus!
