//! Byte strings and maps keyed by byte strings.
use vstd::prelude::*;

verus! {

/// The byte strings held as values of `m`.
pub open spec fn view_values(m: Map<Seq<u8>, Vec<u8>>) -> Map<Seq<u8>, Seq<u8>> {
    m.map_values(|v: Vec<u8>| v@)
}

/// The byte strings of `s`, in order.
pub open spec fn views_of(s: Seq<Vec<u8>>) -> Seq<Seq<u8>> {
    s.map_values(|v: Vec<u8>| v@)
}


/// Whether two byte strings are equal.
pub fn bytes_eq(a: &Vec<u8>, b: &Vec<u8>) -> (r: bool)
    ensures
        r == (a@ == b@),
{
    if a.len() != b.len() {
        return false;
    }
    let mut i: usize = 0;
    while i < a.len()
        invariant
            a@.len() == b@.len(),
            i <= a@.len(),
            forall|j: int| 0 <= j < i ==> a@[j] == b@[j],
        decreases a@.len() - i,
    {
        if a[i] != b[i] {
            return false;
        }
        i = i + 1;
    }
    assert(a@ =~= b@);
    true
}

/// Copies a byte string.
pub fn copy_bytes(v: &Vec<u8>) -> (r: Vec<u8>)
    ensures
        r@ == v@,
{
    let r = v.clone();
    assert(r@ =~= v@);
    r
}

/// A map keyed by byte strings, kept as a list of entries with distinct keys
/// in insertion order.
#[derive(Debug, Clone, PartialEq, Eq)]
pub struct ByteMap<V> {
    pub entries: Vec<(Vec<u8>, V)>,
}

impl<V> ByteMap<V> {
    /// No key occurs twice.
    pub open spec fn wf(&self) -> bool {
        forall|i: int, j: int| 0 <= i < j < self.entries@.len() ==>
            (#[trigger] self.entries@[i]).0@ != (#[trigger] self.entries@[j]).0@
    }

    /// The keys in insertion order.
    pub open spec fn keys(&self) -> Seq<Seq<u8>> {
        self.entries@.map_values(|e: (Vec<u8>, V)| e.0@)
    }

    pub open spec fn has(&self, k: Seq<u8>) -> bool {
        exists|i: int| 0 <= i < self.entries@.len() && (#[trigger] self.entries@[i]).0@ == k
    }

    /// The position of key `k`.
    pub open spec fn index_of(&self, k: Seq<u8>) -> int {
        choose|i: int| 0 <= i < self.entries@.len() && (#[trigger] self.entries@[i]).0@ == k
    }

    /// The map from keys to values.
    pub open spec fn view(&self) -> Map<Seq<u8>, V> {
        Map::new(|k: Seq<u8>| self.has(k), |k: Seq<u8>| self.entries@[self.index_of(k)].1)
    }

    pub proof fn lemma_index_of(&self, i: int)
        requires
            self.wf(),
            0 <= i < self.entries@.len(),
        ensures
            self.has(self.entries@[i].0@),
            self.index_of(self.entries@[i].0@) == i,
            self@.contains_key(self.entries@[i].0@),
            self@[self.entries@[i].0@] == self.entries@[i].1,
    {
        let k = self.entries@[i].0@;
        assert(self.has(k));
        let j = self.index_of(k);
        if j != i {
            if i < j {
                assert(self.entries@[i].0@ != self.entries@[j].0@);
            } else {
                assert(self.entries@[j].0@ != self.entries@[i].0@);
            }
        }
    }

    /// A well-formed map has as many keys as entries.
    pub proof fn lemma_len(&self)
        requires
            self.wf(),
        ensures
            self@.dom().finite(),
            self@.dom().len() == self.entries@.len(),
    {
        let ks = self.keys();
        assert(ks.no_duplicates()) by {
            assert forall|i: int, j: int| 0 <= i < ks.len() && 0 <= j < ks.len() && i != j implies ks[i] != ks[j] by {
                if i < j {
                    assert(self.entries@[i].0@ != self.entries@[j].0@);
                } else {
                    assert(self.entries@[j].0@ != self.entries@[i].0@);
                }
            }
        }
        assert forall|k: Seq<u8>| #[trigger] self@.dom().contains(k) <==> ks.to_set().contains(k) by {
            if self.has(k) {
                let i = self.index_of(k);
                assert(ks[i] == k);
            }
            if ks.to_set().contains(k) {
                let i = choose|i: int| 0 <= i < ks.len() && ks[i] == k;
                assert(self.entries@[i].0@ == k);
            }
        }
        assert(self@.dom() =~= ks.to_set());
        ks.unique_seq_to_set();
    }

    pub fn new() -> (m: Self)
        ensures
            m.wf(),
            m@ == Map::<Seq<u8>, V>::empty(),
            m.entries@.len() == 0,
    {
        let m = ByteMap { entries: Vec::new() };
        assert(m@ =~= Map::<Seq<u8>, V>::empty());
        m
    }

    /// The position of key `k`, if present.
    pub fn find(&self, k: &Vec<u8>) -> (r: Option<usize>)
        requires
            self.wf(),
        ensures
            match r {
                Some(i) => i < self.entries@.len() && self.entries@[i as int].0@ == k@ && self.index_of(k@) == i,
                None => !self.has(k@),
            },
    {
        let mut i: usize = 0;
        while i < self.entries.len()
            invariant
                self.wf(),
                i <= self.entries@.len(),
                forall|j: int| 0 <= j < i ==> (#[trigger] self.entries@[j]).0@ != k@,
            decreases self.entries@.len() - i,
        {
            if bytes_eq(&self.entries[i].0, k) {
                proof { self.lemma_index_of(i as int); }
                return Some(i);
            }
            i = i + 1;
        }
        None
    }

    /// Whether no key occurs twice: `self.wf()`, checked.
    pub fn keys_distinct(&self) -> (b: bool)
        ensures
            b == self.wf(),
    {
        let n = self.entries.len();
        let mut j: usize = 0;
        while j < n
            invariant
                n == self.entries@.len(),
                j <= n,
                forall|a: int, c: int| 0 <= a < c < j ==>
                    (#[trigger] self.entries@[a]).0@ != (#[trigger] self.entries@[c]).0@,
            decreases n - j,
        {
            let mut i: usize = 0;
            while i < j
                invariant
                    n == self.entries@.len(),
                    i <= j < n,
                    forall|a: int| 0 <= a < i ==> (#[trigger] self.entries@[a]).0@ != self.entries@[j as int].0@,
                decreases j - i,
            {
                if bytes_eq(&self.entries[i].0, &self.entries[j].0) {
                    return false;
                }
                i = i + 1;
            }
            j = j + 1;
        }
        true
    }

    pub fn len(&self) -> (n: usize)
        requires
            self.wf(),
        ensures
            n == self.entries@.len(),
    {
        self.entries.len()
    }

    pub fn contains_key(&self, k: &Vec<u8>) -> (r: bool)
        requires
            self.wf(),
        ensures
            r == self@.contains_key(k@),
    {
        self.find(k).is_some()
    }

    /// The value of key `k`.
    pub fn get(&self, k: &Vec<u8>) -> (r: Option<&V>)
        requires
            self.wf(),
        ensures
            match r {
                Some(v) => self@.contains_key(k@) && *v == self@[k@],
                None => !self@.contains_key(k@),
            },
    {
        match self.find(k) {
            Some(i) => Some(&self.entries[i].1),
            None => None,
        }
    }

    /// Sets the value of key `k`: in place when present, as a new last entry otherwise.
    pub fn insert(&mut self, k: Vec<u8>, v: V)
        requires
            old(self).wf(),
        ensures
            final(self).wf(),
            final(self)@ == old(self)@.insert(k@, v),
            old(self)@.contains_key(k@) ==> final(self).keys() == old(self).keys(),
            !old(self)@.contains_key(k@) ==> final(self).keys() == old(self).keys().push(k@),
    {
        match self.find(&k) {
            Some(i) => {
                let ghost old_e = self.entries@;
                self.entries.set(i, (k, v));
                proof {
                    assert(self.entries@ == old_e.update(i as int, self.entries@[i as int]));
                    assert forall|a: int, b: int| 0 <= a < b < self.entries@.len() implies
                        (#[trigger] self.entries@[a]).0@ != (#[trigger] self.entries@[b]).0@ by {
                        assert(old_e[a].0@ != old_e[b].0@);
                    }
                    assert forall|key: Seq<u8>| #[trigger] self@.contains_key(key) == old(self)@.insert(k@, v).contains_key(key)
                        && (self@.contains_key(key) ==> self@[key] == old(self)@.insert(k@, v)[key]) by {
                        if self.has(key) {
                            let j = self.index_of(key);
                            self.lemma_index_of(j);
                            if j != i { old(self).lemma_index_of(j); } else { old(self).lemma_index_of(j); }
                        }
                        if old(self).has(key) {
                            let j = old(self).index_of(key);
                            old(self).lemma_index_of(j);
                            self.lemma_index_of(j);
                        }
                    }
                    assert(self@ =~= old(self)@.insert(k@, v));
                    assert(self.keys() =~= old(self).keys());
                }
            },
            None => {
                let ghost kv = k@;
                self.entries.push((k, v));
                proof {
                    let n = self.entries@.len() - 1;
                    assert forall|a: int, b: int| 0 <= a < b < self.entries@.len() implies
                        (#[trigger] self.entries@[a]).0@ != (#[trigger] self.entries@[b]).0@ by {
                        if b == n {
                            if self.entries@[a].0@ == kv { assert(old(self).has(kv)) by { assert(old(self).entries@[a].0@ == kv); } }
                        } else {
                            assert(old(self).entries@[a].0@ != old(self).entries@[b].0@);
                        }
                    }
                    assert forall|key: Seq<u8>| #[trigger] self@.contains_key(key) == old(self)@.insert(kv, v).contains_key(key)
                        && (self@.contains_key(key) ==> self@[key] == old(self)@.insert(kv, v)[key]) by {
                        if self.has(key) {
                            let j = self.index_of(key);
                            self.lemma_index_of(j);
                            if j < n { old(self).lemma_index_of(j); }
                        }
                        if old(self).has(key) {
                            let j = old(self).index_of(key);
                            old(self).lemma_index_of(j);
                            self.lemma_index_of(j);
                        }
                        if key == kv { self.lemma_index_of(n); }
                    }
                    assert(self@ =~= old(self)@.insert(kv, v));
                    assert(self.keys() =~= old(self).keys().push(kv));
                }
            },
        }
    }

    /// Removes key `k`; the order of the other entries is kept.
    pub fn remove(&mut self, k: &Vec<u8>) -> (r: Option<V>)
        requires
            old(self).wf(),
        ensures
            final(self).wf(),
            final(self)@ == old(self)@.remove(k@),
            match r {
                Some(v) => old(self)@.contains_key(k@) && v == old(self)@[k@],
                None => !old(self)@.contains_key(k@),
            },
    {
        match self.find(k) {
            Some(i) => {
                let ghost old_e = self.entries@;
                let (_, v) = self.entries.remove(i);
                proof {
                    old(self).lemma_index_of(i as int);
                    assert(self.entries@ == old_e.remove(i as int));
                    assert forall|a: int, b: int| 0 <= a < b < self.entries@.len() implies
                        (#[trigger] self.entries@[a]).0@ != (#[trigger] self.entries@[b]).0@ by {
                        let oa = if a < i { a } else { a + 1 };
                        let ob = if b < i { b } else { b + 1 };
                        assert(old_e[oa].0@ != old_e[ob].0@);
                    }
                    assert forall|key: Seq<u8>| #[trigger] self@.contains_key(key) == old(self)@.remove(k@).contains_key(key)
                        && (self@.contains_key(key) ==> self@[key] == old(self)@.remove(k@)[key]) by {
                        if self.has(key) {
                            let j = self.index_of(key);
                            self.lemma_index_of(j);
                            let oj = if j < i { j } else { j + 1 };
                            assert(self.entries@[j] == old_e[oj]);
                            old(self).lemma_index_of(oj);
                            assert(oj != i);
                        }
                        if old(self).has(key) && key != k@ {
                            let oj = old(self).index_of(key);
                            old(self).lemma_index_of(oj);
                            assert(oj != i);
                            let j = if oj < i { oj } else { oj - 1 };
                            assert(self.entries@[j] == old_e[oj]);
                            self.lemma_index_of(j);
                        }
                    }
                    assert(self@ =~= old(self)@.remove(k@));
                }
                Some(v)
            },
            None => {
                assert(self@ =~= old(self)@.remove(k@));
                None
            },
        }
    }
}

} // verus!
