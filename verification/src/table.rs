use vstd::prelude::*;

verus! {

/// Keys that can be compared for equality in executable code.
pub trait KeyEq: Sized {
    fn same(&self, other: &Self) -> (r: bool)
        ensures
            r == (*self == *other),
    ;
}

/// A finite map kept as a vector of `(key, value)` entries with distinct keys.
pub struct Table<K, V> {
    pub entries: Vec<(K, V)>,
}

/// The position of `k` among the entries, if any.
pub open spec fn index_of<K, V>(s: Seq<(K, V)>, k: K) -> int {
    choose|i: int| 0 <= i < s.len() && s[i].0 == k
}

pub open spec fn has_key<K, V>(s: Seq<(K, V)>, k: K) -> bool {
    exists|i: int| 0 <= i < s.len() && s[i].0 == k
}

pub open spec fn distinct_keys<K, V>(s: Seq<(K, V)>) -> bool {
    forall|i: int, j: int| 0 <= i < s.len() && 0 <= j < s.len() && i != j ==> s[i].0 != s[j].0
}

/// The map that a sequence of entries with distinct keys stands for.
pub open spec fn entries_map<K, V>(s: Seq<(K, V)>) -> Map<K, V> {
    Map::new(|k: K| has_key(s, k), |k: K| s[index_of(s, k)].1)
}

impl<K, V> View for Table<K, V> {
    type V = Map<K, V>;

    open spec fn view(&self) -> Map<K, V> {
        entries_map(self.entries@)
    }
}

/// In a sequence with distinct keys, the entry at position `i` is what the map holds for its key.
pub proof fn lemma_entry_in_map<K, V>(s: Seq<(K, V)>, i: int)
    requires
        distinct_keys(s),
        0 <= i < s.len(),
    ensures
        entries_map(s).dom().contains(s[i].0),
        entries_map(s)[s[i].0] == s[i].1,
        index_of(s, s[i].0) == i,
{
    assert(has_key(s, s[i].0));
    let j = index_of(s, s[i].0);
    assert(s[j].0 == s[i].0);
}

/// Every key of the map occurs at some position of the sequence.
pub proof fn lemma_map_key_in_entries<K, V>(s: Seq<(K, V)>, k: K)
    requires
        entries_map(s).dom().contains(k),
    ensures
        0 <= index_of(s, k) < s.len(),
        s[index_of(s, k)].0 == k,
        entries_map(s)[k] == s[index_of(s, k)].1,
{
}

/// A sequence with distinct keys has as many entries as its map has keys.
pub proof fn lemma_entries_len<K, V>(s: Seq<(K, V)>)
    requires
        distinct_keys(s),
    ensures
        entries_map(s).dom().finite(),
        entries_map(s).dom().len() == s.len(),
    decreases s.len(),
{
    if s.len() == 0 {
        assert(entries_map(s).dom() =~= Set::<K>::empty());
    } else {
        let t = s.drop_last();
        assert(distinct_keys(t));
        lemma_entries_len(t);
        let k = s.last().0;
        assert(!has_key(t, k)) by {
            if has_key(t, k) {
                let j = index_of(t, k);
                assert(s[j].0 == s[s.len() - 1].0);
            }
        }
        assert(entries_map(s).dom() =~= entries_map(t).dom().insert(k)) by {
            assert forall|x: K| entries_map(s).dom().contains(x) implies entries_map(t).dom().insert(
                k,
            ).contains(x) by {
                let j = index_of(s, x);
                if j < s.len() - 1 {
                    assert(t[j].0 == x);
                }
            }
            assert forall|x: K| entries_map(t).dom().insert(k).contains(x) implies entries_map(
                s,
            ).dom().contains(x) by {
                if x != k {
                    let j = index_of(t, x);
                    assert(s[j].0 == x);
                } else {
                    assert(s[s.len() - 1].0 == x);
                }
            }
        }
    }
}

impl<K: KeyEq + Copy, V> Table<K, V> {
    pub open spec fn wf(&self) -> bool {
        distinct_keys(self.entries@)
    }

    pub fn new() -> (t: Self)
        ensures
            t.wf(),
            t@ == Map::<K, V>::empty(),
    {
        let t = Table { entries: Vec::new() };
        assert(t@ =~= Map::<K, V>::empty());
        t
    }

    /// The position of `k` among the entries, if it is there.
    pub fn find(&self, k: &K) -> (r: Option<usize>)
        requires
            self.wf(),
        ensures
            match r {
                Some(i) => i < self.entries.len() && self.entries@[i as int].0 == *k
                    && self@.dom().contains(*k),
                None => !self@.dom().contains(*k),
            },
    {
        let n: usize = self.entries.len();
        let mut i: usize = 0;
        while i < n
            invariant
                n == self.entries.len(),
                i <= n,
                forall|j: int| 0 <= j < i ==> self.entries@[j].0 != *k,
            decreases n - i,
        {
            if self.entries[i].0.same(k) {
                proof {
                    assert(has_key(self.entries@, *k));
                }
                return Some(i);
            }
            i = i + 1;
        }
        None
    }

    pub fn contains(&self, k: &K) -> (r: bool)
        requires
            self.wf(),
        ensures
            r == self@.dom().contains(*k),
    {
        self.find(k).is_some()
    }

    pub fn get(&self, k: &K) -> (r: Option<&V>)
        requires
            self.wf(),
        ensures
            match r {
                Some(v) => self@.dom().contains(*k) && self@[*k] == *v,
                None => !self@.dom().contains(*k),
            },
    {
        match self.find(k) {
            Some(i) => {
                proof {
                    lemma_entry_in_map(self.entries@, i as int);
                }
                Some(&self.entries[i].1)
            },
            None => None,
        }
    }

    pub fn insert(&mut self, k: K, v: V)
        requires
            old(self).wf(),
        ensures
            final(self).wf(),
            final(self)@ == old(self)@.insert(k, v),
    {
        let found = self.find(&k);
        let ghost s0 = self.entries@;
        match found {
            Some(i) => {
                self.entries.remove(i);
                self.entries.push((k, v));
                let ghost s1 = self.entries@;
                assert(distinct_keys(s1)) by {
                    assert forall|a: int, b: int|
                        0 <= a < s1.len() && 0 <= b < s1.len() && a != b implies s1[a].0
                        != s1[b].0 by {
                        if a < i && b < i {
                        } else if a < i && b < s1.len() - 1 {
                            assert(s1[b] == s0[b + 1]);
                        } else if b < i && a < s1.len() - 1 {
                            assert(s1[a] == s0[a + 1]);
                        } else if a < s1.len() - 1 && b < s1.len() - 1 {
                            assert(s1[a] == s0[a + 1]);
                            assert(s1[b] == s0[b + 1]);
                        } else if a == s1.len() - 1 {
                            if b < i {
                                assert(s1[b] == s0[b]);
                            } else {
                                assert(s1[b] == s0[b + 1]);
                            }
                        } else {
                            if a < i {
                                assert(s1[a] == s0[a]);
                            } else {
                                assert(s1[a] == s0[a + 1]);
                            }
                        }
                    }
                }
                assert(self@ =~= old(self)@.insert(k, v)) by {
                    assert forall|x: K| #[trigger] self@.dom().contains(x) <==> old(self)@.insert(
                        k,
                        v,
                    ).dom().contains(x) by {
                        if x != k {
                            if self@.dom().contains(x) {
                                let j = index_of(s1, x);
                                if j < i {
                                    assert(s0[j].0 == x);
                                } else {
                                    assert(s0[j + 1].0 == x);
                                }
                            }
                            if old(self)@.dom().contains(x) {
                                let j = index_of(s0, x);
                                if j < i {
                                    assert(s1[j].0 == x);
                                } else {
                                    assert(j != i);
                                    assert(s1[j - 1].0 == x);
                                }
                            }
                        } else {
                            assert(s1[s1.len() - 1].0 == x);
                        }
                    }
                    assert forall|x: K| #[trigger] self@.dom().contains(x) implies self@[x]
                        == old(self)@.insert(k, v)[x] by {
                        let j = index_of(s1, x);
                        lemma_entry_in_map(s1, j);
                        if x != k {
                            if j < i {
                                assert(s0[j] == s1[j]);
                                lemma_entry_in_map(s0, j);
                            } else {
                                assert(s0[j + 1] == s1[j]);
                                lemma_entry_in_map(s0, j + 1);
                            }
                        } else {
                            lemma_entry_in_map(s1, s1.len() - 1);
                        }
                    }
                }
            },
            None => {
                self.entries.push((k, v));
                let ghost s1 = self.entries@;
                assert(distinct_keys(s1)) by {
                    assert forall|a: int, b: int|
                        0 <= a < s1.len() && 0 <= b < s1.len() && a != b implies s1[a].0
                        != s1[b].0 by {
                        if a == s1.len() - 1 {
                            assert(s1[b] == s0[b]);
                            assert(has_key(s0, s0[b].0));
                        } else if b == s1.len() - 1 {
                            assert(s1[a] == s0[a]);
                            assert(has_key(s0, s0[a].0));
                        } else {
                            assert(s1[a] == s0[a]);
                            assert(s1[b] == s0[b]);
                        }
                    }
                }
                assert(self@ =~= old(self)@.insert(k, v)) by {
                    assert forall|x: K| #[trigger] self@.dom().contains(x) <==> old(self)@.insert(
                        k,
                        v,
                    ).dom().contains(x) by {
                        if x != k {
                            if self@.dom().contains(x) {
                                let j = index_of(s1, x);
                                assert(s0[j].0 == x);
                            }
                            if old(self)@.dom().contains(x) {
                                let j = index_of(s0, x);
                                assert(s1[j].0 == x);
                            }
                        } else {
                            assert(s1[s1.len() - 1].0 == x);
                        }
                    }
                    assert forall|x: K| #[trigger] self@.dom().contains(x) implies self@[x]
                        == old(self)@.insert(k, v)[x] by {
                        let j = index_of(s1, x);
                        lemma_entry_in_map(s1, j);
                        if x != k {
                            assert(s0[j] == s1[j]);
                            lemma_entry_in_map(s0, j);
                        }
                    }
                }
            },
        }
    }

    pub fn remove(&mut self, k: &K) -> (r: Option<V>)
        requires
            old(self).wf(),
        ensures
            final(self).wf(),
            final(self)@ == old(self)@.remove(*k),
            match r {
                Some(v) => old(self)@.dom().contains(*k) && old(self)@[*k] == v,
                None => !old(self)@.dom().contains(*k),
            },
    {
        let found = self.find(k);
        let ghost s0 = self.entries@;
        match found {
            Some(i) => {
                proof {
                    lemma_entry_in_map(s0, i as int);
                }
                let (_, v) = self.entries.remove(i);
                let ghost s1 = self.entries@;
                assert(distinct_keys(s1)) by {
                    assert forall|a: int, b: int|
                        0 <= a < s1.len() && 0 <= b < s1.len() && a != b implies s1[a].0
                        != s1[b].0 by {
                        let a0 = if a < i { a } else { a + 1 };
                        let b0 = if b < i { b } else { b + 1 };
                        assert(s1[a] == s0[a0]);
                        assert(s1[b] == s0[b0]);
                    }
                }
                assert(self@ =~= old(self)@.remove(*k)) by {
                    assert forall|x: K| #[trigger] self@.dom().contains(x) <==> old(self)@.remove(
                        *k,
                    ).dom().contains(x) by {
                        if self@.dom().contains(x) {
                            let j = index_of(s1, x);
                            let j0 = if j < i { j } else { j + 1 };
                            assert(s0[j0].0 == x);
                            assert(j0 != i);
                        }
                        if old(self)@.remove(*k).dom().contains(x) {
                            let j = index_of(s0, x);
                            assert(j != i);
                            if j < i {
                                assert(s1[j].0 == x);
                            } else {
                                assert(s1[j - 1].0 == x);
                            }
                        }
                    }
                    assert forall|x: K| #[trigger] self@.dom().contains(x) implies self@[x]
                        == old(self)@.remove(*k)[x] by {
                        let j = index_of(s1, x);
                        lemma_entry_in_map(s1, j);
                        let j0 = if j < i { j } else { j + 1 };
                        assert(s0[j0] == s1[j]);
                        lemma_entry_in_map(s0, j0);
                    }
                }
                Some(v)
            },
            None => {
                assert(self@ =~= old(self)@.remove(*k));
                None
            },
        }
    }
}

} // verus!
