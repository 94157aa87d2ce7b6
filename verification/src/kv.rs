//! A column of the key-value store: a byte-keyed table with last-write-wins
//! updates, viewed in specifications as a `Map<Seq<u8>, Seq<u8>>`.
//!
//! The store engine keeps one such column per logical table (trie nodes,
//! code blobs, reference counters, archives). Keys are unique by invariant.

use vstd::prelude::*;

use crate::bytes::clone_bytes;
use crate::bytes::bytes_eq;

verus! {

/// Byte-vector rows as mathematical sequences.
pub open spec fn rows_view(s: Seq<(Vec<u8>, Vec<u8>)>) -> Seq<(Seq<u8>, Seq<u8>)> {
    s.map_values(|p: (Vec<u8>, Vec<u8>)| (p.0@, p.1@))
}

/// The map described by an association list, later entries winning.
pub open spec fn map_of(s: Seq<(Seq<u8>, Seq<u8>)>) -> Map<Seq<u8>, Seq<u8>>
    decreases s.len(),
{
    if s.len() == 0 {
        Map::<Seq<u8>, Seq<u8>>::empty()
    } else {
        map_of(s.drop_last()).insert(s.last().0, s.last().1)
    }
}

/// No two entries share a key.
pub open spec fn distinct_keys(s: Seq<(Seq<u8>, Seq<u8>)>) -> bool {
    forall|i: int, j: int| 0 <= i < j < s.len() ==> s[i].0 != s[j].0
}

/// A key is in the map exactly when some entry holds it.
pub proof fn lemma_map_of_dom(s: Seq<(Seq<u8>, Seq<u8>)>, k: Seq<u8>)
    ensures
        map_of(s).contains_key(k) <==> exists|i: int| 0 <= i < s.len() && s[i].0 == k,
    decreases s.len(),
{
    if s.len() > 0 {
        lemma_map_of_dom(s.drop_last(), k);
        if s.last().0 == k {
            assert(s[s.len() - 1].0 == k);
        } else if map_of(s).contains_key(k) {
            let i = choose|i: int| 0 <= i < s.drop_last().len() && s.drop_last()[i].0 == k;
            assert(s[i].0 == k);
        } else if exists|i: int| 0 <= i < s.len() && s[i].0 == k {
            let i = choose|i: int| 0 <= i < s.len() && s[i].0 == k;
            assert(s.drop_last()[i].0 == k);
        }
    }
}

/// Under distinct keys, the entry holding a key gives its mapped value.
pub proof fn lemma_map_of_at(s: Seq<(Seq<u8>, Seq<u8>)>, i: int)
    requires
        distinct_keys(s),
        0 <= i < s.len(),
    ensures
        map_of(s).contains_key(s[i].0),
        map_of(s)[s[i].0] == s[i].1,
    decreases s.len(),
{
    if i == s.len() - 1 {
        assert(s.last() == s[i]);
    } else {
        assert(distinct_keys(s.drop_last())) by {
            assert(forall|a: int, b: int|
                0 <= a < b < s.drop_last().len() ==> s.drop_last()[a] == s[a] && s.drop_last()[b]
                    == s[b]);
        }
        lemma_map_of_at(s.drop_last(), i);
        assert(s.drop_last()[i] == s[i]);
        assert(s[i].0 != s.last().0);
    }
}

/// Updating the entry that holds a key updates the map at that key.
pub proof fn lemma_map_of_update(s: Seq<(Seq<u8>, Seq<u8>)>, i: int, v: Seq<u8>)
    requires
        distinct_keys(s),
        0 <= i < s.len(),
    ensures
        map_of(s.update(i, (s[i].0, v))) == map_of(s).insert(s[i].0, v),
    decreases s.len(),
{
    let k = s[i].0;
    let t = s.update(i, (k, v));
    if i == s.len() - 1 {
        assert(t.drop_last() =~= s.drop_last());
        assert(t.last() == (k, v));
        assert(map_of(t) =~= map_of(s).insert(k, v));
    } else {
        assert(distinct_keys(s.drop_last())) by {
            assert(forall|a: int, b: int|
                0 <= a < b < s.drop_last().len() ==> s.drop_last()[a] == s[a] && s.drop_last()[b]
                    == s[b]);
        }
        assert(t.drop_last() =~= s.drop_last().update(i, (k, v)));
        assert(s.drop_last()[i] == s[i]);
        lemma_map_of_update(s.drop_last(), i, v);
        assert(t.last() == s.last());
        assert(k != s.last().0);
        assert(map_of(t) =~= map_of(s).insert(k, v));
    }
}

/// Removing the entry that holds a key removes that key from the map.
pub proof fn lemma_map_of_remove(s: Seq<(Seq<u8>, Seq<u8>)>, i: int)
    requires
        distinct_keys(s),
        0 <= i < s.len(),
    ensures
        map_of(s.remove(i)) == map_of(s).remove(s[i].0),
    decreases s.len(),
{
    let k = s[i].0;
    let t = s.remove(i);
    if i == s.len() - 1 {
        assert(t =~= s.drop_last());
        lemma_map_of_dom(s.drop_last(), k);
        assert(forall|j: int| 0 <= j < s.drop_last().len() ==> s.drop_last()[j] == s[j]);
        assert(!map_of(s.drop_last()).contains_key(k));
        assert(map_of(t) =~= map_of(s).remove(k));
    } else {
        assert(distinct_keys(s.drop_last())) by {
            assert(forall|a: int, b: int|
                0 <= a < b < s.drop_last().len() ==> s.drop_last()[a] == s[a] && s.drop_last()[b]
                    == s[b]);
        }
        assert(t.drop_last() =~= s.drop_last().remove(i));
        assert(s.drop_last()[i] == s[i]);
        lemma_map_of_remove(s.drop_last(), i);
        assert(t.last() == s.last());
        assert(k != s.last().0);
        assert(map_of(t) =~= map_of(s).remove(k));
    }
}

/// The rows of `m` whose keys are in `keep`.
pub open spec fn swept(m: Map<Seq<u8>, Seq<u8>>, keep: Set<Seq<u8>>) -> Map<Seq<u8>, Seq<u8>> {
    Map::new(|k: Seq<u8>| m.dom().contains(k) && keep.contains(k), |k: Seq<u8>| m[k])
}

/// The set of byte strings a key list holds.
pub open spec fn keys_set(s: Seq<Vec<u8>>) -> Set<Seq<u8>> {
    Set::new(|k: Seq<u8>| exists|i: int| 0 <= i < s.len() && s[i]@ == k)
}

/// Whether a key list holds the given bytes.
pub fn keys_contain(keep: &Vec<Vec<u8>>, key: &Vec<u8>) -> (r: bool)
    ensures
        r == keys_set(keep@).contains(key@),
{
    let n = keep.len();
    let mut i: usize = 0;
    while i < n
        invariant
            i <= n,
            n == keep@.len(),
            forall|j: int| 0 <= j < i ==> keep@[j]@ != key@,
        decreases n - i,
    {
        if bytes_eq(&keep[i], key) {
            proof {
                assert(keep@[i as int]@ == key@);
            }
            return true;
        }
        i = i + 1;
    }
    proof {
        assert(!keys_set(keep@).contains(key@));
    }
    false
}

/// One table of the store: unique byte keys mapped to byte values.
pub struct Column {
    entries: Vec<(Vec<u8>, Vec<u8>)>,
}

impl View for Column {
    type V = Map<Seq<u8>, Seq<u8>>;

    open spec fn view(&self) -> Map<Seq<u8>, Seq<u8>> {
        map_of(self.entries_view())
    }
}

impl Column {
    /// The entries as mathematical sequences.
    pub closed spec fn entries_view(&self) -> Seq<(Seq<u8>, Seq<u8>)> {
        rows_view(self.entries@)
    }

    /// Copies every row out, in table order.
    pub fn all_rows(&self) -> (r: Vec<(Vec<u8>, Vec<u8>)>)
        requires
            self.wf(),
        ensures
            rows_view(r@) == self.entries_view(),
            distinct_keys(rows_view(r@)),
            map_of(rows_view(r@)) == self@,
    {
        let mut out: Vec<(Vec<u8>, Vec<u8>)> = Vec::new();
        let n = self.entries.len();
        let mut i: usize = 0;
        while i < n
            invariant
                i <= n,
                n == self.entries@.len(),
                out@.len() == i,
                rows_view(out@) == self.entries_view().take(i as int),
            decreases n - i,
        {
            let k = clone_bytes(&self.entries[i].0);
            let v = clone_bytes(&self.entries[i].1);
            let ghost outpre = out@;
            let ghost pair = (k, v);
            out.push((k, v));
            proof {
                assert(out@ == outpre.push(pair));
                assert forall|j: int|
                    0 <= j < rows_view(out@).len() implies rows_view(out@)[j]
                    == self.entries_view().take((i + 1) as int)[j] by {
                    if j < i {
                        assert(out@[j] == outpre[j]);
                        assert(rows_view(outpre)[j] == self.entries_view().take(i as int)[j]);
                    } else {
                        assert(out@[j] == pair);
                        assert(pair.0@ == self.entries_view()[i as int].0);
                        assert(pair.1@ == self.entries_view()[i as int].1);
                    }
                }
                assert(rows_view(out@) =~= self.entries_view().take((i + 1) as int));
            }
            i = i + 1;
        }
        proof {
            assert(self.entries_view().take(n as int) =~= self.entries_view());
        }
        out
    }

    /// Keys are unique.
    pub open spec fn wf(&self) -> bool {
        distinct_keys(self.entries_view())
    }

    /// A fresh, empty column.
    pub fn new() -> (r: Column)
        ensures
            r.wf(),
            r@ == Map::<Seq<u8>, Seq<u8>>::empty(),
    {
        let c = Column { entries: Vec::new() };
        proof {
            assert(c.entries_view() =~= Seq::<(Seq<u8>, Seq<u8>)>::empty());
        }
        c
    }

    /// The number of rows.
    pub fn row_count(&self) -> (r: usize)
        ensures
            r == self.entries_view().len(),
    {
        self.entries.len()
    }

    /// The key and value of the row at an index.
    pub fn row_at(&self, i: usize) -> (r: (Vec<u8>, Vec<u8>))
        requires
            i < self.entries_view().len(),
        ensures
            r.0@ == self.entries_view()[i as int].0,
            r.1@ == self.entries_view()[i as int].1,
    {
        let k = clone_bytes(&self.entries[i].0);
        let v = clone_bytes(&self.entries[i].1);
        (k, v)
    }

    /// Finds the index of the row holding a key.
    fn find(&self, key: &Vec<u8>) -> (r: Option<usize>)
        ensures
            match r {
                Some(i) => i < self.entries_view().len() && self.entries_view()[i as int].0
                    == key@,
                None => forall|i: int|
                    0 <= i < self.entries_view().len() ==> self.entries_view()[i].0 != key@,
            },
    {
        let n = self.entries.len();
        let mut i: usize = 0;
        while i < n
            invariant
                i <= n,
                n == self.entries_view().len(),
                forall|j: int| 0 <= j < i ==> self.entries_view()[j].0 != key@,
            decreases n - i,
        {
            if bytes_eq(&self.entries[i].0, key) {
                return Some(i);
            }
            i = i + 1;
        }
        None
    }

    /// Whether a key has a row.
    pub fn has(&self, key: &Vec<u8>) -> (r: bool)
        requires
            self.wf(),
        ensures
            r == self@.contains_key(key@),
    {
        proof {
            lemma_map_of_dom(self.entries_view(), key@);
        }
        match self.find(key) {
            Some(i) => {
                proof {
                    lemma_map_of_at(self.entries_view(), i as int);
                }
                true
            },
            None => false,
        }
    }

    /// The value stored under a key, if any.
    pub fn get(&self, key: &Vec<u8>) -> (r: Option<Vec<u8>>)
        requires
            self.wf(),
        ensures
            match r {
                Some(v) => self@.contains_key(key@) && v@ == self@[key@],
                None => !self@.contains_key(key@),
            },
    {
        proof {
            lemma_map_of_dom(self.entries_view(), key@);
        }
        match self.find(key) {
            Some(i) => {
                proof {
                    lemma_map_of_at(self.entries_view(), i as int);
                }
                Some(clone_bytes(&self.entries[i].1))
            },
            None => None,
        }
    }

    /// Writes a value under a key, replacing any existing value.
    pub fn put(&mut self, key: Vec<u8>, value: Vec<u8>)
        requires
            old(self).wf(),
        ensures
            final(self).wf(),
            final(self)@ == old(self)@.insert(key@, value@),
    {
        let ghost pre = self.entries_view();
        match self.find(&key) {
            Some(i) => {
                proof {
                    lemma_map_of_update(pre, i as int, value@);
                }
                self.entries.set(i, (key, value));
                proof {
                    assert(self.entries_view() =~= pre.update(i as int, (pre[i as int].0, value@)));
                    assert(distinct_keys(self.entries_view()));
                }
            },
            None => {
                self.entries.push((key, value));
                proof {
                    assert(self.entries_view() =~= pre.push((key@, value@)));
                    assert(self.entries_view().drop_last() =~= pre);
                    assert(distinct_keys(self.entries_view()));
                }
            },
        }
    }

    /// Writes every given row, in order, later rows overwriting.
    pub fn put_rows(&mut self, rows: &Vec<(Vec<u8>, Vec<u8>)>)
        requires
            old(self).wf(),
        ensures
            final(self).wf(),
            final(self)@ == old(self)@.union_prefer_right(map_of(rows_view(rows@))),
    {
        let ghost rv = rows_view(rows@);
        let n = rows.len();
        let mut i: usize = 0;
        while i < n
            invariant
                i <= n,
                n == rows@.len(),
                rv == rows_view(rows@),
                self.wf(),
                self@ == old(self)@.union_prefer_right(map_of(rv.take(i as int))),
            decreases n - i,
        {
            let k = clone_bytes(&rows[i].0);
            let v = clone_bytes(&rows[i].1);
            proof {
                assert(rv.take((i + 1) as int).drop_last() =~= rv.take(i as int));
                assert(rv.take((i + 1) as int).last() == rv[i as int]);
                assert(old(self)@.union_prefer_right(map_of(rv.take(i as int))).insert(
                    rv[i as int].0,
                    rv[i as int].1,
                ) =~= old(self)@.union_prefer_right(map_of(rv.take((i + 1) as int))));
            }
            self.put(k, v);
            i = i + 1;
        }
        proof {
            assert(rv.take(n as int) =~= rv);
        }
    }

    /// Deletes every row whose key is not in `keep`.
    pub fn retain_keys(&mut self, keep: &Vec<Vec<u8>>)
        requires
            old(self).wf(),
        ensures
            final(self).wf(),
            final(self)@ == swept(old(self)@, keys_set(keep@)),
    {
        let ghost pre = self.entries_view();
        let ghost ks = keys_set(keep@);
        let mut kept: Vec<(Vec<u8>, Vec<u8>)> = Vec::new();
        let n = self.entries.len();
        let mut i: usize = 0;
        while i < n
            invariant
                i <= n,
                n == pre.len(),
                pre == self.entries_view(),
                ks == keys_set(keep@),
                distinct_keys(pre),
                forall|j: int|
                    0 <= j < rows_view(kept@).len() ==> exists|a: int|
                        0 <= a < i && #[trigger] rows_view(kept@)[j] == pre[a],
                distinct_keys(rows_view(kept@)),
                map_of(rows_view(kept@)) == swept(map_of(pre.take(i as int)), ks),
            decreases n - i,
        {
            proof {
                assert(pre.take((i + 1) as int).drop_last() =~= pre.take(i as int));
                assert(pre.take((i + 1) as int).last() == pre[i as int]);
                lemma_map_of_dom(pre.take(i as int), pre[i as int].0);
                assert forall|a: int| 0 <= a < i implies pre.take(i as int)[a].0 != pre[
                    i as int
                ].0 by {
                    assert(pre[a].0 != pre[i as int].0);
                }
                assert(!map_of(pre.take(i as int)).contains_key(pre[i as int].0));
            }
            if keys_contain(keep, &self.entries[i].0) {
                let ghost v0 = rows_view(kept@);
                proof {
                    assert forall|j: int| 0 <= j < v0.len() implies (#[trigger] v0[j]).0 != pre[
                        i as int
                    ].0 by {
                        let a = choose|a: int| 0 <= a < i && v0[j] == pre[a];
                        assert(pre[a].0 != pre[i as int].0);
                    }
                }
                let k = clone_bytes(&self.entries[i].0);
                let v = clone_bytes(&self.entries[i].1);
                let ghost pair = (k, v);
                kept.push((k, v));
                proof {
                    assert(kept@.last() == pair);
                    assert forall|j: int|
                        0 <= j < rows_view(kept@).len() implies rows_view(kept@)[j] == v0.push(
                        pre[i as int],
                    )[j] by {
                        if j < v0.len() {
                            assert(kept@[j] == kept@.drop_last()[j]);
                        } else {
                            assert(kept@[j] == pair);
                        }
                    }
                    assert(rows_view(kept@) =~= v0.push(pre[i as int]));
                    assert(rows_view(kept@).drop_last() =~= v0);
                    assert(map_of(rows_view(kept@)) == map_of(v0).insert(
                        pre[i as int].0,
                        pre[i as int].1,
                    ));
                    assert(map_of(rows_view(kept@)) =~= swept(
                        map_of(pre.take((i + 1) as int)),
                        ks,
                    ));
                    assert(distinct_keys(rows_view(kept@)));
                }
            } else {
                proof {
                    assert(map_of(rows_view(kept@)) =~= swept(
                        map_of(pre.take((i + 1) as int)),
                        ks,
                    ));
                }
            }
            i = i + 1;
        }
        proof {
            assert(pre.take(n as int) =~= pre);
        }
        self.entries = kept;
    }

    /// Deletes the row holding a key, if any.
    pub fn del(&mut self, key: &Vec<u8>)
        requires
            old(self).wf(),
        ensures
            final(self).wf(),
            final(self)@ == old(self)@.remove(key@),
    {
        let ghost pre = self.entries_view();
        match self.find(key) {
            Some(i) => {
                proof {
                    lemma_map_of_remove(pre, i as int);
                }
                self.entries.remove(i);
                proof {
                    assert(self.entries_view() =~= pre.remove(i as int));
                    assert(distinct_keys(self.entries_view())) by {
                        assert(forall|a: int, b: int|
                            0 <= a < b < pre.remove(i as int).len() ==> pre.remove(i as int)[a]
                                == (if a < i {
                                pre[a]
                            } else {
                                pre[a + 1]
                            }) && pre.remove(i as int)[b] == (if b < i {
                                pre[b]
                            } else {
                                pre[b + 1]
                            }));
                    }
                }
            },
            None => {
                proof {
                    lemma_map_of_dom(pre, key@);
                    assert(!old(self)@.contains_key(key@));
                    assert(old(self)@.remove(key@) =~= old(self)@);
                }
            },
        }
    }
}

} // verus!
