use vstd::prelude::*;

use crate::level::capped;

verus! {

/// One cached entry: a file's path and its last known metric.
pub type Entry = (Seq<char>, u32);

/// The sum of the metrics of a list of entries.
pub open spec fn entries_sum(s: Seq<Entry>) -> int
    decreases s.len(),
{
    if s.len() == 0 {
        0
    } else {
        entries_sum(s.drop_last()) + s.last().1
    }
}

/// No path occurs twice.
pub open spec fn keys_distinct(s: Seq<Entry>) -> bool {
    forall|i: int, j: int| 0 <= i < j < s.len() ==> s[i].0 != s[j].0
}

/// The position of the last entry for `k`, or -1 when there is none.
pub open spec fn key_pos(s: Seq<Entry>, k: Seq<char>) -> int
    decreases s.len(),
{
    if s.len() == 0 {
        -1
    } else if s.last().0 == k {
        s.len() - 1
    } else {
        key_pos(s.drop_last(), k)
    }
}

/// The entries read as a map from path to metric.
pub open spec fn as_map(s: Seq<Entry>) -> Map<Seq<char>, u32>
    decreases s.len(),
{
    if s.len() == 0 {
        Map::empty()
    } else {
        as_map(s.drop_last()).insert(s.last().0, s.last().1)
    }
}

/// The entries after `k` is set to `v`: updated in place, or appended.
pub open spec fn upserted(s: Seq<Entry>, k: Seq<char>, v: u32) -> Seq<Entry> {
    let p = key_pos(s, k);
    if p >= 0 {
        s.update(p, (k, v))
    } else {
        s.push((k, v))
    }
}

/// The entries after the entry for `k`, if any, is dropped.
pub open spec fn removed(s: Seq<Entry>, k: Seq<char>) -> Seq<Entry> {
    let p = key_pos(s, k);
    if p >= 0 {
        s.remove(p)
    } else {
        s
    }
}

/// Metrics are never negative, so neither is their sum.
pub proof fn lemma_entries_sum_nonneg(s: Seq<Entry>)
    ensures
        entries_sum(s) >= 0,
    decreases s.len(),
{
    if s.len() > 0 {
        lemma_entries_sum_nonneg(s.drop_last());
    }
}

/// `key_pos` is in range, points at an entry for `k`, and no later entry is for `k`.
pub proof fn lemma_key_pos(s: Seq<Entry>, k: Seq<char>)
    ensures
        -1 <= key_pos(s, k) < s.len(),
        key_pos(s, k) >= 0 ==> s[key_pos(s, k)].0 == k,
        forall|j: int| key_pos(s, k) < j < s.len() ==> #[trigger] s[j].0 != k,
    decreases s.len(),
{
    if s.len() > 0 {
        let t = s.drop_last();
        lemma_key_pos(t, k);
        if s.last().0 != k {
            assert forall|j: int| key_pos(s, k) < j < s.len() implies #[trigger] s[j].0 != k by {
                if j < s.len() - 1 {
                    assert(s[j] == t[j]);
                }
            }
        }
    }
}

/// Replacing one entry changes the sum by the difference of the two metrics.
pub proof fn lemma_sum_update(s: Seq<Entry>, i: int, e: Entry)
    requires
        0 <= i < s.len(),
    ensures
        entries_sum(s.update(i, e)) == entries_sum(s) - s[i].1 + e.1,
    decreases s.len(),
{
    if i < s.len() - 1 {
        assert(s.update(i, e).drop_last() =~= s.drop_last().update(i, e));
        lemma_sum_update(s.drop_last(), i, e);
    } else {
        assert(s.update(i, e).drop_last() =~= s.drop_last());
    }
}

/// Dropping one entry lowers the sum by its metric.
pub proof fn lemma_sum_remove(s: Seq<Entry>, i: int)
    requires
        0 <= i < s.len(),
    ensures
        entries_sum(s.remove(i)) == entries_sum(s) - s[i].1,
    decreases s.len(),
{
    if i < s.len() - 1 {
        assert(s.remove(i).drop_last() =~= s.drop_last().remove(i));
        lemma_sum_remove(s.drop_last(), i);
    } else {
        assert(s.remove(i) =~= s.drop_last());
    }
}

/// Appending an entry raises the sum by its metric.
pub proof fn lemma_sum_push(s: Seq<Entry>, e: Entry)
    ensures
        entries_sum(s.push(e)) == entries_sum(s) + e.1,
{
    assert(s.push(e).drop_last() =~= s);
}

/// With no path twice, the map holds a path exactly when it has an entry,
/// with that entry's metric.
pub proof fn lemma_as_map(s: Seq<Entry>)
    requires
        keys_distinct(s),
    ensures
        forall|k: Seq<char>| #[trigger]
            as_map(s).contains_key(k) <==> key_pos(s, k) >= 0,
        forall|i: int| 0 <= i < s.len() ==> #[trigger] as_map(s)[s[i].0] == s[i].1,
        forall|i: int| 0 <= i < s.len() ==> key_pos(s, #[trigger] s[i].0) == i,
    decreases s.len(),
{
    if s.len() > 0 {
        let t = s.drop_last();
        let lk = s.last().0;
        assert forall|i: int, j: int| 0 <= i < j < t.len() implies t[i].0 != t[j].0 by {
            assert(t[i] == s[i] && t[j] == s[j]);
        }
        lemma_as_map(t);
        assert forall|k: Seq<char>| #[trigger]
            as_map(s).contains_key(k) <==> key_pos(s, k) >= 0 by {
            assert(as_map(s) == as_map(t).insert(lk, s.last().1));
            if k != lk {
                assert(key_pos(s, k) == key_pos(t, k));
            }
        }
        assert forall|i: int| 0 <= i < s.len() implies #[trigger] as_map(s)[s[i].0] == s[i].1 by {
            if i < s.len() - 1 {
                assert(s[i] == t[i]);
                assert(t[i].0 != lk);
                assert(as_map(t)[t[i].0] == t[i].1);
            }
        }
        assert forall|i: int| 0 <= i < s.len() implies key_pos(s, #[trigger] s[i].0) == i by {
            lemma_key_pos(s, s[i].0);
        }
    }
}

/// Two caches that hold the same paths with the same metrics have the same
/// sum, whatever order their entries were recorded in.
pub proof fn lemma_same_contents_same_sum(a: Seq<Entry>, b: Seq<Entry>)
    requires
        keys_distinct(a),
        keys_distinct(b),
        as_map(a) == as_map(b),
    ensures
        entries_sum(a) == entries_sum(b),
    decreases a.len(),
{
    lemma_as_map(a);
    lemma_as_map(b);
    if a.len() == 0 {
        if b.len() > 0 {
            assert(as_map(b).contains_key(b[0].0));
        }
    } else {
        let k = a.last().0;
        assert(as_map(a)[a[a.len() - 1].0] == a.last().1);
        assert(as_map(b).contains_key(k));
        let j = key_pos(b, k);
        lemma_key_pos(b, k);
        let a1 = a.drop_last();
        let b1 = b.remove(j);
        lemma_as_map(a1);
        lemma_as_map(b1);
        assert(keys_distinct(b1));
        assert forall|x: Seq<char>| #[trigger] as_map(a1).contains_key(x) <==> as_map(b1).contains_key(x) by {
            lemma_key_pos(a1, x);
            lemma_key_pos(b1, x);
            lemma_key_pos(a, x);
            lemma_key_pos(b, x);
            if as_map(a1).contains_key(x) {
                let p = key_pos(a1, x);
                assert(a[p].0 == x);
                assert(x != k);
                assert(key_pos(a, a[p].0) == p);
                assert(as_map(b).contains_key(x));
                let q = key_pos(b, x);
                assert(q != j);
                if q < j {
                    assert(b1[q].0 == x);
                } else {
                    assert(b1[q - 1].0 == x);
                }
            }
            if as_map(b1).contains_key(x) {
                let p = key_pos(b1, x);
                if p < j {
                    assert(b[p].0 == x);
                } else {
                    assert(b[p + 1].0 == x);
                }
                assert(x != k);
                assert(key_pos(b, b1[p].0) >= 0);
                assert(as_map(a).contains_key(x));
                let q = key_pos(a, x);
                assert(q != a.len() - 1);
                assert(a1[q].0 == x);
            }
        }
        assert forall|x: Seq<char>| #[trigger] as_map(a1).contains_key(x) implies as_map(a1)[x] == as_map(b1)[x] by {
            lemma_key_pos(a1, x);
            lemma_key_pos(b1, x);
            let p = key_pos(a1, x);
            let q = key_pos(b1, x);
            assert(as_map(a1)[a1[p].0] == a1[p].1);
            assert(as_map(b1)[b1[q].0] == b1[q].1);
            assert(a[p] == a1[p]);
            assert(as_map(a)[a[p].0] == a[p].1);
            if q < j {
                assert(b[q] == b1[q]);
                assert(as_map(b)[b[q].0] == b[q].1);
            } else {
                assert(b[q + 1] == b1[q]);
                assert(as_map(b)[b[q + 1].0] == b[q + 1].1);
            }
        }
        assert(as_map(a1) =~= as_map(b1));
        lemma_same_contents_same_sum(a1, b1);
        lemma_sum_remove(b, j);
        assert(as_map(b)[b[j].0] == b[j].1);
    }
}

/// An entry of a cache without repeated paths is what the map holds for its path.
pub proof fn lemma_entry_in_map(s: Seq<Entry>, i: int)
    requires
        keys_distinct(s),
        0 <= i < s.len(),
    ensures
        as_map(s).contains_key(s[i].0),
        as_map(s)[s[i].0] == s[i].1,
        key_pos(s, s[i].0) == i,
{
    lemma_as_map(s);
}

/// A path that the map holds has an entry.
pub proof fn lemma_map_has_entry(s: Seq<Entry>, x: Seq<char>)
    requires
        keys_distinct(s),
        as_map(s).contains_key(x),
    ensures
        0 <= key_pos(s, x) < s.len(),
        s[key_pos(s, x)].0 == x,
        as_map(s)[x] == s[key_pos(s, x)].1,
{
    lemma_as_map(s);
    lemma_key_pos(s, x);
    lemma_entry_in_map(s, key_pos(s, x));
}

/// Setting a path's metric keeps paths unique, sets it in the map, and moves
/// the sum by the difference from any earlier metric.
pub proof fn lemma_upserted(s: Seq<Entry>, k: Seq<char>, v: u32)
    requires
        keys_distinct(s),
    ensures
        keys_distinct(upserted(s, k, v)),
        as_map(upserted(s, k, v)) == as_map(s).insert(k, v),
        entries_sum(upserted(s, k, v)) == entries_sum(s) + v - (if as_map(s).contains_key(k) {
            as_map(s)[k] as int
        } else {
            0
        }),
{
    lemma_key_pos(s, k);
    lemma_as_map(s);
    let p = key_pos(s, k);
    let t = upserted(s, k, v);
    if p >= 0 {
        assert(keys_distinct(t));
        lemma_sum_update(s, p, (k, v));
        lemma_entry_in_map(s, p);
        assert forall|x: Seq<char>| #[trigger] as_map(t).contains_key(x) <==> as_map(s).insert(
            k,
            v,
        ).contains_key(x) by {
            if as_map(t).contains_key(x) {
                lemma_map_has_entry(t, x);
                lemma_entry_in_map(s, key_pos(t, x));
            }
            if as_map(s).contains_key(x) {
                lemma_map_has_entry(s, x);
                lemma_entry_in_map(t, key_pos(s, x));
            }
        }
        assert forall|x: Seq<char>| #[trigger] as_map(t).contains_key(x) implies as_map(t)[x]
            == as_map(s).insert(k, v)[x] by {
            lemma_map_has_entry(t, x);
            let q = key_pos(t, x);
            if q != p {
                lemma_entry_in_map(s, q);
            }
        }
        assert(as_map(t) =~= as_map(s).insert(k, v));
    } else {
        assert(t.drop_last() =~= s);
        lemma_sum_push(s, (k, v));
    }
}

/// Dropping a path keeps paths unique, drops it from the map, and lowers the
/// sum by its metric; an absent path changes nothing.
pub proof fn lemma_removed(s: Seq<Entry>, k: Seq<char>)
    requires
        keys_distinct(s),
    ensures
        keys_distinct(removed(s, k)),
        !as_map(s).contains_key(k) ==> removed(s, k) == s,
        as_map(removed(s, k)) == as_map(s).remove(k),
        entries_sum(removed(s, k)) == entries_sum(s) - (if as_map(s).contains_key(k) {
            as_map(s)[k] as int
        } else {
            0
        }),
{
    lemma_key_pos(s, k);
    lemma_as_map(s);
    let p = key_pos(s, k);
    let t = removed(s, k);
    if p >= 0 {
        assert forall|i: int, j: int| 0 <= i < j < t.len() implies t[i].0 != t[j].0 by {
            let i2 = if i < p { i } else { i + 1 };
            let j2 = if j < p { j } else { j + 1 };
            assert(t[i] == s[i2] && t[j] == s[j2]);
        }
        lemma_sum_remove(s, p);
        lemma_entry_in_map(s, p);
        assert forall|x: Seq<char>| #[trigger] as_map(t).contains_key(x) <==> as_map(s).remove(
            k,
        ).contains_key(x) by {
            if as_map(t).contains_key(x) {
                lemma_map_has_entry(t, x);
                let q = key_pos(t, x);
                if q < p {
                    assert(t[q] == s[q]);
                    lemma_entry_in_map(s, q);
                } else {
                    assert(t[q] == s[q + 1]);
                    lemma_entry_in_map(s, q + 1);
                }
            }
            if as_map(s).contains_key(x) && x != k {
                lemma_map_has_entry(s, x);
                let q = key_pos(s, x);
                if q < p {
                    assert(t[q] == s[q]);
                    lemma_entry_in_map(t, q);
                } else {
                    assert(t[q - 1] == s[q]);
                    lemma_entry_in_map(t, q - 1);
                }
            }
        }
        assert forall|x: Seq<char>| #[trigger] as_map(t).contains_key(x) implies as_map(t)[x]
            == as_map(s).remove(k)[x] by {
            lemma_map_has_entry(t, x);
            let q = key_pos(t, x);
            if q < p {
                assert(t[q] == s[q]);
                lemma_entry_in_map(s, q);
            } else {
                assert(t[q] == s[q + 1]);
                lemma_entry_in_map(s, q + 1);
            }
        }
        assert(as_map(t) =~= as_map(s).remove(k));
    } else {
        assert(!as_map(s).contains_key(k));
        assert(as_map(s).remove(k) =~= as_map(s));
    }
}

/// The metric last parsed for each file, keyed by canonical path.
pub struct FileCache {
    entries: Vec<(String, u32)>,
}

impl View for FileCache {
    type V = Seq<Entry>;

    closed spec fn view(&self) -> Seq<Entry> {
        self.entries@.map_values(|e: (String, u32)| (e.0@, e.1))
    }
}

impl FileCache {
    /// No path is cached twice.
    pub open spec fn wf(&self) -> bool {
        keys_distinct(self@)
    }

    /// The cached metrics as a map from path to metric.
    pub open spec fn contents(&self) -> Map<Seq<char>, u32> {
        as_map(self@)
    }

    /// The exact sum of the cached metrics.
    pub open spec fn sum_spec(&self) -> int {
        entries_sum(self@)
    }

    /// An empty cache.
    pub fn new() -> (r: Self)
        ensures
            r@ == Seq::<Entry>::empty(),
            r.wf(),
    {
        FileCache { entries: Vec::new() }
    }

    /// The number of cached paths.
    pub fn len(&self) -> (r: usize)
        ensures
            r == self@.len(),
    {
        self.entries.len()
    }

    /// The position of the entry for `path`.
    fn find(&self, path: &String) -> (r: Option<usize>)
        requires
            self.wf(),
        ensures
            match r {
                Some(i) => i == key_pos(self@, path@),
                None => key_pos(self@, path@) < 0,
            },
    {
        proof {
            lemma_key_pos(self@, path@);
        }
        let mut i: usize = 0;
        while i < self.entries.len()
            invariant
                i <= self.entries.len(),
                self.wf(),
                -1 <= key_pos(self@, path@) < self@.len(),
                key_pos(self@, path@) >= 0 ==> self@[key_pos(self@, path@)].0 == path@,
                forall|j: int| 0 <= j < i ==> #[trigger] self@[j].0 != path@,
            decreases self.entries.len() - i,
        {
            assert(self@[i as int].0 == self.entries@[i as int].0@);
            if self.entries[i].0 == *path {
                proof {
                    lemma_entry_in_map(self@, i as int);
                }
                return Some(i);
            }
            i += 1;
        }
        None
    }

    /// The metric cached for `path`, if any.
    pub fn get(&self, path: &String) -> (r: Option<u32>)
        requires
            self.wf(),
        ensures
            r == (if self.contents().contains_key(path@) {
                Some(self.contents()[path@])
            } else {
                None::<u32>
            }),
    {
        proof {
            lemma_as_map(self@);
            lemma_key_pos(self@, path@);
        }
        match self.find(path) {
            Some(i) => {
                proof {
                    lemma_entry_in_map(self@, i as int);
                }
                assert(self@[i as int].1 == self.entries@[i as int].1);
                Some(self.entries[i].1)
            },
            None => None,
        }
    }

    /// Records `value` as the metric of `path`, replacing any earlier one.
    pub fn upsert(&mut self, path: String, value: u32)
        requires
            old(self).wf(),
        ensures
            final(self).wf(),
            final(self)@ == upserted(old(self)@, path@, value),
            final(self).contents() == old(self).contents().insert(path@, value),
            final(self).sum_spec() == old(self).sum_spec() + value - (if old(
                self,
            ).contents().contains_key(path@) {
                old(self).contents()[path@] as int
            } else {
                0
            }),
    {
        let ghost k = path@;
        let ghost s0 = self@;
        proof {
            lemma_key_pos(s0, k);
            lemma_upserted(s0, k, value);
        }
        match self.find(&path) {
            Some(i) => {
                let ghost e0 = self.entries@;
                self.entries.set(i, (path, value));
                assert forall|j: int| 0 <= j < s0.len() implies self@[j] == upserted(s0, k, value)[j] by {
                    assert(self@[j] == (self.entries@[j].0@, self.entries@[j].1));
                    assert(s0[j] == (e0[j].0@, e0[j].1));
                }
                assert(self@ =~= upserted(s0, k, value));
            },
            None => {
                self.entries.push((path, value));
                assert(self@ =~= upserted(s0, k, value));
            },
        }
    }

    /// Drops the entry for `path`; a path that is not cached is left alone.
    pub fn remove(&mut self, path: &String)
        requires
            old(self).wf(),
        ensures
            final(self).wf(),
            final(self)@ == removed(old(self)@, path@),
            final(self).contents() == old(self).contents().remove(path@),
            final(self).sum_spec() == old(self).sum_spec() - (if old(self).contents().contains_key(
                path@,
            ) {
                old(self).contents()[path@] as int
            } else {
                0
            }),
    {
        let ghost k = path@;
        let ghost s0 = self@;
        proof {
            lemma_key_pos(s0, k);
            lemma_removed(s0, k);
        }
        match self.find(path) {
            Some(i) => {
                self.entries.remove(i);
                assert(self@ =~= removed(s0, k));
            },
            None => {},
        }
    }

    /// Empties the cache.
    pub fn clear(&mut self)
        ensures
            final(self)@ == Seq::<Entry>::empty(),
            final(self).wf(),
    {
        self.entries.clear();
        assert(self@ =~= Seq::<Entry>::empty());
    }

    /// The sum of the cached metrics, saturating at `u32::MAX`.
    pub fn sum(&self) -> (r: u32)
        ensures
            r == capped(self.sum_spec()),
    {
        let mut acc: u32 = 0;
        let mut i: usize = 0;
        while i < self.entries.len()
            invariant
                i <= self.entries.len(),
                acc == capped(entries_sum(self@.subrange(0, i as int))),
            decreases self.entries.len() - i,
        {
            proof {
                let p = self@.subrange(0, i as int);
                assert(self@.subrange(0, i + 1).drop_last() =~= p);
                lemma_entries_sum_nonneg(p);
            }
            acc = acc.saturating_add(self.entries[i].1);
            i += 1;
        }
        assert(self@.subrange(0, self@.len() as int) =~= self@);
        acc
    }
}

} // verus!
