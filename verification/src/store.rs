//! An ordered key-value store with point lookups and half-open,
//! cursor-based range scans in either direction.
//!
//! Entries are held sorted by `u64` key with no duplicates, so a scan
//! returns results in numeric key order: ascending scans start strictly
//! after the cursor, descending scans end strictly before it.

use vstd::pervasive::VecAdditionalExecFns;
use vstd::prelude::*;

verus! {

/// Scan direction for paginated range queries.
#[derive(Clone, Copy, PartialEq, Eq, Structural, Debug)]
pub enum OrderBy {
    Asc,
    Desc,
}

/// The sequence of keys of an entry sequence, in entry order.
pub open spec fn key_seq<V>(s: Seq<(u64, V)>) -> Seq<u64> {
    s.map_values(|e: (u64, V)| e.0)
}

/// Keys are strictly increasing, hence unique.
pub open spec fn sorted_keys<V>(s: Seq<(u64, V)>) -> bool {
    forall|i: int, j: int| 0 <= i < j < s.len() ==> s[i].0 < s[j].0
}

/// Some entry carries key `k`.
pub open spec fn has_key<V>(s: Seq<(u64, V)>, k: u64) -> bool {
    exists|i: int| 0 <= i < s.len() && s[i].0 == k
}

/// The index of the entry carrying key `k` (unique when keys are sorted).
pub open spec fn key_index<V>(s: Seq<(u64, V)>, k: u64) -> int {
    choose|i: int| 0 <= i < s.len() && s[i].0 == k
}

/// The value stored under `k`, if any.
pub open spec fn lookup<V>(s: Seq<(u64, V)>, k: u64) -> Option<V> {
    if has_key(s, k) {
        Some(s[key_index(s, k)].1)
    } else {
        None
    }
}

/// `k` sorts strictly after the cursor (an absent cursor excludes nothing).
pub open spec fn above(k: u64, cursor: Option<u64>) -> bool {
    match cursor {
        None => true,
        Some(c) => k > c,
    }
}

/// `k` sorts strictly before the cursor (an absent cursor excludes nothing).
pub open spec fn below(k: u64, cursor: Option<u64>) -> bool {
    match cursor {
        None => true,
        Some(c) => k < c,
    }
}

/// How many results a page holds: the full remainder, capped by `limit`.
pub open spec fn take_len(avail: int, limit: int) -> int {
    if limit <= avail {
        limit
    } else {
        avail
    }
}

/// An ascending page: `lo` splits the entries into those at or before the
/// cursor and those strictly after it, and `r` lists the first `limit`
/// keys after the split, in store order.
pub open spec fn range_asc_ok<V>(
    s: Seq<(u64, V)>,
    cursor: Option<u64>,
    limit: int,
    r: Seq<u64>,
    lo: int,
) -> bool {
    &&& 0 <= lo <= s.len()
    &&& forall|j: int| 0 <= j < lo ==> !above(#[trigger] s[j].0, cursor)
    &&& forall|j: int| lo <= j < s.len() ==> above(#[trigger] s[j].0, cursor)
    &&& r.len() == take_len(s.len() - lo, limit)
    &&& forall|x: int| 0 <= x < r.len() ==> r[x] == s[lo + x].0
}

/// A descending page: `hi` splits the entries into those strictly before
/// the cursor and the rest, and `r` lists the last `limit` keys before the
/// split, from highest to lowest.
pub open spec fn range_desc_ok<V>(
    s: Seq<(u64, V)>,
    cursor: Option<u64>,
    limit: int,
    r: Seq<u64>,
    hi: int,
) -> bool {
    &&& 0 <= hi <= s.len()
    &&& forall|j: int| 0 <= j < hi ==> below(#[trigger] s[j].0, cursor)
    &&& forall|j: int| hi <= j < s.len() ==> !below(#[trigger] s[j].0, cursor)
    &&& r.len() == take_len(hi, limit)
    &&& forall|x: int| 0 <= x < r.len() ==> r[x] == s[hi - 1 - x].0
}

/// In a sorted entry sequence, the entry at a known index is the one that
/// `lookup` finds for its key.
pub proof fn lemma_key_at<V>(s: Seq<(u64, V)>, k: u64, i: int)
    requires
        sorted_keys(s),
        0 <= i < s.len(),
        s[i].0 == k,
    ensures
        has_key(s, k),
        key_index(s, k) == i,
        lookup(s, k) == Some(s[i].1),
{
    assert(has_key(s, k));
    let j = key_index(s, k);
    assert(0 <= j < s.len() && s[j].0 == k);
    if j < i {
        assert(s[j].0 < s[i].0);
    }
    if j > i {
        assert(s[i].0 < s[j].0);
    }
}

/// Replacing the value at the entry that holds `k` changes the lookup of
/// `k` alone and keeps the keys sorted.
pub proof fn lemma_lookup_update<V>(s: Seq<(u64, V)>, i: int, k: u64, v: V)
    requires
        sorted_keys(s),
        0 <= i < s.len(),
        s[i].0 == k,
    ensures
        sorted_keys(s.update(i, (k, v))),
        lookup(s.update(i, (k, v)), k) == Some(v),
        forall|k2: u64| k2 != k ==> lookup(s.update(i, (k, v)), k2) == lookup(s, k2),
{
    let t = s.update(i, (k, v));
    assert forall|a: int, b: int| 0 <= a < b < t.len() implies t[a].0 < t[b].0 by {
        assert(t[a].0 == s[a].0 && t[b].0 == s[b].0);
    }
    lemma_key_at(t, k, i);
    assert forall|k2: u64| k2 != k implies lookup(t, k2) == lookup(s, k2) by {
        if has_key(s, k2) {
            let j = key_index(s, k2);
            assert(0 <= j < s.len() && s[j].0 == k2);
            assert(j != i);
            assert(t[j].0 == k2 && t[j].1 == s[j].1);
            lemma_key_at(t, k2, j);
            lemma_key_at(s, k2, j);
        } else {
            if has_key(t, k2) {
                let j = key_index(t, k2);
                assert(0 <= j < t.len() && t[j].0 == k2);
                assert(j != i);
                assert(s[j].0 == k2);
            }
        }
    }
}

/// Inserting a fresh key between its neighbours adds exactly one lookup
/// result and keeps the keys sorted.
pub proof fn lemma_lookup_insert<V>(s: Seq<(u64, V)>, p: int, k: u64, v: V)
    requires
        sorted_keys(s),
        0 <= p <= s.len(),
        forall|j: int| 0 <= j < p ==> (#[trigger] s[j].0) < k,
        forall|j: int| p <= j < s.len() ==> (#[trigger] s[j].0) > k,
    ensures
        sorted_keys(s.insert(p, (k, v))),
        lookup(s.insert(p, (k, v)), k) == Some(v),
        forall|k2: u64| k2 != k ==> lookup(s.insert(p, (k, v)), k2) == lookup(s, k2),
        !has_key(s, k),
{
    let t = s.insert(p, (k, v));
    s.insert_ensures(p, (k, v));
    assert(t.len() == s.len() + 1);
    assert forall|j: int| 0 <= j < t.len() implies t[j] == (if j < p {
        s[j]
    } else if j == p {
        (k, v)
    } else {
        s[j - 1]
    }) by {}
    assert forall|a: int, b: int| 0 <= a < b < t.len() implies t[a].0 < t[b].0 by {
        if a < p && b < p {
        } else if a < p && b == p {
        } else if a < p && b > p {
            assert(t[b].0 == s[b - 1].0);
        } else if a == p && b > p {
            assert(t[b].0 == s[b - 1].0);
        } else if a > p {
            assert(t[a].0 == s[a - 1].0 && t[b].0 == s[b - 1].0);
        }
    }
    lemma_key_at(t, k, p);
    if has_key(s, k) {
        let j = key_index(s, k);
        assert(0 <= j < s.len() && s[j].0 == k);
    }
    assert forall|k2: u64| k2 != k implies lookup(t, k2) == lookup(s, k2) by {
        if has_key(s, k2) {
            let j = key_index(s, k2);
            assert(0 <= j < s.len() && s[j].0 == k2);
            lemma_key_at(s, k2, j);
            if j < p {
                assert(t[j] == s[j]);
                lemma_key_at(t, k2, j);
            } else {
                assert(t[j + 1] == s[j]);
                lemma_key_at(t, k2, j + 1);
            }
        } else {
            if has_key(t, k2) {
                let j = key_index(t, k2);
                assert(0 <= j < t.len() && t[j].0 == k2);
                assert(j != p);
                if j < p {
                    assert(s[j].0 == k2);
                } else {
                    assert(s[j - 1].0 == k2);
                }
            }
        }
    }
}

/// Removing the entry at a known index erases the lookup of its key alone
/// and keeps the keys sorted.
pub proof fn lemma_lookup_remove<V>(s: Seq<(u64, V)>, i: int)
    requires
        sorted_keys(s),
        0 <= i < s.len(),
    ensures
        sorted_keys(s.remove(i)),
        lookup(s.remove(i), s[i].0) is None,
        forall|k2: u64| k2 != s[i].0 ==> lookup(s.remove(i), k2) == lookup(s, k2),
{
    let k = s[i].0;
    let t = s.remove(i);
    s.remove_ensures(i);
    assert(t.len() == s.len() - 1);
    assert forall|j: int| 0 <= j < t.len() implies t[j] == (if j < i {
        s[j]
    } else {
        s[j + 1]
    }) by {}
    assert forall|a: int, b: int| 0 <= a < b < t.len() implies t[a].0 < t[b].0 by {
        if a >= i {
            assert(t[a].0 == s[a + 1].0 && t[b].0 == s[b + 1].0);
        } else if b >= i {
            assert(t[b].0 == s[b + 1].0);
        }
    }
    if has_key(t, k) {
        let j = key_index(t, k);
        assert(0 <= j < t.len() && t[j].0 == k);
        if j < i {
            assert(s[j].0 == k);
        } else {
            assert(s[j + 1].0 == k);
        }
    }
    assert forall|k2: u64| k2 != k implies lookup(t, k2) == lookup(s, k2) by {
        if has_key(s, k2) {
            let j = key_index(s, k2);
            assert(0 <= j < s.len() && s[j].0 == k2);
            lemma_key_at(s, k2, j);
            if j < i {
                assert(t[j] == s[j]);
                lemma_key_at(t, k2, j);
            } else {
                assert(j > i);
                assert(t[j - 1] == s[j]);
                lemma_key_at(t, k2, j - 1);
            }
        } else {
            if has_key(t, k2) {
                let j = key_index(t, k2);
                assert(0 <= j < t.len() && t[j].0 == k2);
                if j < i {
                    assert(s[j].0 == k2);
                } else {
                    assert(s[j + 1].0 == k2);
                }
            }
        }
    }
}

/// An ordered store of values keyed by `u64`, kept sorted by key.
pub struct KeyedStore<V> {
    entries: Vec<(u64, V)>,
}

impl<V> View for KeyedStore<V> {
    type V = Seq<(u64, V)>;

    closed spec fn view(&self) -> Seq<(u64, V)> {
        self.entries@
    }
}

fn above_check(k: u64, cursor: Option<u64>) -> (r: bool)
    ensures
        r == above(k, cursor),
{
    match cursor {
        None => true,
        Some(c) => k > c,
    }
}

fn below_check(k: u64, cursor: Option<u64>) -> (r: bool)
    ensures
        r == below(k, cursor),
{
    match cursor {
        None => true,
        Some(c) => k < c,
    }
}

impl<V> KeyedStore<V> {
    /// Keys are strictly increasing.
    pub open spec fn wf(&self) -> bool {
        sorted_keys(self@)
    }

    /// An entry with key `k` is present.
    pub open spec fn spec_contains(&self, k: u64) -> bool {
        has_key(self@, k)
    }

    /// The value stored under `k`, if any.
    pub open spec fn spec_get(&self, k: u64) -> Option<V> {
        lookup(self@, k)
    }

    pub fn new() -> (r: Self)
        ensures
            r.wf(),
            r@.len() == 0,
            forall|k: u64| r.spec_get(k) is None,
            forall|k: u64| !r.spec_contains(k),
    {
        KeyedStore { entries: Vec::new() }
    }

    pub fn len(&self) -> (r: usize)
        ensures
            r == self@.len(),
    {
        self.entries.len()
    }

    /// The key of the entry at position `i` in store order.
    pub fn key_at(&self, i: usize) -> (r: u64)
        requires
            i < self@.len(),
        ensures
            r == self@[i as int].0,
    {
        self.entries[i].0
    }

    fn find(&self, k: u64) -> (r: Option<usize>)
        requires
            self.wf(),
        ensures
            match r {
                Some(i) => i < self@.len() && self@[i as int].0 == k,
                None => !has_key(self@, k),
            },
    {
        let mut i: usize = 0;
        while i < self.entries.len()
            invariant
                i <= self@.len(),
                forall|j: int| 0 <= j < i ==> (#[trigger] self@[j].0) != k,
            decreases self@.len() - i,
        {
            if self.entries[i].0 == k {
                return Some(i);
            }
            i += 1;
        }
        None
    }

    pub fn contains(&self, k: u64) -> (r: bool)
        requires
            self.wf(),
        ensures
            r == self.spec_contains(k),
    {
        match self.find(k) {
            Some(i) => {
                proof {
                    lemma_key_at(self@, k, i as int);
                }
                true
            },
            None => false,
        }
    }

    pub fn get(&self, k: u64) -> (r: Option<&V>)
        requires
            self.wf(),
        ensures
            match r {
                Some(v) => self.spec_get(k) == Some(*v),
                None => self.spec_get(k) is None,
            },
    {
        match self.find(k) {
            Some(i) => {
                proof {
                    lemma_key_at(self@, k, i as int);
                }
                Some(&self.entries[i].1)
            },
            None => None,
        }
    }

    fn insertion_point(&self, k: u64) -> (r: usize)
        requires
            self.wf(),
        ensures
            r <= self@.len(),
            forall|j: int| 0 <= j < r ==> (#[trigger] self@[j].0) < k,
            forall|j: int| r <= j < self@.len() ==> (#[trigger] self@[j].0) >= k,
    {
        let mut i: usize = 0;
        while i < self.entries.len()
            invariant
                self.wf(),
                i <= self@.len(),
                forall|j: int| 0 <= j < i ==> (#[trigger] self@[j].0) < k,
            decreases self@.len() - i,
        {
            if self.entries[i].0 >= k {
                proof {
                    assert forall|j: int| i <= j < self@.len() implies (#[trigger] self@[j].0) >= k by {
                        if j > i {
                            assert(self@[i as int].0 < self@[j].0);
                        }
                    }
                }
                return i;
            }
            i += 1;
        }
        i
    }

    /// Insert `v` under `k`, replacing any prior value for `k`.
    pub fn upsert(&mut self, k: u64, v: V)
        requires
            old(self).wf(),
        ensures
            final(self).wf(),
            final(self).spec_get(k) == Some(v),
            final(self).spec_contains(k),
            forall|k2: u64| k2 != k ==> final(self).spec_get(k2) == old(self).spec_get(k2),
            forall|k2: u64|
                k2 != k ==> final(self).spec_contains(k2) == old(self).spec_contains(k2),
            old(self).spec_contains(k) ==> final(self)@ == old(self)@.update(
                key_index(old(self)@, k),
                (k, v),
            ),
            !old(self).spec_contains(k) ==> exists|p: int|
                0 <= p <= old(self)@.len() && final(self)@ == old(self)@.insert(p, (k, v)),
            final(self)@.len() == old(self)@.len() + (if old(self).spec_contains(k) {
                0int
            } else {
                1int
            }),
    {
        let i = self.insertion_point(k);
        if i < self.entries.len() && self.entries[i].0 == k {
            proof {
                lemma_key_at(self@, k, i as int);
                lemma_lookup_update(self@, i as int, k, v);
            }
            self.entries.set(i, (k, v));
        } else {
            proof {
                assert forall|j: int| i <= j < self@.len() implies (#[trigger] self@[j].0) > k by {
                    if j > i {
                        assert(self@[i as int].0 >= k);
                        assert(self@[i as int].0 < self@[j].0);
                    }
                }
                lemma_lookup_insert(self@, i as int, k, v);
            }
            self.entries.insert(i, (k, v));
        }
        proof {
            assert forall|k2: u64|
                k2 != k implies self.spec_contains(k2) == old(self).spec_contains(k2) by {
                assert(self.spec_get(k2) == old(self).spec_get(k2));
            }
        }
    }

    /// Remove the entry under `k`, returning its value; a no-op when the
    /// key is absent.
    pub fn remove_key(&mut self, k: u64) -> (r: Option<V>)
        requires
            old(self).wf(),
        ensures
            final(self).wf(),
            r == old(self).spec_get(k),
            final(self).spec_get(k) is None,
            !final(self).spec_contains(k),
            forall|k2: u64| k2 != k ==> final(self).spec_get(k2) == old(self).spec_get(k2),
            forall|k2: u64|
                k2 != k ==> final(self).spec_contains(k2) == old(self).spec_contains(k2),
            old(self).spec_contains(k) ==> final(self)@ == old(self)@.remove(
                key_index(old(self)@, k),
            ),
            !old(self).spec_contains(k) ==> final(self)@ == old(self)@,
    {
        match self.find(k) {
            Some(i) => {
                proof {
                    lemma_key_at(self@, k, i as int);
                    lemma_lookup_remove(self@, i as int);
                }
                let (_, v) = self.entries.remove(i);
                proof {
                    assert forall|k2: u64|
                        k2 != k implies self.spec_contains(k2) == old(self).spec_contains(
                        k2,
                    ) by {
                        assert(self.spec_get(k2) == old(self).spec_get(k2));
                    }
                }
                Some(v)
            },
            None => None,
        }
    }

    fn lower_bound_above(&self, cursor: Option<u64>) -> (lo: usize)
        requires
            self.wf(),
        ensures
            lo <= self@.len(),
            forall|j: int| 0 <= j < lo ==> !above(#[trigger] self@[j].0, cursor),
            forall|j: int| lo <= j < self@.len() ==> above(#[trigger] self@[j].0, cursor),
    {
        let mut i: usize = 0;
        while i < self.entries.len()
            invariant
                self.wf(),
                i <= self@.len(),
                forall|j: int| 0 <= j < i ==> !above(#[trigger] self@[j].0, cursor),
            decreases self@.len() - i,
        {
            if above_check(self.entries[i].0, cursor) {
                proof {
                    assert forall|j: int| i <= j < self@.len() implies above(
                        #[trigger] self@[j].0,
                        cursor,
                    ) by {
                        if j > i {
                            assert(self@[i as int].0 < self@[j].0);
                        }
                    }
                }
                return i;
            }
            i += 1;
        }
        i
    }

    fn lower_bound_not_below(&self, cursor: Option<u64>) -> (hi: usize)
        requires
            self.wf(),
        ensures
            hi <= self@.len(),
            forall|j: int| 0 <= j < hi ==> below(#[trigger] self@[j].0, cursor),
            forall|j: int| hi <= j < self@.len() ==> !below(#[trigger] self@[j].0, cursor),
    {
        let mut i: usize = 0;
        while i < self.entries.len()
            invariant
                self.wf(),
                i <= self@.len(),
                forall|j: int| 0 <= j < i ==> below(#[trigger] self@[j].0, cursor),
            decreases self@.len() - i,
        {
            if !below_check(self.entries[i].0, cursor) {
                proof {
                    assert forall|j: int| i <= j < self@.len() implies !below(
                        #[trigger] self@[j].0,
                        cursor,
                    ) by {
                        if j > i {
                            assert(self@[i as int].0 < self@[j].0);
                        }
                    }
                }
                return i;
            }
            i += 1;
        }
        i
    }

    /// Keys strictly after `start_after`, in increasing order, at most
    /// `limit` of them.
    pub fn range_keys_asc(&self, start_after: Option<u64>, limit: usize) -> (r: Vec<u64>)
        requires
            self.wf(),
        ensures
            r@.len() <= limit,
            exists|lo: int| #[trigger] range_asc_ok(self@, start_after, limit as int, r@, lo),
            forall|x: int|
                0 <= x < r@.len() ==> above(#[trigger] r@[x], start_after) && has_key(self@, r@[x]),
            forall|a: int, b: int| 0 <= a < b < r@.len() ==> r@[a] < r@[b],
    {
        let lo = self.lower_bound_above(start_after);
        let n = self.entries.len();
        let end = if n - lo > limit {
            lo + limit
        } else {
            n
        };
        let mut r: Vec<u64> = Vec::new();
        let mut i = lo;
        while i < end
            invariant
                self.wf(),
                lo <= i <= end <= self@.len(),
                end - lo <= limit,
                forall|j: int| 0 <= j < lo ==> !above(#[trigger] self@[j].0, start_after),
                forall|j: int| lo <= j < self@.len() ==> above(#[trigger] self@[j].0, start_after),
                end == take_len(self@.len() - lo, limit as int) + lo,
                r@.len() == i - lo,
                forall|x: int| 0 <= x < r@.len() ==> r@[x] == self@[lo + x].0,
            decreases end - i,
        {
            r.push(self.entries[i].0);
            i += 1;
        }
        proof {
            assert(range_asc_ok(self@, start_after, limit as int, r@, lo as int));
            assert forall|x: int| 0 <= x < r@.len() implies above(#[trigger] r@[x], start_after)
                && has_key(self@, r@[x]) by {
                assert(r@[x] == self@[lo + x].0);
            }
            assert forall|a: int, b: int| 0 <= a < b < r@.len() implies r@[a] < r@[b] by {
                assert(r@[a] == self@[lo + a].0 && r@[b] == self@[lo + b].0);
            }
        }
        r
    }

    /// Keys strictly before `start_after`, in decreasing order, at most
    /// `limit` of them.
    pub fn range_keys_desc(&self, start_after: Option<u64>, limit: usize) -> (r: Vec<u64>)
        requires
            self.wf(),
        ensures
            r@.len() <= limit,
            exists|hi: int| #[trigger] range_desc_ok(self@, start_after, limit as int, r@, hi),
            forall|x: int|
                0 <= x < r@.len() ==> below(#[trigger] r@[x], start_after) && has_key(self@, r@[x]),
            forall|a: int, b: int| 0 <= a < b < r@.len() ==> r@[a] > r@[b],
    {
        let hi = self.lower_bound_not_below(start_after);
        let start = if hi > limit {
            hi - limit
        } else {
            0
        };
        let mut r: Vec<u64> = Vec::new();
        let mut i = hi;
        while i > start
            invariant
                self.wf(),
                start <= i <= hi <= self@.len(),
                hi - start <= limit,
                forall|j: int| 0 <= j < hi ==> below(#[trigger] self@[j].0, start_after),
                forall|j: int| hi <= j < self@.len() ==> !below(#[trigger] self@[j].0, start_after),
                hi - start == take_len(hi as int, limit as int),
                r@.len() == hi - i,
                forall|x: int| 0 <= x < r@.len() ==> r@[x] == self@[hi - 1 - x].0,
            decreases i,
        {
            i -= 1;
            r.push(self.entries[i].0);
        }
        proof {
            assert(range_desc_ok(self@, start_after, limit as int, r@, hi as int));
            assert forall|x: int| 0 <= x < r@.len() implies below(#[trigger] r@[x], start_after)
                && has_key(self@, r@[x]) by {
                assert(r@[x] == self@[hi - 1 - x].0);
            }
            assert forall|a: int, b: int| 0 <= a < b < r@.len() implies r@[a] > r@[b] by {
                assert(r@[a] == self@[hi - 1 - a].0 && r@[b] == self@[hi - 1 - b].0);
            }
        }
        r
    }
}

impl<V: Copy> KeyedStore<V> {
    /// The entry at position `i` in store order.
    pub fn entry_at(&self, i: usize) -> (r: (u64, V))
        requires
            i < self@.len(),
        ensures
            r == self@[i as int],
    {
        self.entries[i]
    }

    /// Entries with keys strictly after `start_after`, in increasing key
    /// order, at most `limit` of them.
    pub fn range_entries_asc(&self, start_after: Option<u64>, limit: usize) -> (r: Vec<(u64, V)>)
        requires
            self.wf(),
        ensures
            r@.len() <= limit,
            exists|lo: int| #[trigger] range_asc_ok(
                self@,
                start_after,
                limit as int,
                key_seq(r@),
                lo,
            ),
            forall|x: int|
                0 <= x < r@.len() ==> above((#[trigger] r@[x]).0, start_after) && lookup(
                    self@,
                    r@[x].0,
                ) == Some(r@[x].1),
            forall|a: int, b: int| 0 <= a < b < r@.len() ==> r@[a].0 < r@[b].0,
    {
        let lo = self.lower_bound_above(start_after);
        let n = self.entries.len();
        let end = if n - lo > limit {
            lo + limit
        } else {
            n
        };
        let mut r: Vec<(u64, V)> = Vec::new();
        let mut i = lo;
        while i < end
            invariant
                self.wf(),
                lo <= i <= end <= self@.len(),
                end - lo <= limit,
                forall|j: int| 0 <= j < lo ==> !above(#[trigger] self@[j].0, start_after),
                forall|j: int| lo <= j < self@.len() ==> above(#[trigger] self@[j].0, start_after),
                end == take_len(self@.len() - lo, limit as int) + lo,
                r@.len() == i - lo,
                forall|x: int| 0 <= x < r@.len() ==> r@[x] == self@[lo + x],
            decreases end - i,
        {
            r.push(self.entries[i]);
            i += 1;
        }
        proof {
            assert forall|x: int| 0 <= x < key_seq(r@).len() implies key_seq(r@)[x] == self@[lo + x].0 by {
                assert(r@[x] == self@[lo + x]);
            }
            assert(range_asc_ok(self@, start_after, limit as int, key_seq(r@), lo as int));
            assert forall|x: int| 0 <= x < r@.len() implies above(
                (#[trigger] r@[x]).0,
                start_after,
            ) && lookup(self@, r@[x].0) == Some(r@[x].1) by {
                assert(r@[x] == self@[lo + x]);
                lemma_key_at(self@, r@[x].0, lo + x);
            }
            assert forall|a: int, b: int| 0 <= a < b < r@.len() implies r@[a].0 < r@[b].0 by {
                assert(r@[a] == self@[lo + a] && r@[b] == self@[lo + b]);
            }
        }
        r
    }

    /// Entries with keys strictly before `start_after`, in decreasing key
    /// order, at most `limit` of them.
    pub fn range_entries_desc(&self, start_after: Option<u64>, limit: usize) -> (r: Vec<(u64, V)>)
        requires
            self.wf(),
        ensures
            r@.len() <= limit,
            exists|hi: int| #[trigger] range_desc_ok(
                self@,
                start_after,
                limit as int,
                key_seq(r@),
                hi,
            ),
            forall|x: int|
                0 <= x < r@.len() ==> below((#[trigger] r@[x]).0, start_after) && lookup(
                    self@,
                    r@[x].0,
                ) == Some(r@[x].1),
            forall|a: int, b: int| 0 <= a < b < r@.len() ==> r@[a].0 > r@[b].0,
    {
        let hi = self.lower_bound_not_below(start_after);
        let start = if hi > limit {
            hi - limit
        } else {
            0
        };
        let mut r: Vec<(u64, V)> = Vec::new();
        let mut i = hi;
        while i > start
            invariant
                self.wf(),
                start <= i <= hi <= self@.len(),
                hi - start <= limit,
                forall|j: int| 0 <= j < hi ==> below(#[trigger] self@[j].0, start_after),
                forall|j: int| hi <= j < self@.len() ==> !below(#[trigger] self@[j].0, start_after),
                hi - start == take_len(hi as int, limit as int),
                r@.len() == hi - i,
                forall|x: int| 0 <= x < r@.len() ==> r@[x] == self@[hi - 1 - x],
            decreases i,
        {
            i -= 1;
            r.push(self.entries[i]);
        }
        proof {
            assert forall|x: int| 0 <= x < key_seq(r@).len() implies key_seq(r@)[x] == self@[hi - 1 - x].0 by {
                assert(r@[x] == self@[hi - 1 - x]);
            }
            assert(range_desc_ok(self@, start_after, limit as int, key_seq(r@), hi as int));
            assert forall|x: int| 0 <= x < r@.len() implies below(
                (#[trigger] r@[x]).0,
                start_after,
            ) && lookup(self@, r@[x].0) == Some(r@[x].1) by {
                assert(r@[x] == self@[hi - 1 - x]);
                lemma_key_at(self@, r@[x].0, hi - 1 - x);
            }
            assert forall|a: int, b: int| 0 <= a < b < r@.len() implies r@[a].0 > r@[b].0 by {
                assert(r@[a] == self@[hi - 1 - a] && r@[b] == self@[hi - 1 - b]);
            }
        }
        r
    }
}

} // verus!
