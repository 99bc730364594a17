//! Maps and sets kept in key order.

use vstd::prelude::*;

use crate::text::{text_less, text_lt, text_lt_irreflexive, text_lt_total, text_lt_transitive};

verus! {

/// A type whose values stand in one strict total order, compared by view.
pub trait Ordered: View + Sized {
    /// Whether `a` comes before `b`.
    spec fn lt(a: Self::V, b: Self::V) -> bool;

    proof fn lt_irreflexive(a: Self::V)
        ensures
            !Self::lt(a, a),
    ;

    proof fn lt_transitive(a: Self::V, b: Self::V, c: Self::V)
        requires
            Self::lt(a, b),
            Self::lt(b, c),
        ensures
            Self::lt(a, c),
    ;

    proof fn lt_total(a: Self::V, b: Self::V)
        ensures
            Self::lt(a, b) || a == b || Self::lt(b, a),
    ;

    /// Whether this value comes before `other`.
    fn less(&self, other: &Self) -> (less: bool)
        ensures
            less == Self::lt(self@, other@),
    ;

    /// The same value again.
    fn duplicate(&self) -> (copy: Self)
        ensures
            copy@ == self@,
    ;
}

impl Ordered for String {
    open spec fn lt(a: Seq<char>, b: Seq<char>) -> bool {
        text_lt(a, b)
    }

    proof fn lt_irreflexive(a: Seq<char>) {
        text_lt_irreflexive(a);
    }

    proof fn lt_transitive(a: Seq<char>, b: Seq<char>, c: Seq<char>) {
        text_lt_transitive(a, b, c);
    }

    proof fn lt_total(a: Seq<char>, b: Seq<char>) {
        text_lt_total(a, b);
    }

    fn less(&self, other: &Self) -> (less: bool) {
        text_less(self.as_str(), other.as_str())
    }

    fn duplicate(&self) -> (copy: Self) {
        self.clone()
    }
}

impl Ordered for i64 {
    open spec fn lt(a: i64, b: i64) -> bool {
        a < b
    }

    proof fn lt_irreflexive(a: i64) {
    }

    proof fn lt_transitive(a: i64, b: i64, c: i64) {
    }

    proof fn lt_total(a: i64, b: i64) {
    }

    fn less(&self, other: &Self) -> (less: bool) {
        *self < *other
    }

    fn duplicate(&self) -> (copy: Self) {
        *self
    }
}

/// A map from keys to values, its entries in ascending key order with no
/// key twice.
#[derive(Debug, PartialEq, Eq)]
pub struct SortedMap<K, V> {
    pub entries: Vec<(K, V)>,
}

impl<K: Ordered, V> View for SortedMap<K, V> {
    type V = Map<K::V, V>;

    /// The key of each entry mapped to its value.
    open spec fn view(&self) -> Map<K::V, V> {
        Map::new(|k: K::V| self.has(k), |k: K::V| self.entries@[self.index_of(k)].1)
    }
}

impl<K: Ordered, V> SortedMap<K, V> {
    /// Whether the entries ascend strictly by key.
    pub open spec fn wf(&self) -> bool {
        forall|i: int, j: int|
            0 <= i < j < self.entries@.len() ==> K::lt(
                (#[trigger] self.entries@[i]).0@,
                (#[trigger] self.entries@[j]).0@,
            )
    }

    /// Whether the entry at `i` is filed under `k`.
    pub open spec fn filed(&self, i: int, k: K::V) -> bool {
        0 <= i < self.entries@.len() && self.entries@[i].0@ == k
    }

    /// Whether some entry is filed under `k`.
    pub open spec fn has(&self, k: K::V) -> bool {
        exists|i: int| self.filed(i, k)
    }

    /// Where the entry filed under `k` stands.
    pub open spec fn index_of(&self, k: K::V) -> int {
        choose|i: int| self.filed(i, k)
    }

    /// The keys in order.
    pub open spec fn keys(&self) -> Seq<K::V> {
        self.entries@.map_values(|entry: (K, V)| entry.0@)
    }

    /// A key names one entry only.
    pub proof fn filed_once(&self, i: int, k: K::V)
        requires
            self.wf(),
            self.filed(i, k),
        ensures
            self.index_of(k) == i,
            self@.contains_key(k),
            self@[k] == self.entries@[i].1,
    {
        let j = self.index_of(k);
        assert(self.filed(j, k));
        K::lt_irreflexive(k);
    }

    /// Every key is that of some entry.
    pub proof fn filed_somewhere(&self, k: K::V)
        requires
            self.wf(),
            self@.contains_key(k),
        ensures
            self.filed(self.index_of(k), k),
            self@[k] == self.entries@[self.index_of(k)].1,
    {
    }

    /// Maps with the same entries are the same.
    pub proof fn same_entries(&self, other: &Self)
        requires
            self.wf(),
            self.entries@ == other.entries@,
        ensures
            other.wf(),
            other@ == self@,
            other.keys() == self.keys(),
    {
        let left = self@;
        let right = other@;
        assert forall|q: K::V|
            #![trigger left.dom().contains(q)]
            #![trigger right.dom().contains(q)]
            #![trigger left[q]]
            #![trigger right[q]]
            left.dom().contains(q) == right.dom().contains(q) && (left.dom().contains(q)
                ==> left[q] == right[q]) by {
            if self.has(q) {
                let i = self.index_of(q);
                assert(self.filed(i, q));
                assert(other.filed(i, q));
                self.filed_once(i, q);
                other.filed_once(i, q);
            }
            if other.has(q) {
                let i = other.index_of(q);
                assert(other.filed(i, q));
                assert(self.filed(i, q));
            }
        }
        assert(left =~= right);
    }

    /// An empty map.
    pub fn new() -> (map: Self)
        ensures
            map.wf(),
            map@ == Map::<K::V, V>::empty(),
            map.entries@.len() == 0,
    {
        let map = SortedMap { entries: Vec::new() };
        assert(map@ =~= Map::<K::V, V>::empty());
        map
    }

    /// How many entries there are.
    pub fn len(&self) -> (n: usize)
        ensures
            n == self.entries@.len(),
    {
        self.entries.len()
    }

    /// Whether there are no entries.
    pub fn is_empty(&self) -> (empty: bool)
        ensures
            empty == (self.entries@.len() == 0),
    {
        self.entries.len() == 0
    }

    /// Where the entry filed under `key` stands, or where it would.
    pub fn find(&self, key: &K) -> (found: Result<usize, usize>)
        requires
            self.wf(),
        ensures
            match found {
                Ok(i) => self.filed(i as int, key@),
                Err(i) => {
                    &&& i <= self.entries@.len()
                    &&& forall|j: int|
                        0 <= j < i ==> K::lt((#[trigger] self.entries@[j]).0@, key@)
                    &&& forall|j: int|
                        i <= j < self.entries@.len() ==> K::lt(
                            key@,
                            (#[trigger] self.entries@[j]).0@,
                        )
                    &&& !self@.contains_key(key@)
                },
            },
    {
        let mut low: usize = 0;
        let mut high: usize = self.entries.len();
        while low < high
            invariant
                self.wf(),
                low <= high <= self.entries@.len(),
                forall|j: int| 0 <= j < low ==> K::lt((#[trigger] self.entries@[j]).0@, key@),
                forall|j: int|
                    high <= j < self.entries@.len() ==> K::lt(
                        key@,
                        (#[trigger] self.entries@[j]).0@,
                    ),
            decreases high - low,
        {
            let mid: usize = low + (high - low) / 2;
            let at = &self.entries[mid].0;
            if at.less(key) {
                proof {
                    assert forall|j: int| 0 <= j < mid + 1 implies K::lt(
                        (#[trigger] self.entries@[j]).0@,
                        key@,
                    ) by {
                        if j < mid {
                            K::lt_transitive(
                                self.entries@[j].0@,
                                self.entries@[mid as int].0@,
                                key@,
                            );
                        }
                    }
                }
                low = mid + 1;
            } else if key.less(at) {
                proof {
                    assert forall|j: int| mid <= j < self.entries@.len() implies K::lt(
                        key@,
                        (#[trigger] self.entries@[j]).0@,
                    ) by {
                        if j > mid {
                            K::lt_transitive(
                                key@,
                                self.entries@[mid as int].0@,
                                self.entries@[j].0@,
                            );
                        }
                    }
                }
                high = mid;
            } else {
                proof {
                    K::lt_total(self.entries@[mid as int].0@, key@);
                }
                return Ok(mid);
            }
        }
        proof {
            if self.has(key@) {
                let i = self.index_of(key@);
                K::lt_irreflexive(key@);
                assert(self.filed(i, key@));
            }
        }
        Err(low)
    }

    /// The value filed under `key`.
    pub fn get(&self, key: &K) -> (value: Option<&V>)
        requires
            self.wf(),
        ensures
            match value {
                Some(v) => self@.contains_key(key@) && *v == self@[key@],
                None => !self@.contains_key(key@),
            },
    {
        match self.find(key) {
            Ok(i) => {
                proof {
                    self.filed_once(i as int, key@);
                }
                Some(&self.entries[i].1)
            },
            Err(_) => None,
        }
    }

    /// Whether something is filed under `key`.
    pub fn contains(&self, key: &K) -> (held: bool)
        requires
            self.wf(),
        ensures
            held == self@.contains_key(key@),
    {
        match self.find(key) {
            Ok(i) => {
                proof {
                    self.filed_once(i as int, key@);
                }
                true
            },
            Err(_) => false,
        }
    }

    /// Putting a value in the place of the one filed under the same key
    /// is an insertion.
    pub proof fn replaced_is_inserted(&self, after: &Self, i: int, entry: (K, V))
        requires
            self.wf(),
            0 <= i < self.entries@.len(),
            entry.0@ == self.entries@[i].0@,
            after.entries@ == self.entries@.update(i, entry),
        ensures
            after.wf(),
            after@ == self@.insert(entry.0@, entry.1),
            after.keys() == self.keys(),
    {
        let k = entry.0@;
        assert(after.wf());
        self.filed_once(i, k);
        after.filed_once(i, k);
        let want = self@.insert(k, entry.1);
        assert forall|q: K::V|
            #![trigger after@.dom().contains(q)]
            #![trigger want.dom().contains(q)]
            #![trigger after@[q]]
            #![trigger want[q]]
            after@.dom().contains(q) == want.dom().contains(q) && (after@.dom().contains(q)
                ==> after@[q] == want[q]) by {
            if after.has(q) {
                let j = after.index_of(q);
                assert(self.filed(j, q));
                self.filed_once(j, q);
                after.filed_once(j, q);
            }
            if self.has(q) {
                let j = self.index_of(q);
                assert(after.filed(j, q));
                self.filed_once(j, q);
                after.filed_once(j, q);
            }
        }
        assert(after@ =~= want);
        assert(after.keys() =~= self.keys());
    }

    /// Files `value` under `key`, in the place of what was filed there.
    pub fn insert(&mut self, key: K, value: V)
        requires
            old(self).wf(),
        ensures
            final(self).wf(),
            final(self)@ == old(self)@.insert(key@, value),
    {
        let ghost before = *self;
        match self.find(&key) {
            Ok(i) => {
                let ghost entry = (key, value);
                self.entries[i] = (key, value);
                proof {
                    before.replaced_is_inserted(self, i as int, entry);
                }
            },
            Err(i) => {
                let ghost entry = (key, value);
                self.entries.insert(i, (key, value));
                proof {
                    let k = entry.0@;
                    let n = i as int;
                    assert(self.entries@ == before.entries@.insert(n, entry));
                    assert forall|a: int, b: int| 0 <= a < b < self.entries@.len() implies K::lt(
                        (#[trigger] self.entries@[a]).0@,
                        (#[trigger] self.entries@[b]).0@,
                    ) by {
                        if a < n {
                            assert(self.entries@[a] == before.entries@[a]);
                        } else if a > n {
                            assert(self.entries@[a] == before.entries@[a - 1]);
                        }
                        if b < n {
                            assert(self.entries@[b] == before.entries@[b]);
                        } else if b > n {
                            assert(self.entries@[b] == before.entries@[b - 1]);
                        }
                    }
                    assert(self.filed(n, k));
                    self.filed_once(n, k);
                    let want = before@.insert(k, entry.1);
                    assert forall|q: K::V|
                        #![trigger self@.dom().contains(q)]
                        #![trigger want.dom().contains(q)]
                        #![trigger self@[q]]
                        #![trigger want[q]]
                        self@.dom().contains(q) == want.dom().contains(q) && (
                        self@.dom().contains(q) ==> self@[q] == want[q]) by {
                        if q != k {
                            if self.has(q) {
                                let j = self.index_of(q);
                                assert(self.filed(j, q));
                                let m = if j < n {
                                    j
                                } else {
                                    j - 1
                                };
                                assert(self.entries@[j] == before.entries@[m]);
                                assert(before.filed(m, q));
                                before.filed_once(m, q);
                                self.filed_once(j, q);
                            }
                            if before.has(q) {
                                let m = before.index_of(q);
                                assert(before.filed(m, q));
                                let j = if m < n {
                                    m
                                } else {
                                    m + 1
                                };
                                assert(self.entries@[j] == before.entries@[m]);
                                assert(self.filed(j, q));
                                before.filed_once(m, q);
                                self.filed_once(j, q);
                            }
                        }
                    }
                    assert(self@ =~= want);
                }
            },
        }
    }

    /// Takes out the entry at `i`.
    pub fn remove_at(&mut self, i: usize) -> (entry: (K, V))
        requires
            old(self).wf(),
            i < old(self).entries@.len(),
        ensures
            final(self).wf(),
            final(self).entries@ == old(self).entries@.remove(i as int),
            entry == old(self).entries@[i as int],
            final(self)@ == old(self)@.remove(entry.0@),
    {
        let ghost before = *self;
        let entry = self.entries.remove(i);
        proof {
            let k = entry.0@;
            let n = i as int;
            assert forall|a: int, b: int| 0 <= a < b < self.entries@.len() implies K::lt(
                (#[trigger] self.entries@[a]).0@,
                (#[trigger] self.entries@[b]).0@,
            ) by {
                let c = if a < n {
                    a
                } else {
                    a + 1
                };
                let d = if b < n {
                    b
                } else {
                    b + 1
                };
                assert(self.entries@[a] == before.entries@[c]);
                assert(self.entries@[b] == before.entries@[d]);
            }
            before.filed_once(n, k);
            let want = before@.remove(k);
            assert forall|q: K::V|
                #![trigger self@.dom().contains(q)]
                #![trigger want.dom().contains(q)]
                #![trigger self@[q]]
                #![trigger want[q]]
                self@.dom().contains(q) == want.dom().contains(q) && (self@.dom().contains(q)
                    ==> self@[q] == want[q]) by {
                if self.has(q) {
                    let j = self.index_of(q);
                    assert(self.filed(j, q));
                    let m = if j < n {
                        j
                    } else {
                        j + 1
                    };
                    assert(self.entries@[j] == before.entries@[m]);
                    assert(before.filed(m, q));
                    before.filed_once(m, q);
                    self.filed_once(j, q);
                    if q == k {
                        before.filed_once(m, k);
                    }
                }
                if before.has(q) && q != k {
                    let m = before.index_of(q);
                    assert(before.filed(m, q));
                    let j = if m < n {
                        m
                    } else {
                        m - 1
                    };
                    assert(self.entries@[j] == before.entries@[m]);
                    assert(self.filed(j, q));
                    before.filed_once(m, q);
                    self.filed_once(j, q);
                }
            }
            assert(self@ =~= want);
        }
        entry
    }

    /// Takes out what is filed under `key`.
    pub fn remove(&mut self, key: &K) -> (value: Option<V>)
        requires
            old(self).wf(),
        ensures
            final(self).wf(),
            final(self)@ == old(self)@.remove(key@),
            match value {
                Some(v) => old(self)@.contains_key(key@) && v == old(self)@[key@],
                None => !old(self)@.contains_key(key@) && *final(self) == *old(self),
            },
    {
        match self.find(key) {
            Ok(i) => {
                proof {
                    self.filed_once(i as int, key@);
                }
                let (_, value) = self.remove_at(i);
                Some(value)
            },
            Err(_) => {
                assert(self@.remove(key@) =~= self@);
                None
            },
        }
    }
}

/// A set of keys, kept in ascending order.
#[derive(Debug, PartialEq, Eq)]
pub struct SortedSet<K> {
    pub map: SortedMap<K, ()>,
}

impl<K: Ordered> View for SortedSet<K> {
    type V = Set<K::V>;

    open spec fn view(&self) -> Set<K::V> {
        self.map@.dom()
    }
}

impl<K: Ordered> SortedSet<K> {
    /// Whether the keys ascend strictly.
    pub open spec fn wf(&self) -> bool {
        self.map.wf()
    }

    /// The keys in order.
    pub open spec fn keys(&self) -> Seq<K::V> {
        self.map.keys()
    }

    /// An empty set.
    pub fn new() -> (set: Self)
        ensures
            set.wf(),
            set@ == Set::<K::V>::empty(),
            set.map.entries@.len() == 0,
    {
        SortedSet { map: SortedMap::new() }
    }

    /// How many keys the set holds.
    pub fn len(&self) -> (n: usize)
        ensures
            n == self.map.entries@.len(),
    {
        self.map.len()
    }

    /// Whether the set holds nothing.
    pub fn is_empty(&self) -> (empty: bool)
        requires
            self.wf(),
        ensures
            empty == (self.map.entries@.len() == 0),
            empty == (self@ == Set::<K::V>::empty()),
    {
        proof {
            if self.map.entries@.len() > 0 {
                let k = self.map.entries@[0].0@;
                assert(self.map.filed(0, k));
                self.map.filed_once(0, k);
                assert(self@.contains(k));
            } else {
                assert(self@ =~= Set::<K::V>::empty());
            }
        }
        self.map.is_empty()
    }

    /// The key at `i`, counted in ascending order.
    pub fn at(&self, i: usize) -> (key: &K)
        requires
            i < self.map.entries@.len(),
        ensures
            *key == self.map.entries@[i as int].0,
    {
        &self.map.entries[i].0
    }

    /// Whether the set holds `key`.
    pub fn contains(&self, key: &K) -> (held: bool)
        requires
            self.wf(),
        ensures
            held == self@.contains(key@),
    {
        self.map.contains(key)
    }

    /// Adds `key`.
    pub fn insert(&mut self, key: K)
        requires
            old(self).wf(),
        ensures
            final(self).wf(),
            final(self)@ == old(self)@.insert(key@),
    {
        let ghost before = self.map@;
        self.map.insert(key, ());
        assert(self@ =~= before.dom().insert(key@));
    }

    /// Takes `key` out.
    pub fn remove(&mut self, key: &K)
        requires
            old(self).wf(),
        ensures
            final(self).wf(),
            final(self)@ == old(self)@.remove(key@),
    {
        let ghost before = self.map@;
        let _ = self.map.remove(key);
        assert(self@ =~= before.dom().remove(key@));
    }
}

} // verus!
