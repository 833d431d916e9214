//! A map keyed by two numbers, kept as a list of entries with distinct keys.
use vstd::prelude::*;

verus! {

/// A map from `(k1, k2)` to `V`.  The entries keep the order in which their
/// keys were first inserted.
pub struct DoubleMap<V> {
    entries: Vec<(u64, u64, V)>,
    contents: Ghost<Map<(u64, u64), V>>,
}

impl<V> View for DoubleMap<V> {
    type V = Map<(u64, u64), V>;

    closed spec fn view(&self) -> Map<(u64, u64), V> {
        self.contents@
    }
}

pub open spec fn key_of<V>(e: (u64, u64, V)) -> (u64, u64) {
    (e.0, e.1)
}

impl<V> DoubleMap<V> {
    /// The entries, in order.
    pub closed spec fn entries(&self) -> Seq<(u64, u64, V)> {
        self.entries@
    }

    /// Each entry is in the map, each key of the map has an entry, and no two
    /// entries share a key.
    pub open spec fn wf(&self) -> bool {
        &&& forall|i: int|
            0 <= i < self.entries().len() ==> {
                let e = #[trigger] self.entries()[i];
                self@.contains_key(key_of(e)) && self@[key_of(e)] == e.2
            }
        &&& forall|k: (u64, u64)| #[trigger]
            self@.contains_key(k) ==> exists|i: int|
                0 <= i < self.entries().len() && key_of(#[trigger] self.entries()[i]) == k
        &&& forall|i: int, j: int|
            0 <= i < j < self.entries().len() ==> key_of(#[trigger] self.entries()[i]) != key_of(
                #[trigger] self.entries()[j],
            )
    }

    pub fn new() -> (r: Self)
        ensures
            r.wf(),
            r@ == Map::<(u64, u64), V>::empty(),
            r.entries().len() == 0,
    {
        DoubleMap { entries: Vec::new(), contents: Ghost(Map::empty()) }
    }

    pub fn len(&self) -> (r: usize)
        ensures
            r == self.entries().len(),
    {
        self.entries.len()
    }

    /// The entry at position `i`.
    pub fn entry(&self, i: usize) -> (r: &(u64, u64, V))
        requires
            i < self.entries().len(),
        ensures
            *r == self.entries()[i as int],
    {
        &self.entries[i]
    }

    /// The position of the entry for `(k1, k2)`.
    fn position(&self, k1: u64, k2: u64) -> (r: Option<usize>)
        requires
            self.wf(),
        ensures
            match r {
                Some(i) => i < self.entries().len() && key_of(self.entries()[i as int]) == (k1, k2),
                None => !self@.contains_key((k1, k2)),
            },
    {
        let n = self.entries.len();
        let mut i: usize = 0;
        while i < n
            invariant
                i <= n,
                n == self.entries().len(),
                forall|t: int| 0 <= t < i ==> key_of(#[trigger] self.entries()[t]) != (k1, k2),
            decreases n - i,
        {
            if self.entries[i].0 == k1 && self.entries[i].1 == k2 {
                return Some(i);
            }
            i = i + 1;
        }
        None
    }

    pub fn contains_key(&self, k1: u64, k2: u64) -> (r: bool)
        requires
            self.wf(),
        ensures
            r == self@.contains_key((k1, k2)),
    {
        match self.position(k1, k2) {
            Some(i) => {
                assert(self@.contains_key(key_of(self.entries()[i as int])));
                true
            },
            None => false,
        }
    }

    pub fn get(&self, k1: u64, k2: u64) -> (r: Option<&V>)
        requires
            self.wf(),
        ensures
            match r {
                Some(v) => self@.contains_key((k1, k2)) && *v == self@[(k1, k2)],
                None => !self@.contains_key((k1, k2)),
            },
    {
        match self.position(k1, k2) {
            Some(i) => {
                assert(self@.contains_key(key_of(self.entries()[i as int])));
                Some(&self.entries[i].2)
            },
            None => None,
        }
    }

    /// Sets the value of `(k1, k2)`: in place where the key has an entry,
    /// as a new last entry otherwise.
    pub fn insert(&mut self, k1: u64, k2: u64, v: V)
        requires
            old(self).wf(),
        ensures
            final(self).wf(),
            final(self)@ == old(self)@.insert((k1, k2), v),
    {
        let ghost gv = v;
        let ghost old_entries = self.entries@;
        match self.position(k1, k2) {
            Some(i) => {
                self.entries.set(i, (k1, k2, v));
                self.contents = Ghost(self.contents@.insert((k1, k2), gv));
                assert forall|t: int| 0 <= t < self.entries().len() implies {
                    let e = #[trigger] self.entries()[t];
                    self@.contains_key(key_of(e)) && self@[key_of(e)] == e.2
                } by {
                    if t != i {
                        assert(self.entries()[t] == old_entries[t]);
                        if t < i {
                            assert(key_of(old_entries[t]) != key_of(old_entries[i as int]));
                        } else {
                            assert(key_of(old_entries[i as int]) != key_of(old_entries[t]));
                        }
                    }
                }
                assert forall|a: int, b: int|
                    0 <= a < b < self.entries().len() implies key_of(
                    #[trigger] self.entries()[a],
                ) != key_of(#[trigger] self.entries()[b]) by {
                    assert(key_of(self.entries()[a]) == key_of(old_entries[a]));
                    assert(key_of(self.entries()[b]) == key_of(old_entries[b]));
                }
                assert forall|k: (u64, u64)| #[trigger] self@.contains_key(k) implies exists|t: int|
                    0 <= t < self.entries().len() && key_of(#[trigger] self.entries()[t]) == k by {
                    if k != (k1, k2) {
                        let t = choose|t: int|
                            0 <= t < old_entries.len() && key_of(#[trigger] old_entries[t]) == k;
                        assert(key_of(self.entries()[t]) == k);
                    } else {
                        assert(key_of(self.entries()[i as int]) == k);
                    }
                }
            },
            None => {
                self.entries.push((k1, k2, v));
                self.contents = Ghost(self.contents@.insert((k1, k2), gv));
                assert forall|t: int| 0 <= t < self.entries().len() implies {
                    let e = #[trigger] self.entries()[t];
                    self@.contains_key(key_of(e)) && self@[key_of(e)] == e.2
                } by {
                    if t < old_entries.len() {
                        assert(self.entries()[t] == old_entries[t]);
                        assert(old(self)@.contains_key(key_of(old(self).entries()[t])));
                    }
                }
                assert forall|a: int, b: int|
                    0 <= a < b < self.entries().len() implies key_of(
                    #[trigger] self.entries()[a],
                ) != key_of(#[trigger] self.entries()[b]) by {
                    assert(self.entries()[a] == old_entries[a]);
                    if b < old_entries.len() {
                        assert(self.entries()[b] == old_entries[b]);
                    } else {
                        assert(old(self)@.contains_key(key_of(old(self).entries()[a])));
                    }
                }
                assert forall|k: (u64, u64)| #[trigger] self@.contains_key(k) implies exists|t: int|
                    0 <= t < self.entries().len() && key_of(#[trigger] self.entries()[t]) == k by {
                    if k != (k1, k2) {
                        let t = choose|t: int|
                            0 <= t < old_entries.len() && key_of(#[trigger] old_entries[t]) == k;
                        assert(key_of(self.entries()[t]) == k);
                    } else {
                        assert(key_of(self.entries()[old_entries.len() as int]) == k);
                    }
                }
            },
        }
    }

    /// Removes the entry of `(k1, k2)` and returns its value, if there is one.
    pub fn remove(&mut self, k1: u64, k2: u64) -> (r: Option<V>)
        requires
            old(self).wf(),
        ensures
            final(self).wf(),
            final(self)@ == old(self)@.remove((k1, k2)),
            match r {
                Some(v) => old(self)@.contains_key((k1, k2)) && v == old(self)@[(k1, k2)],
                None => !old(self)@.contains_key((k1, k2)),
            },
    {
        let ghost old_entries = self.entries@;
        match self.position(k1, k2) {
            Some(i) => {
                assert(self@.contains_key(key_of(self.entries()[i as int])));
                let e = self.entries.remove(i);
                self.contents = Ghost(self.contents@.remove((k1, k2)));
                assert forall|t: int| 0 <= t < self.entries().len() implies {
                    let e = #[trigger] self.entries()[t];
                    self@.contains_key(key_of(e)) && self@[key_of(e)] == e.2
                } by {
                    if t < i {
                        assert(self.entries()[t] == old_entries[t]);
                    } else {
                        assert(self.entries()[t] == old_entries[t + 1]);
                    }
                }
                assert forall|k: (u64, u64)| #[trigger] self@.contains_key(k) implies exists|t: int|
                    0 <= t < self.entries().len() && key_of(#[trigger] self.entries()[t]) == k by {
                    let t = choose|t: int|
                        0 <= t < old_entries.len() && key_of(#[trigger] old_entries[t]) == k;
                    if t < i {
                        assert(key_of(self.entries()[t]) == k);
                    } else {
                        assert(key_of(self.entries()[t - 1]) == k);
                    }
                }
                assert forall|a: int, b: int|
                    0 <= a < b < self.entries().len() implies key_of(
                    #[trigger] self.entries()[a],
                ) != key_of(#[trigger] self.entries()[b]) by {
                    let a0 = if a < i {
                        a
                    } else {
                        a + 1
                    };
                    let b0 = if b < i {
                        b
                    } else {
                        b + 1
                    };
                    assert(self.entries()[a] == old_entries[a0]);
                    assert(self.entries()[b] == old_entries[b0]);
                }
                Some(e.2)
            },
            None => {
                assert(self.contents@.remove((k1, k2)) =~= self.contents@);
                None
            },
        }
    }
}

} // verus!
