//! A map from strings, kept as a list of entries in the order of their arrival.
use crate::text::same;
use vstd::prelude::*;

verus! {

/// A map from strings to `V`.
pub struct TextMap<V> {
    entries: Vec<(String, V)>,
}

/// The keys of a list of entries.
pub open spec fn keys_of<V>(e: Seq<(String, V)>) -> Seq<Seq<char>> {
    Seq::new(e.len(), |i: int| e[i].0@)
}

/// The map that a list of entries with distinct keys writes down.
pub open spec fn map_of<V>(e: Seq<(String, V)>) -> Map<Seq<char>, V>
    decreases e.len(),
{
    if e.len() == 0 {
        Map::empty()
    } else {
        map_of(e.drop_last()).insert(e.last().0@, e.last().1)
    }
}

proof fn lemma_map_of<V>(e: Seq<(String, V)>)
    requires
        keys_of(e).no_duplicates(),
    ensures
        forall|k: Seq<char>| #[trigger]
            map_of(e).contains_key(k) <==> exists|i: int| 0 <= i < e.len() && (#[trigger] e[i]).0@ == k,
        forall|i: int| 0 <= i < e.len() ==> map_of(e)[(#[trigger] e[i]).0@] == e[i].1,
        map_of(e).dom().finite(),
        map_of(e).len() == e.len(),
    decreases e.len(),
{
    if e.len() > 0 {
        let p = e.drop_last();
        assert forall|i: int, j: int| 0 <= i < j < p.len() implies keys_of(p)[i] != keys_of(p)[j] by {
            assert(keys_of(e)[i] != keys_of(e)[j]);
        }
        lemma_map_of(p);
        let last = e.last();
        assert forall|i: int| 0 <= i < p.len() implies (#[trigger] p[i]).0@ != last.0@ by {
            assert(keys_of(e)[i] != keys_of(e)[e.len() - 1]);
        }
        assert(!map_of(p).contains_key(last.0@));
        assert forall|k: Seq<char>| #[trigger] map_of(e).contains_key(k) implies exists|i: int|
            0 <= i < e.len() && (#[trigger] e[i]).0@ == k by {
            if k == last.0@ {
                assert(e[e.len() - 1].0@ == k);
            } else {
                assert(map_of(p).contains_key(k));
                let i = choose|i: int| 0 <= i < p.len() && (#[trigger] p[i]).0@ == k;
                assert(e[i].0@ == k);
            }
        }
        assert forall|k: Seq<char>|
            (exists|i: int| 0 <= i < e.len() && (#[trigger] e[i]).0@ == k) implies #[trigger] map_of(e).contains_key(k) by {
            let i = choose|i: int| 0 <= i < e.len() && (#[trigger] e[i]).0@ == k;
            if i < p.len() {
                assert(p[i].0@ == k);
                assert(map_of(p).contains_key(k));
            }
        }
        assert forall|i: int| 0 <= i < e.len() implies map_of(e)[(#[trigger] e[i]).0@] == e[i].1 by {
            if i < p.len() {
                assert(p[i] == e[i]);
            }
        }
    } else {
        assert(map_of(e).dom() =~= Set::<Seq<char>>::empty());
    }
}

impl<V> View for TextMap<V> {
    type V = Map<Seq<char>, V>;

    closed spec fn view(&self) -> Map<Seq<char>, V> {
        map_of(self.entries@)
    }
}

impl<V> TextMap<V> {
    /// No key stands twice.
    pub closed spec fn wf(&self) -> bool {
        keys_of(self.entries@).no_duplicates()
    }

    /// The empty map.
    pub fn new() -> (r: Self)
        ensures
            r.wf(),
            r@ == Map::<Seq<char>, V>::empty(),
    {
        TextMap { entries: Vec::new() }
    }

    /// The number of keys.
    pub fn len(&self) -> (r: usize)
        requires
            self.wf(),
        ensures
            r == self@.len(),
            self@.dom().finite(),
    {
        proof {
            lemma_map_of(self.entries@);
        }
        self.entries.len()
    }

    fn find(&self, k: &str) -> (r: Option<usize>)
        requires
            self.wf(),
        ensures
            match r {
                Some(i) => i < self.entries@.len() && self.entries@[i as int].0@ == k@
                    && self@.contains_key(k@) && self@[k@] == self.entries@[i as int].1,
                None => !self@.contains_key(k@) && forall|j: int|
                    0 <= j < self.entries@.len() ==> (#[trigger] self.entries@[j]).0@ != k@,
            },
    {
        proof {
            lemma_map_of(self.entries@);
        }
        let mut i: usize = 0;
        while i < self.entries.len()
            invariant
                self.wf(),
                i <= self.entries@.len(),
                forall|j: int| 0 <= j < i ==> (#[trigger] self.entries@[j]).0@ != k@,
            decreases self.entries@.len() - i,
        {
            if same(self.entries[i].0.as_str(), k) {
                proof {
                    lemma_map_of(self.entries@);
                }
                return Some(i);
            }
            i = i + 1;
        }
        proof {
            lemma_map_of(self.entries@);
        }
        None
    }

    /// Whether `k` is a key.
    pub fn contains_key(&self, k: &str) -> (r: bool)
        requires
            self.wf(),
        ensures
            r == self@.contains_key(k@),
    {
        self.find(k).is_some()
    }

    /// The value of `k`.
    pub fn get(&self, k: &str) -> (r: Option<&V>)
        requires
            self.wf(),
        ensures
            match r {
                Some(v) => self@.contains_key(k@) && self@[k@] == *v,
                None => !self@.contains_key(k@),
            },
    {
        match self.find(k) {
            Some(i) => Some(&self.entries[i].1),
            None => None,
        }
    }

    /// Sets the value of `k`.
    pub fn insert(&mut self, k: String, v: V)
        requires
            old(self).wf(),
        ensures
            final(self).wf(),
            final(self)@ == old(self)@.insert(k@, v),
    {
        let ghost before = self.entries@;
        proof {
            lemma_map_of(before);
        }
        match self.find(k.as_str()) {
            Some(i) => {
                self.entries.set(i, (k, v));
                proof {
                    let e = self.entries@;
                    assert(keys_of(e) =~= keys_of(before));
                    lemma_map_of(e);
                    assert forall|q: Seq<char>| map_of(e).contains_key(q) == map_of(before).insert(k@, v).contains_key(q) by {
                        if map_of(e).contains_key(q) {
                            let j = choose|j: int| 0 <= j < e.len() && (#[trigger] e[j]).0@ == q;
                            assert(keys_of(e)[j] == keys_of(before)[j]);
                            assert(before[j].0@ == q);
                        }
                        if map_of(before).contains_key(q) {
                            let j = choose|j: int| 0 <= j < before.len() && (#[trigger] before[j]).0@ == q;
                            assert(keys_of(e)[j] == keys_of(before)[j]);
                            assert(e[j].0@ == q);
                        }
                        if q == k@ {
                            assert(e[i as int].0@ == q);
                        }
                    }
                    assert forall|q: Seq<char>| map_of(e).contains_key(q) implies #[trigger] map_of(e)[q]
                        == map_of(before).insert(k@, v)[q] by {
                        let j = choose|j: int| 0 <= j < e.len() && (#[trigger] e[j]).0@ == q;
                        assert(map_of(e)[e[j].0@] == e[j].1);
                        assert(keys_of(e)[j] == keys_of(before)[j]);
                        assert(map_of(before)[before[j].0@] == before[j].1);
                        if j != i as int {
                            assert(keys_of(e)[j] != keys_of(e)[i as int]);
                        }
                    }
                    assert(map_of(e) =~= map_of(before).insert(k@, v));
                }
            },
            None => {
                self.entries.push((k, v));
                proof {
                    let e = self.entries@;
                    assert(e.drop_last() =~= before);
                    assert forall|a: int, b: int| 0 <= a < b < e.len() implies keys_of(e)[a] != keys_of(e)[b] by {
                        if b < before.len() {
                            assert(keys_of(before)[a] != keys_of(before)[b]);
                        } else {
                            assert(before[a].0@ != k@);
                        }
                    }
                }
            },
        }
    }

    /// Removes `k` and returns whether it was a key.
    pub fn remove(&mut self, k: &str) -> (r: bool)
        requires
            old(self).wf(),
        ensures
            final(self).wf(),
            final(self)@ == old(self)@.remove(k@),
            r == old(self)@.contains_key(k@),
    {
        let ghost e = self.entries@;
        match self.find(k) {
            None => {
                assert(map_of(e).remove(k@) =~= map_of(e));
                false
            },
            Some(i) => {
                self.entries.remove(i);
                proof {
                    let f = self.entries@;
                    assert(forall|j: int|
                        0 <= j < f.len() ==> #[trigger] f[j] == e[if j < i {
                            j
                        } else {
                            j + 1
                        }]);
                    assert forall|a: int, b: int| 0 <= a < b < f.len() implies keys_of(f)[a]
                        != keys_of(f)[b] by {
                        let a2 = if a < i {
                            a
                        } else {
                            a + 1
                        };
                        let b2 = if b < i {
                            b
                        } else {
                            b + 1
                        };
                        assert(keys_of(e)[a2] != keys_of(e)[b2]);
                    }
                    lemma_map_of(e);
                    lemma_map_of(f);
                    assert forall|q: Seq<char>| map_of(f).contains_key(q) == map_of(e).remove(
                        k@,
                    ).contains_key(q) by {
                        if map_of(f).contains_key(q) {
                            let j = choose|j: int| 0 <= j < f.len() && (#[trigger] f[j]).0@ == q;
                            let j2 = if j < i {
                                j
                            } else {
                                j + 1
                            };
                            assert(e[j2].0@ == q);
                            if q == k@ {
                                assert(keys_of(e)[j2] == keys_of(e)[i as int]);
                            }
                        }
                        if map_of(e).contains_key(q) && q != k@ {
                            let j = choose|j: int| 0 <= j < e.len() && (#[trigger] e[j]).0@ == q;
                            assert(j != i);
                            assert(f[if j < i {
                                j
                            } else {
                                j - 1
                            }].0@ == q);
                        }
                    }
                    assert forall|q: Seq<char>| map_of(f).contains_key(q) implies #[trigger] map_of(
                        f,
                    )[q] == map_of(e).remove(k@)[q] by {
                        let j = choose|j: int| 0 <= j < f.len() && (#[trigger] f[j]).0@ == q;
                        let j2 = if j < i {
                            j
                        } else {
                            j + 1
                        };
                        assert(map_of(f)[f[j].0@] == f[j].1);
                        assert(map_of(e)[e[j2].0@] == e[j2].1);
                    }
                    assert(map_of(f) =~= map_of(e).remove(k@));
                }
                true
            },
        }
    }

    /// Removes every key outside `keep`.
    pub fn retain_keys(&mut self, keep: &Vec<String>)
        requires
            old(self).wf(),
        ensures
            final(self).wf(),
            final(self)@ == old(self)@.restrict(
                Set::new(|k: Seq<char>| crate::text::texts(keep@).contains(k)),
            ),
    {
        let ghost before = self.entries@;
        let ghost kept = Set::new(|k: Seq<char>| crate::text::texts(keep@).contains(k));
        proof {
            lemma_map_of(before);
        }
        let mut i: usize = 0;
        while i < self.entries.len()
            invariant
                i <= self.entries@.len(),
                keys_of(self.entries@).no_duplicates(),
                kept == Set::new(|k: Seq<char>| crate::text::texts(keep@).contains(k)),
                forall|j: int| 0 <= j < i ==> kept.contains((#[trigger] self.entries@[j]).0@),
                map_of(self.entries@).restrict(kept) == map_of(before).restrict(kept),
            decreases self.entries@.len() - i,
        {
            let ghost e = self.entries@;
            if crate::text::has_text(keep, self.entries[i].0.as_str()) {
                i = i + 1;
            } else {
                self.entries.remove(i);
                proof {
                    let f = self.entries@;
                    assert(forall|j: int| 0 <= j < f.len() ==> #[trigger] f[j] == e[if j < i { j } else { j + 1 }]);
                    assert forall|a: int, b: int| 0 <= a < b < f.len() implies keys_of(f)[a] != keys_of(f)[b] by {
                        let a2 = if a < i { a } else { a + 1 };
                        let b2 = if b < i { b } else { b + 1 };
                        assert(keys_of(e)[a2] != keys_of(e)[b2]);
                    }
                    lemma_map_of(e);
                    lemma_map_of(f);
                    assert forall|q: Seq<char>| map_of(f).restrict(kept).contains_key(q) == map_of(e).restrict(kept).contains_key(q) by {
                        if map_of(f).contains_key(q) {
                            let j = choose|j: int| 0 <= j < f.len() && (#[trigger] f[j]).0@ == q;
                            assert(e[if j < i { j } else { j + 1 }].0@ == q);
                        }
                        if map_of(e).contains_key(q) && kept.contains(q) {
                            let j = choose|j: int| 0 <= j < e.len() && (#[trigger] e[j]).0@ == q;
                            assert(j != i);
                            assert(f[if j < i { j } else { j - 1 }].0@ == q);
                        }
                    }
                    assert forall|q: Seq<char>| map_of(f).restrict(kept).contains_key(q) implies #[trigger] map_of(f).restrict(kept)[q]
                        == map_of(e).restrict(kept)[q] by {
                        let j = choose|j: int| 0 <= j < f.len() && (#[trigger] f[j]).0@ == q;
                        let j2 = if j < i { j } else { j + 1 };
                        assert(map_of(f)[f[j].0@] == f[j].1);
                        assert(map_of(e)[e[j2].0@] == e[j2].1);
                    }
                    assert(map_of(f).restrict(kept) =~= map_of(e).restrict(kept));
                }
            }
        }
        proof {
            let f = self.entries@;
            lemma_map_of(f);
            assert forall|q: Seq<char>| map_of(f).contains_key(q) implies kept.contains(q) by {
                let j = choose|j: int| 0 <= j < f.len() && (#[trigger] f[j]).0@ == q;
                assert(kept.contains(f[j].0@));
            }
            assert(map_of(f) =~= map_of(f).restrict(kept));
        }
    }

    /// The entries, in the order in which their keys arrived.
    pub fn entries(&self) -> (r: &Vec<(String, V)>)
        requires
            self.wf(),
        ensures
            keys_of(r@).no_duplicates(),
            self@ == map_of(r@),
    {
        &self.entries
    }
}

} // verus!
