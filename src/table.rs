//! The in-memory map from keys to values that mirrors the log.
use vstd::prelude::*;

verus! {

/// A map from keys to values, kept as a list of pairs with distinct keys.
pub struct Table {
    entries: Vec<(String, String)>,
    model: Ghost<Map<Seq<char>, Seq<char>>>,
}

impl View for Table {
    type V = Map<Seq<char>, Seq<char>>;

    closed spec fn view(&self) -> Map<Seq<char>, Seq<char>> {
        self.model@
    }
}

impl Table {
    /// The pairs agree with the model, hold each key once, and are as many
    /// as the model's keys.
    pub closed spec fn wf(&self) -> bool {
        &&& forall|i: int|
            0 <= i < self.entries@.len() ==> #[trigger] self.model@.contains_key(
                self.entries@[i].0@,
            ) && self.model@[self.entries@[i].0@] == self.entries@[i].1@
        &&& forall|k: Seq<char>| #[trigger]
            self.model@.contains_key(k) ==> exists|i: int|
                0 <= i < self.entries@.len() && self.entries@[i].0@ == k
        &&& forall|i: int, j: int|
            0 <= i < j < self.entries@.len() ==> self.entries@[i].0@ != self.entries@[j].0@
        &&& self.model@.dom().finite()
        &&& self.model@.len() == self.entries@.len()
    }

    /// The key and value of the `i`-th pair.
    pub closed spec fn pair_at(&self, i: int) -> (Seq<char>, Seq<char>) {
        (self.entries@[i].0@, self.entries@[i].1@)
    }

    pub fn new() -> (r: Table)
        ensures
            r.wf(),
            r@ == Map::<Seq<char>, Seq<char>>::empty(),
    {
        Table { entries: Vec::new(), model: Ghost(Map::empty()) }
    }

    /// The number of keys.
    pub fn len(&self) -> (r: usize)
        requires
            self.wf(),
        ensures
            r == self@.len(),
    {
        self.entries.len()
    }

    /// Every pair, in the order in which they are kept.
    pub proof fn lemma_pairs(&self)
        requires
            self.wf(),
        ensures
            forall|i: int|
                0 <= i < self@.len() ==> #[trigger] self@.contains_key(self.pair_at(i).0)
                    && self@[self.pair_at(i).0] == self.pair_at(i).1,
            forall|k: Seq<char>| #[trigger]
                self@.contains_key(k) ==> exists|i: int|
                    0 <= i < self@.len() && self.pair_at(i).0 == k,
            forall|i: int, j: int|
                0 <= i < j < self@.len() ==> self.pair_at(i).0 != self.pair_at(j).0,
    {
        assert forall|k: Seq<char>| #[trigger] self@.contains_key(k) implies exists|i: int|
            0 <= i < self@.len() && self.pair_at(i).0 == k by {
            let i = choose|i: int| 0 <= i < self.entries@.len() && self.entries@[i].0@ == k;
            assert(self.pair_at(i).0 == k);
        }
    }

    /// The key and value of the `i`-th pair.
    pub fn entry(&self, i: usize) -> (r: (&String, &String))
        requires
            self.wf(),
            i < self@.len(),
        ensures
            r.0@ == self.pair_at(i as int).0,
            r.1@ == self.pair_at(i as int).1,
    {
        (&self.entries[i].0, &self.entries[i].1)
    }

    fn find(&self, key: &String) -> (r: Option<usize>)
        requires
            self.wf(),
        ensures
            match r {
                Some(i) => i < self.entries@.len() && self.entries@[i as int].0@ == key@,
                None => !self@.contains_key(key@),
            },
    {
        let mut i: usize = 0;
        while i < self.entries.len()
            invariant
                self.wf(),
                i <= self.entries@.len(),
                forall|j: int| 0 <= j < i ==> self.entries@[j].0@ != key@,
            decreases self.entries@.len() - i,
        {
            if self.entries[i].0 == *key {
                return Some(i);
            }
            i = i + 1;
        }
        None
    }

    /// The value of `key`, if the table holds it.
    pub fn get(&self, key: &String) -> (r: Option<String>)
        requires
            self.wf(),
        ensures
            match r {
                Some(v) => self@.contains_key(key@) && v@ == self@[key@],
                None => !self@.contains_key(key@),
            },
    {
        match self.find(key) {
            Some(i) => {
                let v = self.entries[i].1.clone();
                assert(self.model@.contains_key(self.entries@[i as int].0@));
                Some(v)
            },
            None => None,
        }
    }

    /// Sets the value of `key`, adding the key if it is new.
    pub fn insert(&mut self, key: String, value: String)
        requires
            old(self).wf(),
        ensures
            final(self).wf(),
            final(self)@ == old(self)@.insert(key@, value@),
    {
        let ghost k = key@;
        let ghost v = value@;
        match self.find(&key) {
            Some(i) => {
                self.entries.set(i, (key, value));
                self.model = Ghost(self.model@.insert(k, v));
                assert(old(self).model@.contains_key(k));
                assert(self.model@.dom() =~= old(self).model@.dom());
                assert forall|a: int| 0 <= a < self.entries@.len() implies #[trigger] self.model@.contains_key(
                    self.entries@[a].0@,
                ) && self.model@[self.entries@[a].0@] == self.entries@[a].1@ by {
                    if a != i {
                        assert(old(self).model@.contains_key(old(self).entries@[a].0@));
                        if a < i {
                            assert(old(self).entries@[a].0@ != old(self).entries@[i as int].0@);
                        } else {
                            assert(old(self).entries@[i as int].0@ != old(self).entries@[a].0@);
                        }
                    }
                }
                assert forall|kk: Seq<char>| #[trigger]
                    self.model@.contains_key(kk) implies exists|j: int|
                    0 <= j < self.entries@.len() && self.entries@[j].0@ == kk by {
                    if kk != k {
                        let j = choose|j: int|
                            0 <= j < old(self).entries@.len() && old(self).entries@[j].0@ == kk;
                        assert(self.entries@[j].0@ == kk);
                    } else {
                        assert(self.entries@[i as int].0@ == kk);
                    }
                }
            },
            None => {
                self.entries.push((key, value));
                self.model = Ghost(self.model@.insert(k, v));
                assert(self.model@.len() == old(self).model@.len() + 1);
                assert forall|a: int| 0 <= a < self.entries@.len() implies #[trigger] self.model@.contains_key(
                    self.entries@[a].0@,
                ) && self.model@[self.entries@[a].0@] == self.entries@[a].1@ by {
                    if a < old(self).entries@.len() {
                        assert(old(self).model@.contains_key(old(self).entries@[a].0@));
                    }
                }
                assert forall|kk: Seq<char>| #[trigger]
                    self.model@.contains_key(kk) implies exists|j: int|
                    0 <= j < self.entries@.len() && self.entries@[j].0@ == kk by {
                    if kk != k {
                        let j = choose|j: int|
                            0 <= j < old(self).entries@.len() && old(self).entries@[j].0@ == kk;
                        assert(self.entries@[j].0@ == kk);
                    } else {
                        assert(self.entries@[self.entries@.len() - 1].0@ == kk);
                    }
                }
                assert forall|a: int| 0 <= a < old(self).entries@.len() implies old(
                    self,
                ).entries@[a].0@ != k by {
                    assert(old(self).model@.contains_key(old(self).entries@[a].0@));
                }
            },
        }
    }

    /// Takes `key` out of the table, if it is there.
    pub fn remove(&mut self, key: &String)
        requires
            old(self).wf(),
        ensures
            final(self).wf(),
            final(self)@ == old(self)@.remove(key@),
    {
        match self.find(key) {
            Some(i) => {
                let ghost k = key@;
                self.entries.remove(i);
                self.model = Ghost(self.model@.remove(k));
                assert forall|a: int| 0 <= a < self.entries@.len() implies #[trigger] self.model@.contains_key(
                    self.entries@[a].0@,
                ) && self.model@[self.entries@[a].0@] == self.entries@[a].1@ by {
                    if a < i {
                        assert(self.entries@[a] == old(self).entries@[a]);
                    } else {
                        assert(self.entries@[a] == old(self).entries@[a + 1]);
                    }
                }
                assert forall|kk: Seq<char>| #[trigger]
                    self.model@.contains_key(kk) implies exists|j: int|
                    0 <= j < self.entries@.len() && self.entries@[j].0@ == kk by {
                    let j = choose|j: int|
                        0 <= j < old(self).entries@.len() && old(self).entries@[j].0@ == kk;
                    if j < i {
                        assert(self.entries@[j].0@ == kk);
                    } else {
                        assert(j != i);
                        assert(self.entries@[j - 1].0@ == kk);
                    }
                }
                assert forall|a: int, b: int|
                    0 <= a < b < self.entries@.len() implies self.entries@[a].0@
                    != self.entries@[b].0@ by {
                    let a2 = if a < i {
                        a
                    } else {
                        a + 1
                    };
                    let b2 = if b < i {
                        b
                    } else {
                        b + 1
                    };
                    assert(self.entries@[a] == old(self).entries@[a2]);
                    assert(self.entries@[b] == old(self).entries@[b2]);
                }
            },
            None => {
                assert(self.model@.remove(key@) =~= self.model@);
            },
        }
    }
}

} // verus!
