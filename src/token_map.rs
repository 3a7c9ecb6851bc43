use vstd::prelude::*;

verus! {

/// A map from string tokens to values that keeps its entries in the order in
/// which their keys first arrived. Inserting a key that is present replaces
/// its value in place.
pub struct TokenMap<V> {
    entries: Vec<(String, V)>,
    model: Ghost<Map<Seq<char>, V>>,
}

impl<V> TokenMap<V> {
    /// The map as a mathematical map from token text to value.
    pub closed spec fn view(&self) -> Map<Seq<char>, V> {
        self.model@
    }

    /// The keys, in order of first arrival.
    pub closed spec fn key_seq(&self) -> Seq<Seq<char>> {
        self.entries@.map_values(|e: (String, V)| e.0@)
    }

    /// Keys are distinct, and the entries and the model agree.
    pub closed spec fn wf(&self) -> bool {
        &&& forall|i: int, j: int|
            0 <= i < j < self.entries@.len() ==> (#[trigger] self.entries@[i]).0@
                != (#[trigger] self.entries@[j]).0@
        &&& forall|i: int|
            0 <= i < self.entries@.len() ==> self.model@.contains_key(
                (#[trigger] self.entries@[i]).0@,
            ) && self.model@[self.entries@[i].0@] == self.entries@[i].1
        &&& forall|k: Seq<char>|
            #[trigger] self.model@.contains_key(k) ==> exists|i: int|
                0 <= i < self.entries@.len() && (#[trigger] self.entries@[i]).0@ == k
    }

    /// The keys in arrival order list each key of the map exactly once.
    pub proof fn lemma_keys_match(&self)
        requires
            self.wf(),
        ensures
            self.key_seq().no_duplicates(),
            forall|k: Seq<char>| self.view().contains_key(k) <==> self.key_seq().contains(k),
            self.key_seq().to_set() == self.view().dom(),
            self.view().dom().finite(),
            self.view().dom().len() == self.key_seq().len(),
    {
        let ks = self.key_seq();
        assert forall|i: int, j: int| 0 <= i < ks.len() && 0 <= j < ks.len() && i != j implies ks[i]
            != ks[j] by {
            if i < j {
                assert(self.entries@[i].0@ != self.entries@[j].0@);
            } else {
                assert(self.entries@[j].0@ != self.entries@[i].0@);
            }
        }
        assert forall|k: Seq<char>| self.view().contains_key(k) <==> ks.contains(k) by {
            if self.view().contains_key(k) {
                let i = choose|i: int|
                    0 <= i < self.entries@.len() && (#[trigger] self.entries@[i]).0@ == k;
                assert(ks[i] == k);
            }
            if ks.contains(k) {
                let i = choose|i: int| 0 <= i < ks.len() && #[trigger] ks[i] == k;
                assert(self.entries@[i].0@ == k);
            }
        }
        assert(ks.to_set() =~= self.view().dom());
        ks.unique_seq_to_set();
    }

    pub fn new() -> (r: Self)
        ensures
            r.wf(),
            r.view() == Map::<Seq<char>, V>::empty(),
            r.key_seq() == Seq::<Seq<char>>::empty(),
    {
        let r = TokenMap { entries: Vec::new(), model: Ghost(Map::empty()) };
        assert(r.key_seq() =~= Seq::<Seq<char>>::empty());
        r
    }

    /// Position of `key` among the entries, if present.
    fn position(&self, key: &String) -> (r: Option<usize>)
        requires
            self.wf(),
        ensures
            match r {
                Some(i) => i < self.entries@.len() && self.entries@[i as int].0@ == key@,
                None => !self.view().contains_key(key@),
            },
    {
        let mut i: usize = 0;
        while i < self.entries.len()
            invariant
                i <= self.entries@.len(),
                forall|j: int| 0 <= j < i ==> (#[trigger] self.entries@[j]).0@ != key@,
            decreases self.entries@.len() - i,
        {
            if self.entries[i].0 == *key {
                return Some(i);
            }
            i = i + 1;
        }
        None
    }

    /// Sets the value of `key`; a key already present keeps its place.
    pub fn insert(&mut self, key: String, value: V)
        requires
            old(self).wf(),
        ensures
            final(self).wf(),
            final(self).view() == old(self).view().insert(key@, value),
            old(self).view().contains_key(key@) ==> final(self).key_seq() == old(self).key_seq(),
            !old(self).view().contains_key(key@) ==> final(self).key_seq() == old(self).key_seq().push(
                key@,
            ),
    {
        let ghost old_entries = self.entries@;
        let ghost new_model = self.model@.insert(key@, value);
        match self.position(&key) {
            Some(i) => {
                let ghost k = key@;
                self.entries.set(i, (key, value));
                self.model = Ghost(new_model);
                assert(self.entries@[i as int].0@ == k);
                assert forall|k2: Seq<char>| #[trigger] self.model@.contains_key(k2) implies exists|
                    j: int,
                | 0 <= j < self.entries@.len() && (#[trigger] self.entries@[j]).0@ == k2 by {
                    if k2 != k {
                        let j = choose|j: int|
                            0 <= j < old_entries.len() && (#[trigger] old_entries[j]).0@ == k2;
                        assert(self.entries@[j].0@ == k2);
                    }
                }
                assert(self.key_seq() =~= old(self).key_seq());
            },
            None => {
                let ghost k = key@;
                self.entries.push((key, value));
                self.model = Ghost(new_model);
                let ghost n = old_entries.len() as int;
                assert(self.entries@[n].0@ == k);
                assert forall|k2: Seq<char>| #[trigger] self.model@.contains_key(k2) implies exists|
                    j: int,
                | 0 <= j < self.entries@.len() && (#[trigger] self.entries@[j]).0@ == k2 by {
                    if k2 != k {
                        let j = choose|j: int|
                            0 <= j < old_entries.len() && (#[trigger] old_entries[j]).0@ == k2;
                        assert(self.entries@[j].0@ == k2);
                    }
                }
                assert(self.key_seq() =~= old(self).key_seq().push(k));
            },
        }
    }

    /// The value stored under `key`.
    pub fn get(&self, key: &str) -> (r: Option<&V>)
        requires
            self.wf(),
        ensures
            match r {
                Some(v) => self.view().contains_key(key@) && *v == self.view()[key@],
                None => !self.view().contains_key(key@),
            },
    {
        let k = key.to_owned();
        match self.position(&k) {
            Some(i) => Some(&self.entries[i].1),
            None => None,
        }
    }

    /// Number of keys.
    pub fn len(&self) -> (r: usize)
        requires
            self.wf(),
        ensures
            r == self.key_seq().len(),
            r == self.view().dom().len(),
    {
        proof {
            self.lemma_keys_match();
        }
        self.entries.len()
    }

    /// The entry at position `i` in order of first arrival.
    pub fn entry(&self, i: usize) -> (r: (&String, &V))
        requires
            self.wf(),
            i < self.key_seq().len(),
        ensures
            r.0@ == self.key_seq()[i as int],
            self.view().contains_key(r.0@),
            *r.1 == self.view()[r.0@],
    {
        let e = &self.entries[i];
        (&e.0, &e.1)
    }
}

} // verus!
