//! A set of keys, held as a list in which no key occurs twice.

use crate::text::views;
use vstd::prelude::*;

verus! {

/// A finite set of strings.
#[derive(Debug)]
pub struct KeySet {
    keys: Vec<String>,
}

impl View for KeySet {
    type V = Set<Seq<char>>;

    /// The keys that are held.
    closed spec fn view(&self) -> Set<Seq<char>> {
        views(self.keys@).to_set()
    }
}

impl KeySet {
    /// Whether no key is held twice.
    pub closed spec fn wf(&self) -> bool {
        views(self.keys@).no_duplicates()
    }

    /// The empty set.
    pub fn new() -> (set: Self)
        ensures
            set.wf(),
            set@ == Set::<Seq<char>>::empty(),
    {
        let set = KeySet { keys: Vec::new() };
        set
    }

    /// The place of `key` in the list, if it is held.
    fn position(&self, key: &String) -> (found: Option<usize>)
        ensures
            match found {
                Some(i) => i < self.keys.len() && self.keys[i as int]@ == key@,
                None => !self@.contains(key@),
            },
    {
        let mut i: usize = 0;
        while i < self.keys.len()
            invariant
                i <= self.keys.len(),
                forall|j: int| 0 <= j < i ==> self.keys[j]@ != key@,
            decreases self.keys.len() - i,
        {
            if self.keys[i] == *key {
                return Some(i);
            }
            i += 1;
        }
        assert(!views(self.keys@).contains(key@));
        None
    }

    /// Tells whether `key` is in the set.
    pub fn contains(&self, key: &str) -> (held: bool)
        ensures
            held == self@.contains(key@),
    {
        match self.position(&key.to_owned()) {
            Some(i) => {
                assert(views(self.keys@)[i as int] == key@);
                true
            },
            None => false,
        }
    }

    /// Tells whether the set is empty.
    pub fn is_empty(&self) -> (empty: bool)
        ensures
            empty == (self@ == Set::<Seq<char>>::empty()),
    {
        if self.keys.len() == 0 {
            assert(self@ =~= Set::<Seq<char>>::empty());
            true
        } else {
            assert(self@.contains(views(self.keys@)[0]));
            false
        }
    }

    /// Puts `key` into the set, and tells whether it was new.
    pub fn insert(&mut self, key: String) -> (added: bool)
        requires
            old(self).wf(),
        ensures
            final(self).wf(),
            final(self)@ == old(self)@.insert(key@),
            added == !old(self)@.contains(key@),
    {
        match self.position(&key) {
            Some(i) => {
                assert(views(self.keys@)[i as int] == key@);
                false
            },
            None => {
                let ghost before = views(self.keys@);
                self.keys.push(key);
                proof {
                    let after = views(self.keys@);
                    assert(after == before.push(key@));
                    assert forall|k: Seq<char>| after.contains(k) <==> (before.contains(k) || k
                        == key@) by {
                        if before.contains(k) {
                            let i = choose|i: int| 0 <= i < before.len() && before[i] == k;
                            assert(after[i] == k);
                        }
                        assert(after[before.len() as int] == key@);
                    }
                }
                true
            },
        }
    }

    /// Takes `key` out of the set, and tells whether it was there.
    pub fn remove(&mut self, key: &String) -> (held: bool)
        requires
            old(self).wf(),
        ensures
            final(self).wf(),
            final(self)@ == old(self)@.remove(key@),
            held == old(self)@.contains(key@),
    {
        match self.position(key) {
            None => false,
            Some(i) => {
                let ghost before = views(self.keys@);
                assert(before[i as int] == key@);
                self.keys.remove(i);
                proof {
                    let after = views(self.keys@);
                    assert(after == before.remove(i as int));
                    assert forall|k: Seq<char>| after.contains(k) <==> (before.contains(k) && k
                        != key@) by {
                        if before.contains(k) && k != key@ {
                            let j = choose|j: int| 0 <= j < before.len() && before[j] == k;
                            if j < i {
                                assert(after[j] == k);
                            } else {
                                assert(after[j - 1] == k);
                            }
                        }
                    }
                }
                true
            },
        }
    }

    /// The keys of the set, each once.
    pub fn into_keys(self) -> (keys: Vec<String>)
        requires
            self.wf(),
        ensures
            views(keys@).no_duplicates(),
            views(keys@).to_set() == self@,
    {
        self.keys
    }
}

} // verus!
