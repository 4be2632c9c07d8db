//! A map from 32-byte keys to values; a key that was never written reads as absent.
use vstd::prelude::*;
use crate::bytes::{Bytes32, bytes_eq};

verus! {

/// Entries kept in insertion order, each key once.
pub struct KeyedStore<V> {
    keys: Vec<Bytes32>,
    vals: Vec<V>,
    model: Ghost<Map<Seq<u8>, V>>,
}

impl<V> View for KeyedStore<V> {
    type V = Map<Seq<u8>, V>;

    closed spec fn view(&self) -> Map<Seq<u8>, V> {
        self.model@
    }
}

impl<V: Copy> KeyedStore<V> {
    /// The entries agree with the map, and no key is held twice.
    pub closed spec fn wf(&self) -> bool {
        &&& self.keys@.len() == self.vals@.len()
        &&& forall|i: int|
            0 <= i < self.keys@.len() ==> #[trigger] self.model@.contains_key(self.keys@[i]@)
                && self.model@[self.keys@[i]@] == self.vals@[i]
        &&& forall|k: Seq<u8>|
            #[trigger] self.model@.contains_key(k) ==> exists|i: int|
                0 <= i < self.keys@.len() && #[trigger] self.keys@[i]@ == k
        &&& forall|i: int, j: int|
            0 <= i < self.keys@.len() && 0 <= j < self.keys@.len() && i != j
                ==> #[trigger] self.keys@[i]@ != #[trigger] self.keys@[j]@
    }

    /// An empty store.
    pub fn new() -> (r: Self)
        ensures
            r.wf(),
            r@ == Map::<Seq<u8>, V>::empty(),
    {
        KeyedStore { keys: Vec::new(), vals: Vec::new(), model: Ghost(Map::empty()) }
    }

    fn position(&self, key: &Bytes32) -> (r: Option<usize>)
        requires
            self.wf(),
        ensures
            r is Some <==> self@.contains_key(key@),
            r is Some ==> r->0 < self.keys@.len() && self.keys@[r->0 as int]@ == key@,
    {
        let mut i: usize = 0;
        while i < self.keys.len()
            invariant
                self.wf(),
                0 <= i <= self.keys@.len(),
                forall|j: int| 0 <= j < i ==> self.keys@[j]@ != key@,
            decreases self.keys@.len() - i,
        {
            if bytes_eq(self.keys[i].as_slice(), key.as_slice()) {
                return Some(i);
            }
            i = i + 1;
        }
        None
    }

    /// The value held under `key`, if any.
    pub fn get(&self, key: &Bytes32) -> (r: Option<V>)
        requires
            self.wf(),
        ensures
            r is Some <==> self@.contains_key(key@),
            r is Some ==> r->0 == self@[key@],
    {
        match self.position(key) {
            Some(i) => Some(self.vals[i]),
            None => None,
        }
    }

    /// Sets the value under `key`, replacing any earlier one.
    pub fn insert(&mut self, key: Bytes32, value: V)
        requires
            old(self).wf(),
        ensures
            final(self).wf(),
            final(self)@ == old(self)@.insert(key@, value),
    {
        match self.position(&key) {
            Some(i) => {
                self.vals.set(i, value);
                self.model = Ghost(self.model@.insert(key@, value));
                assert forall|k: Seq<u8>| #[trigger] self.model@.contains_key(k) implies exists|j: int|
                    0 <= j < self.keys@.len() && #[trigger] self.keys@[j]@ == k by {
                    if k != key@ {
                        assert(old(self).model@.contains_key(k));
                        let j = choose|j: int| 0 <= j < old(self).keys@.len() && #[trigger] old(self).keys@[j]@ == k;
                        assert(self.keys@[j]@ == k);
                    } else {
                        assert(self.keys@[i as int]@ == k);
                    }
                }
                assert forall|j: int| 0 <= j < self.keys@.len() implies #[trigger] self.model@.contains_key(self.keys@[j]@)
                    && self.model@[self.keys@[j]@] == self.vals@[j] by {
                    assert(self.keys@ == old(self).keys@);
                    if j != i {
                        assert(old(self).keys@[j]@ != old(self).keys@[i as int]@);
                        assert(old(self).model@.contains_key(old(self).keys@[j]@));
                        assert(self.vals@[j] == old(self).vals@[j]);
                    } else {
                        assert(self.vals@[j] == value);
                    }
                }
            },
            None => {
                self.keys.push(key);
                self.vals.push(value);
                self.model = Ghost(self.model@.insert(key@, value));
                let ghost n = self.keys@.len() - 1;
                assert forall|k: Seq<u8>| #[trigger] self.model@.contains_key(k) implies exists|j: int|
                    0 <= j < self.keys@.len() && #[trigger] self.keys@[j]@ == k by {
                    if k != key@ {
                        assert(old(self).model@.contains_key(k));
                        let j = choose|j: int| 0 <= j < old(self).keys@.len() && #[trigger] old(self).keys@[j]@ == k;
                        assert(self.keys@[j]@ == k);
                    } else {
                        assert(self.keys@[n]@ == k);
                    }
                }
                assert forall|j: int| 0 <= j < self.keys@.len() implies #[trigger] self.model@.contains_key(self.keys@[j]@)
                    && self.model@[self.keys@[j]@] == self.vals@[j] by {
                    if j < n {
                        assert(old(self).keys@[j]@ != key@);
                    }
                }
            },
        }
    }
}

} // verus!
