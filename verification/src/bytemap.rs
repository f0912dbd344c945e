//! A map from byte texts to values, kept as a list of entries in the order
//! in which the keys were first stored.
use vstd::prelude::*;

verus! {

/// Whether two byte texts are the same.
pub fn same_bytes(a: &[u8], b: &[u8]) -> (r: bool)
    ensures
        r == (a@ == b@),
{
    if a.len() != b.len() {
        return false;
    }
    let mut i: usize = 0;
    while i < a.len()
        invariant
            a.len() == b.len(),
            i <= a.len(),
            forall|j: int| 0 <= j < i ==> a[j] == b[j],
        decreases a.len() - i,
    {
        if a[i] != b[i] {
            return false;
        }
        i += 1;
    }
    assert(a@ =~= b@);
    true
}

/// A copy of a byte text.
pub fn copy_bytes(a: &[u8]) -> (out: Vec<u8>)
    ensures
        out@ == a@,
{
    let mut out: Vec<u8> = Vec::new();
    out.extend_from_slice(a);
    assert(out@ =~= a@);
    out
}

/// A map from byte texts to values of type `V`.
pub struct ByteMap<V> {
    keys: Vec<Vec<u8>>,
    values: Vec<V>,
}

impl<V> ByteMap<V> {
    /// The keys, in the order in which they were first stored.
    pub closed spec fn keys(&self) -> Seq<Seq<u8>> {
        Seq::new(self.keys@.len(), |i: int| self.keys@[i]@)
    }

    /// The values, each at the place of its key.
    pub closed spec fn values(&self) -> Seq<V> {
        self.values@
    }

    /// The invariant of the map: every key has its value, and no key is
    /// held twice.
    pub open spec fn wf(&self) -> bool {
        &&& self.keys().len() == self.values().len()
        &&& forall|i: int, j: int|
            0 <= i < self.keys().len() && 0 <= j < self.keys().len() && i != j
                ==> #[trigger] self.keys()[i] != #[trigger] self.keys()[j]
    }

    /// Whether `key` is held at place `i`.
    pub open spec fn key_at(&self, i: int, key: Seq<u8>) -> bool {
        0 <= i < self.keys().len() && self.keys()[i] == key
    }
}

impl<V> View for ByteMap<V> {
    type V = Map<Seq<u8>, V>;

    open spec fn view(&self) -> Map<Seq<u8>, V> {
        Map::new(
            |key: Seq<u8>| exists|i: int| self.key_at(i, key),
            |key: Seq<u8>| self.values()[choose|i: int| self.key_at(i, key)],
        )
    }
}

impl<V> ByteMap<V> {
    /// What is held at a place is what the map gives for the key there.
    pub proof fn lemma_at(&self, i: int)
        requires
            self.wf(),
            0 <= i < self.keys().len(),
        ensures
            self@.dom().contains(self.keys()[i]),
            self@[self.keys()[i]] == self.values()[i],
    {
        let key = self.keys()[i];
        assert(self.key_at(i, key));
        let c = choose|c: int| self.key_at(c, key);
        assert(c == i);
    }

    /// A map without keys.
    pub fn new() -> (m: Self)
        ensures
            m.wf(),
            m@ == Map::<Seq<u8>, V>::empty(),
            m.keys().len() == 0,
    {
        let m = ByteMap { keys: Vec::new(), values: Vec::new() };
        assert(m@ =~= Map::<Seq<u8>, V>::empty());
        m
    }

    /// The number of keys.
    pub fn len(&self) -> (n: usize)
        requires
            self.wf(),
        ensures
            n == self.keys().len(),
            n == self.values().len(),
    {
        self.keys.len()
    }

    /// The key at place `i`.
    pub fn key(&self, i: usize) -> (k: &[u8])
        requires
            self.wf(),
            i < self.keys().len(),
        ensures
            k@ == self.keys()[i as int],
    {
        self.keys[i].as_slice()
    }

    /// The value at place `i`.
    pub fn value(&self, i: usize) -> (v: &V)
        requires
            self.wf(),
            i < self.keys().len(),
        ensures
            *v == self.values()[i as int],
    {
        &self.values[i]
    }

    /// The place of `key`, if the map holds it.
    pub fn position(&self, key: &[u8]) -> (r: Option<usize>)
        requires
            self.wf(),
        ensures
            match r {
                Some(i) => self.key_at(i as int, key@) && self@.dom().contains(key@) && self@[key@]
                    == self.values()[i as int],
                None => !self@.dom().contains(key@),
            },
    {
        let mut i: usize = 0;
        while i < self.keys.len()
            invariant
                self.wf(),
                i <= self.keys.len(),
                forall|j: int| 0 <= j < i ==> !self.key_at(j, key@),
            decreases self.keys.len() - i,
        {
            if same_bytes(self.keys[i].as_slice(), key) {
                proof {
                    assert(self.key_at(i as int, key@));
                    self.lemma_at(i as int);
                }
                return Some(i);
            }
            i += 1;
        }
        None
    }

    /// The value stored under `key`, if there is one.
    pub fn get(&self, key: &[u8]) -> (r: Option<&V>)
        requires
            self.wf(),
        ensures
            match r {
                Some(v) => self@.dom().contains(key@) && *v == self@[key@],
                None => !self@.dom().contains(key@),
            },
    {
        match self.position(key) {
            Some(i) => Some(&self.values[i]),
            None => None,
        }
    }

    /// Stores `value` at place `i`, in place of what was stored there.
    pub fn set(&mut self, i: usize, value: V)
        requires
            old(self).wf(),
            i < old(self).keys().len(),
        ensures
            final(self).wf(),
            final(self).keys() == old(self).keys(),
            final(self).values() == old(self).values().update(i as int, value),
            final(self)@ == old(self)@.insert(old(self).keys()[i as int], value),
    {
        let ghost key = self.keys()[i as int];
        self.values.set(i, value);
        proof {
            assert(self.keys() == old(self).keys());
            assert forall|q: Seq<u8>| #[trigger]
                self@.dom().contains(q) == old(self)@.insert(key, value).dom().contains(q) by {
                if self@.dom().contains(q) {
                    let j = choose|j: int| self.key_at(j, q);
                    assert(old(self).key_at(j, q));
                }
                if old(self)@.dom().contains(q) {
                    let j = choose|j: int| old(self).key_at(j, q);
                    assert(self.key_at(j, q));
                }
                if q == key {
                    assert(self.key_at(i as int, q));
                }
            }
            assert forall|q: Seq<u8>| self@.dom().contains(q) implies #[trigger] self@[q] == old(
                self,
            )@.insert(key, value)[q] by {
                let j = choose|j: int| self.key_at(j, q);
                self.lemma_at(j);
                old(self).lemma_at(j);
            }
            assert(self@ =~= old(self)@.insert(key, value));
        }
    }

    /// Stores `value` at place `i` and gives back what was stored there.
    pub fn replace(&mut self, i: usize, value: V) -> (was: V)
        requires
            old(self).wf(),
            i < old(self).keys().len(),
        ensures
            final(self).wf(),
            was == old(self).values()[i as int],
            final(self).keys() == old(self).keys(),
            final(self).values() == old(self).values().update(i as int, value),
            final(self)@ == old(self)@.insert(old(self).keys()[i as int], value),
    {
        self.values.push(value);
        let was = self.values.swap_remove(i);
        proof {
            assert(self.values@ =~= old(self).values().update(i as int, value));
            assert(self.keys() == old(self).keys());
            let key = self.keys()[i as int];
            assert forall|q: Seq<u8>| #[trigger]
                self@.dom().contains(q) == old(self)@.insert(key, value).dom().contains(q) by {
                if self@.dom().contains(q) {
                    let j = choose|j: int| self.key_at(j, q);
                    assert(old(self).key_at(j, q));
                }
                if old(self)@.dom().contains(q) {
                    let j = choose|j: int| old(self).key_at(j, q);
                    assert(self.key_at(j, q));
                }
                if q == key {
                    assert(self.key_at(i as int, q));
                }
            }
            assert forall|q: Seq<u8>| self@.dom().contains(q) implies #[trigger] self@[q] == old(
                self,
            )@.insert(key, value)[q] by {
                let j = choose|j: int| self.key_at(j, q);
                self.lemma_at(j);
                old(self).lemma_at(j);
            }
            assert(self@ =~= old(self)@.insert(key, value));
        }
        was
    }

    /// Stores `value` under `key`, in place of what was stored there. A new
    /// key goes to the end.
    pub fn insert(&mut self, key: &[u8], value: V)
        requires
            old(self).wf(),
        ensures
            final(self).wf(),
            final(self)@ == old(self)@.insert(key@, value),
            old(self)@.dom().contains(key@) ==> final(self).keys() == old(self).keys(),
            !old(self)@.dom().contains(key@) ==> final(self).keys() == old(self).keys().push(key@)
                && final(self).values() == old(self).values().push(value),
    {
        match self.position(key) {
            Some(i) => {
                self.set(i, value);
            },
            None => {
                let ghost n = self.keys().len() as int;
                self.keys.push(copy_bytes(key));
                self.values.push(value);
                proof {
                    assert(self.keys() == old(self).keys().push(key@));
                    assert forall|a: int, b: int|
                        0 <= a < self.keys().len() && 0 <= b < self.keys().len() && a
                            != b implies #[trigger] self.keys()[a] != #[trigger] self.keys()[b] by {
                        if a < n && b == n && self.keys()[a] == key@ {
                            assert(old(self).key_at(a, key@));
                        }
                        if b < n && a == n && self.keys()[b] == key@ {
                            assert(old(self).key_at(b, key@));
                        }
                    }
                    assert forall|q: Seq<u8>| #[trigger]
                        self@.dom().contains(q) == old(self)@.insert(key@, value).dom().contains(
                            q,
                        ) by {
                        if self@.dom().contains(q) {
                            let j = choose|j: int| self.key_at(j, q);
                            if j < n {
                                assert(old(self).key_at(j, q));
                            }
                        }
                        if old(self)@.dom().contains(q) {
                            let j = choose|j: int| old(self).key_at(j, q);
                            assert(self.key_at(j, q));
                        }
                        if q == key@ {
                            assert(self.key_at(n, q));
                        }
                    }
                    assert forall|q: Seq<u8>| self@.dom().contains(q) implies #[trigger] self@[q]
                        == old(self)@.insert(key@, value)[q] by {
                        let j = choose|j: int| self.key_at(j, q);
                        self.lemma_at(j);
                        if j < n {
                            old(self).lemma_at(j);
                        }
                    }
                    assert(self@ =~= old(self)@.insert(key@, value));
                }
            },
        }
    }
}

} // verus!
