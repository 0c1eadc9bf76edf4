//! Key router: binds each key to a worker slot in first-seen order, within a
//! fixed capacity.
use vstd::prelude::*;

verus! {

/// No key occurs twice.
pub open spec fn distinct(keys: Seq<Seq<u8>>) -> bool {
    forall|i: int, j: int| 0 <= i < j < keys.len() ==> keys[i] != keys[j]
}

/// The bindings after routing `key`, where slot `k` serves `keys[k]`: unchanged
/// for a known key, one more for a new key while a slot is free, and `None`
/// when a new key finds every slot taken.
pub open spec fn route_step(keys: Seq<Seq<u8>>, capacity: nat, key: Seq<u8>) -> Option<
    Seq<Seq<u8>>,
> {
    if keys.contains(key) {
        Some(keys)
    } else if keys.len() < capacity {
        Some(keys.push(key))
    } else {
        None
    }
}

/// A new key arrived with every worker slot already bound.
#[derive(Clone, Copy, Debug, PartialEq, Eq, Structural)]
pub struct CapacityExceeded;

/// Whether two byte strings are equal.
pub fn bytes_equal(a: &[u8], b: &[u8]) -> (r: bool)
    ensures
        r == (a@ == b@),
{
    if a.len() != b.len() {
        return false;
    }
    let mut i: usize = 0;
    while i < a.len()
        invariant
            a@.len() == b@.len(),
            0 <= i <= a@.len(),
            forall|j: int| 0 <= j < i ==> a@[j] == b@[j],
        decreases a@.len() - i,
    {
        if a[i] != b[i] {
            return false;
        }
        i = i + 1;
    }
    assert(a@ =~= b@);
    true
}

/// The key-to-slot map: slot `k` is bound to the `k`-th key first seen.
pub struct KeyRouter {
    keys: Vec<Vec<u8>>,
    capacity: usize,
}

impl KeyRouter {
    /// The bound keys, by slot.
    pub closed spec fn keys(&self) -> Seq<Seq<u8>> {
        self.keys@.map_values(|k: Vec<u8>| k@)
    }

    pub closed spec fn capacity(&self) -> nat {
        self.capacity as nat
    }

    pub open spec fn wf(&self) -> bool {
        distinct(self.keys()) && self.keys().len() <= self.capacity()
    }

    /// A router with no key bound and `capacity` slots.
    pub fn new(capacity: usize) -> (r: KeyRouter)
        ensures
            r.wf(),
            r.keys() == Seq::<Seq<u8>>::empty(),
            r.capacity() == capacity,
    {
        let r = KeyRouter { keys: Vec::new(), capacity };
        assert(r.keys() =~= Seq::<Seq<u8>>::empty());
        r
    }

    /// The number of bound slots.
    pub fn len(&self) -> (r: usize)
        ensures
            r == self.keys().len(),
    {
        self.keys.len()
    }

    /// The key bound to `slot`.
    pub fn key_at(&self, slot: usize) -> (r: &Vec<u8>)
        requires
            slot < self.keys().len(),
        ensures
            r@ == self.keys()[slot as int],
    {
        &self.keys[slot]
    }

    /// The slot bound to `key`, if any.
    pub fn lookup(&self, key: &[u8]) -> (r: Option<usize>)
        ensures
            match r {
                Some(slot) => slot < self.keys().len() && self.keys()[slot as int] == key@,
                None => !self.keys().contains(key@),
            },
    {
        let mut i: usize = 0;
        while i < self.keys.len()
            invariant
                0 <= i <= self.keys@.len(),
                forall|j: int| 0 <= j < i ==> self.keys()[j] != key@,
            decreases self.keys@.len() - i,
        {
            if bytes_equal(self.keys[i].as_slice(), key) {
                return Some(i);
            }
            i = i + 1;
        }
        None
    }

    /// The slot of `key`, binding the next free slot to it when it is new.
    pub fn resolve(&mut self, key: &[u8]) -> (r: Result<usize, CapacityExceeded>)
        requires
            old(self).wf(),
        ensures
            final(self).wf(),
            final(self).capacity() == old(self).capacity(),
            match r {
                Ok(slot) => {
                    &&& route_step(old(self).keys(), old(self).capacity(), key@) == Some(
                        final(self).keys(),
                    )
                    &&& slot < final(self).keys().len()
                    &&& final(self).keys()[slot as int] == key@
                },
                Err(_) => {
                    &&& route_step(old(self).keys(), old(self).capacity(), key@) is None
                    &&& final(self).keys() == old(self).keys()
                },
            },
    {
        match self.lookup(key) {
            Some(slot) => {
                assert(self.keys().contains(key@));
                Ok(slot)
            },
            None => {
                if self.keys.len() < self.capacity {
                    let slot = self.keys.len();
                    let ghost prev = self.keys();
                    self.keys.push(vstd::slice::slice_to_vec(key));
                    assert(self.keys() =~= prev.push(key@));
                    Ok(slot)
                } else {
                    Err(CapacityExceeded)
                }
            },
        }
    }
}

} // verus!
