//! The request environment: a map from normalized field names to raw
//! field values, both byte strings.

use vstd::prelude::*;
use crate::bytes::views;

verus! {

/// Byte-string keyed map with unique keys. Entries sit in two parallel
/// vectors; the ghost model is the map they stand for.
pub struct Environ {
    keys: Vec<Vec<u8>>,
    values: Vec<Vec<u8>>,
    model: Ghost<Map<Seq<u8>, Seq<u8>>>,
}

impl View for Environ {
    type V = Map<Seq<u8>, Seq<u8>>;

    closed spec fn view(&self) -> Map<Seq<u8>, Seq<u8>> {
        self.model@
    }
}

/// Compares two byte strings.
pub fn bytes_eq(a: &[u8], b: &[u8]) -> (r: bool)
    ensures
        r == (a@ == b@),
{
    if a.len() != b.len() {
        return false;
    }
    let mut i: usize = 0;
    while i < a.len()
        invariant
            a@.len() == b@.len(),
            i <= a.len(),
            forall|j: int| 0 <= j < i ==> a@[j] == b@[j],
        decreases a.len() - i,
    {
        if a[i] != b[i] {
            return false;
        }
        i = i + 1;
    }
    assert(a@ =~= b@);
    true
}

impl Environ {
    /// Well-formedness: keys are unique and the entries hold exactly the model.
    pub closed spec fn wf(&self) -> bool {
        &&& self.keys@.len() == self.values@.len()
        &&& forall|i: int, j: int|
            0 <= i < j < self.keys@.len() ==> self.keys@[i]@ != self.keys@[j]@
        &&& forall|i: int|
            0 <= i < self.keys@.len() ==> {
                &&& self.model@.contains_key(#[trigger] self.keys@[i]@)
                &&& self.model@[self.keys@[i]@] == self.values@[i]@
            }
        &&& forall|k: Seq<u8>|
            #[trigger] self.model@.contains_key(k) ==> exists|i: int|
                0 <= i < self.keys@.len() && self.keys@[i]@ == k
    }

    /// An empty environment.
    pub fn new() -> (r: Environ)
        ensures
            r.wf(),
            r@ == Map::<Seq<u8>, Seq<u8>>::empty(),
    {
        Environ { keys: Vec::new(), values: Vec::new(), model: Ghost(Map::empty()) }
    }

    fn find(&self, key: &[u8]) -> (r: Option<usize>)
        requires
            self.wf(),
        ensures
            match r {
                Some(i) => i < self.keys@.len() && self.keys@[i as int]@ == key@,
                None => !self@.contains_key(key@),
            },
    {
        let mut i: usize = 0;
        while i < self.keys.len()
            invariant
                self.wf(),
                i <= self.keys@.len(),
                forall|j: int| 0 <= j < i ==> self.keys@[j]@ != key@,
            decreases self.keys@.len() - i,
        {
            if bytes_eq(self.keys[i].as_slice(), key) {
                return Some(i);
            }
            i = i + 1;
        }
        None
    }

    /// The value stored under `key`, if any.
    pub fn get(&self, key: &[u8]) -> (r: Option<&Vec<u8>>)
        requires
            self.wf(),
        ensures
            match r {
                Some(v) => self@.contains_key(key@) && v@ == self@[key@],
                None => !self@.contains_key(key@),
            },
    {
        match self.find(key) {
            Some(i) => Some(&self.values[i]),
            None => None,
        }
    }

    /// True when `key` has a value.
    pub fn contains_key(&self, key: &[u8]) -> (r: bool)
        requires
            self.wf(),
        ensures
            r == self@.contains_key(key@),
    {
        self.find(key).is_some()
    }

    /// Every key, each once, in no particular order.
    pub fn keys(&self) -> (r: Vec<Vec<u8>>)
        requires
            self.wf(),
        ensures
            views(r@).no_duplicates(),
            forall|k: Seq<u8>| #[trigger] views(r@).contains(k) <==> self@.contains_key(k),
    {
        let mut r: Vec<Vec<u8>> = Vec::new();
        let mut i: usize = 0;
        while i < self.keys.len()
            invariant
                self.wf(),
                i <= self.keys@.len(),
                views(r@) =~= views(self.keys@.take(i as int)),
            decreases self.keys@.len() - i,
        {
            let k = vstd::slice::slice_to_vec(self.keys[i].as_slice());
            r.push(k);
            i = i + 1;
            assert(views(self.keys@.take(i as int)) =~= views(self.keys@.take(i - 1)).push(k@));
        }
        assert(self.keys@.take(i as int) =~= self.keys@);
        assert forall|k: Seq<u8>| #[trigger] views(r@).contains(k) <==> self@.contains_key(k) by {
            if self@.contains_key(k) {
                let j = choose|j: int| 0 <= j < self.keys@.len() && self.keys@[j]@ == k;
                assert(views(r@)[j] == k);
            }
        }
        r
    }

    /// Stores `value` under `key`, replacing any earlier value.
    pub fn insert(&mut self, key: Vec<u8>, value: Vec<u8>)
        requires
            old(self).wf(),
        ensures
            final(self).wf(),
            final(self)@ == old(self)@.insert(key@, value@),
    {
        let ghost k = key@;
        let ghost v = value@;
        match self.find(key.as_slice()) {
            Some(i) => {
                self.values.set(i, value);
            },
            None => {
                self.keys.push(key);
                self.values.push(value);
            },
        }
        self.model = Ghost(self.model@.insert(k, v));
        proof {
            assert forall|k2: Seq<u8>| #[trigger] self.model@.contains_key(k2) implies exists|i: int|
                0 <= i < self.keys@.len() && self.keys@[i]@ == k2 by {
                if k2 == k {
                    let j = if self.keys@.len() > old(self).keys@.len() {
                        (self.keys@.len() - 1) as int
                    } else {
                        choose|j: int| 0 <= j < self.keys@.len() && self.keys@[j]@ == k
                    };
                    assert(0 <= j < self.keys@.len() && self.keys@[j]@ == k2);
                } else {
                    assert(old(self).model@.contains_key(k2));
                    let j = choose|j: int| 0 <= j < old(self).keys@.len() && old(self).keys@[j]@ == k2;
                    assert(self.keys@[j] == old(self).keys@[j]);
                }
            }
        }
    }
}

} // verus!
