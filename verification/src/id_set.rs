//! A set of object ids, kept in one bucket per leading byte.

use crate::object_id::{is_id_len, ObjectId};
use vstd::prelude::*;

verus! {

/// A set of object ids that only grows.
#[derive(Debug)]
pub struct IdSet {
    buckets: Vec<Vec<ObjectId>>,
}

impl View for IdSet {
    type V = Set<Seq<u8>>;

    closed spec fn view(&self) -> Set<Seq<u8>> {
        Set::new(|id: Seq<u8>| self.holds(id))
    }
}

impl IdSet {
    spec fn holds(self, id: Seq<u8>) -> bool {
        exists|b: int, j: int|
            0 <= b < self.buckets@.len() && 0 <= j < self.buckets@[b]@.len()
                && #[trigger] self.buckets@[b]@[j]@ == id
    }

    /// Whether every id lies in the bucket of its leading byte.
    pub closed spec fn wf(self) -> bool {
        &&& self.buckets@.len() == 256
        &&& forall|b: int, j: int|
            0 <= b < self.buckets@.len() && 0 <= j < self.buckets@[b]@.len() ==> is_id_len(
                (#[trigger] self.buckets@[b]@[j])@.len(),
            ) && self.buckets@[b]@[j]@[0] == b
    }

    /// The empty set.
    pub fn new() -> (r: IdSet)
        ensures
            r.wf(),
            r@ == Set::<Seq<u8>>::empty(),
    {
        let mut buckets: Vec<Vec<ObjectId>> = Vec::new();
        let mut i: usize = 0;
        while i < 256
            invariant
                i <= 256,
                buckets@.len() == i,
                forall|b: int| 0 <= b < i ==> (#[trigger] buckets@[b])@.len() == 0,
            decreases 256 - i,
        {
            buckets.push(Vec::new());
            i += 1;
        }
        let r = IdSet { buckets };
        r
    }

    /// Whether `id` is in the set.
    pub fn contains(&self, id: &ObjectId) -> (r: bool)
        requires
            self.wf(),
        ensures
            r == self@.contains(id@),
    {
        proof {
            use_type_invariant(id);
        }
        let b: usize = id.as_bytes()[0] as usize;
        let bucket = &self.buckets[b];
        let mut j: usize = 0;
        while j < bucket.len()
            invariant
                self.wf(),
                b < self.buckets@.len(),
                *bucket == self.buckets@[b as int],
                is_id_len(id@.len()),
                id@[0] == b,
                j <= bucket@.len(),
                forall|k: int| 0 <= k < j ==> (#[trigger] bucket@[k])@ != id@,
            decreases bucket@.len() - j,
        {
            if bucket[j].same(id) {
                return true;
            }
            j += 1;
        }
        false
    }

    /// Puts `id` into the set.
    pub fn insert(&mut self, id: ObjectId)
        requires
            old(self).wf(),
        ensures
            final(self).wf(),
            final(self)@ == old(self)@.insert(id@),
    {
        proof {
            use_type_invariant(&id);
        }
        let b: usize = id.as_bytes()[0] as usize;
        let ghost before = *self;
        let ghost at = self.buckets@[b as int]@.len() as int;
        self.buckets[b].push(id);
        proof {
            assert(self.buckets@[b as int]@[at]@ == id@);
            assert forall|s: Seq<u8>| before.holds(s) || s == id@ implies self.holds(s) by {
                if before.holds(s) {
                    let (x, j) = choose|x: int, j: int|
                        0 <= x < before.buckets@.len() && 0 <= j < before.buckets@[x]@.len()
                            && #[trigger] before.buckets@[x]@[j]@ == s;
                    assert(self.buckets@[x]@[j]@ == s);
                }
            }
            assert forall|s: Seq<u8>| self.holds(s) implies before.holds(s) || s == id@ by {
                let (x, j) = choose|x: int, j: int|
                    0 <= x < self.buckets@.len() && 0 <= j < self.buckets@[x]@.len()
                        && #[trigger] self.buckets@[x]@[j]@ == s;
                if !(x == b && j == at) {
                    assert(before.buckets@[x]@[j]@ == s);
                }
            }
        }
    }
}

} // verus!
