//! A cache of decoded commits: a commit that was decoded once is handed
//! out again without being decoded a second time.

use crate::bytes::file_view;
use crate::commit::{result_view, Commit, CommitView};
use crate::error::Error;
use crate::object_id::{is_id_len, ObjectId};
use crate::odb::{commit_among, find_commit, packs_view};
use crate::pack::Pack;
use vstd::prelude::*;

verus! {

/// Decoded commits by id, and a count of the decodings that were made to
/// fill it.
#[derive(Debug)]
pub struct CommitCache {
    buckets: Vec<Vec<Commit>>,
    decodes: usize,
}

/// The view of a commit that may be missing.
pub open spec fn found_view(found: Option<Commit>) -> Option<CommitView> {
    match found {
        Some(c) => Some(c@),
        None => None,
    }
}

/// The buckets of a cache: the commits whose ids start with the same byte
/// lie together.
struct Buckets {
    all: Seq<Vec<Commit>>,
}

impl Buckets {
    spec fn at(self, b: int, j: int) -> CommitView {
        self.all[b]@[j]@
    }

    spec fn in_range(self, b: int, j: int) -> bool {
        0 <= b < self.all.len() && 0 <= j < self.all[b]@.len()
    }

    spec fn holds(self, id: Seq<u8>) -> bool {
        exists|b: int, j: int| self.in_range(b, j) && (#[trigger] self.at(b, j)).id == id
    }

    spec fn held(self, id: Seq<u8>) -> CommitView {
        let (b, j) = choose|b: int, j: int|
            self.in_range(b, j) && (#[trigger] self.at(b, j)).id == id;
        self.at(b, j)
    }

    spec fn wf(self) -> bool {
        &&& self.all.len() == 256
        &&& forall|b: int, j: int|
            self.in_range(b, j) ==> is_id_len((#[trigger] self.at(b, j)).id.len()) && self.at(
                b,
                j,
            ).id[0] == b
        &&& forall|b: int, j: int, k: int|
            self.in_range(b, j) && self.in_range(b, k) && j != k ==> (#[trigger] self.at(b, j)).id
                != (#[trigger] self.at(b, k)).id
    }

    spec fn commits(self) -> Map<Seq<u8>, CommitView> {
        Map::new(|id: Seq<u8>| self.holds(id), |id: Seq<u8>| self.held(id))
    }

    proof fn lemma_held(self, b: int, j: int)
        requires
            self.wf(),
            self.in_range(b, j),
        ensures
            self.holds(self.at(b, j).id),
            self.held(self.at(b, j).id) == self.at(b, j),
    {
        let id = self.at(b, j).id;
        let (x, y) = choose|x: int, y: int|
            self.in_range(x, y) && (#[trigger] self.at(x, y)).id == id;
    }
}

impl CommitCache {
    spec fn held_in(self) -> Buckets {
        Buckets { all: self.buckets@ }
    }

    /// What holds of every cache that this module hands out.
    pub closed spec fn wf(&self) -> bool {
        self.held_in().wf()
    }

    /// The commits in the cache, by id.
    pub closed spec fn commits(&self) -> Map<Seq<u8>, CommitView> {
        self.held_in().commits()
    }

    /// How many commits were decoded on behalf of the cache.
    pub closed spec fn decodes(&self) -> nat {
        self.decodes as nat
    }

    /// The commit in the cache under `id`, if there is one.
    pub open spec fn cached(&self, id: Seq<u8>) -> Option<CommitView> {
        if self.commits().dom().contains(id) {
            Some(self.commits()[id])
        } else {
            None
        }
    }

    /// An empty cache.
    pub fn new() -> (r: CommitCache)
        ensures
            r.wf(),
            r.commits() == Map::<Seq<u8>, CommitView>::empty(),
            r.decodes() == 0,
    {
        let mut buckets: Vec<Vec<Commit>> = Vec::new();
        let mut i: usize = 0;
        while i < 256
            invariant
                i <= 256,
                buckets@.len() == i,
                forall|b: int| 0 <= b < i ==> (#[trigger] buckets@[b])@.len() == 0,
            decreases 256 - i,
        {
            buckets.push(Vec::new());
            i += 1;
        }
        let r = CommitCache { buckets, decodes: 0 };
        r
    }

    /// How many commits were decoded on behalf of the cache.
    pub fn decode_count(&self) -> (n: usize)
        ensures
            n == self.decodes(),
    {
        self.decodes
    }

    /// The commit in the cache under `id`, if there is one.
    pub fn lookup(&self, id: &ObjectId) -> (r: Option<Commit>)
        requires
            self.wf(),
        ensures
            found_view(r) == self.cached(id@),
    {
        proof {
            use_type_invariant(id);
        }
        let b: usize = id.as_bytes()[0] as usize;
        let bucket = &self.buckets[b];
        let ghost held = self.held_in();
        let mut j: usize = 0;
        while j < bucket.len()
            invariant
                held == self.held_in(),
                held.wf(),
                b < self.buckets@.len(),
                *bucket == self.buckets@[b as int],
                is_id_len(id@.len()),
                id@[0] == b,
                j <= bucket@.len(),
                forall|k: int| 0 <= k < j ==> (#[trigger] held.at(b as int, k)).id != id@,
            decreases bucket@.len() - j,
        {
            if bucket[j].id().same(id) {
                proof {
                    held.lemma_held(b as int, j as int);
                }
                return Some(bucket[j].clone());
            }
            j += 1;
        }
        proof {
            if held.holds(id@) {
                let (x, y) = choose|x: int, y: int|
                    held.in_range(x, y) && (#[trigger] held.at(x, y)).id == id@;
            }
        }
        None
    }

    /// The commit `id`: out of the cache where it is there, and else
    /// decoded as `find_commit` does, counted, and kept where it could be
    /// decoded. `loose` is the loose object file under the id, `None` where
    /// there is no such file.
    pub fn find_commit(
        &mut self,
        id: ObjectId,
        loose: Option<&[u8]>,
        packs: &Vec<Pack>,
        limit: usize,
    ) -> (r: Result<Commit, Error>)
        requires
            old(self).wf(),
        ensures
            final(self).wf(),
            match old(self).cached(id@) {
                Some(c) => result_view(r) == Ok::<CommitView, Error>(c) && final(self).commits()
                    == old(self).commits() && final(self).decodes() == old(self).decodes(),
                None => result_view(r) == commit_among(
                    id@,
                    file_view(loose),
                    packs_view(packs@),
                    limit,
                ) && final(self).decodes() == (if old(self).decodes() < usize::MAX {
                    old(self).decodes() + 1
                } else {
                    old(self).decodes()
                }) && final(self).commits() == (match result_view(r) {
                    Ok(c) => old(self).commits().insert(id@, c),
                    Err(_) => old(self).commits(),
                }),
            },
    {
        match self.lookup(&id) {
            Some(c) => {
                return Ok(c);
            },
            None => {},
        }
        proof {
            use_type_invariant(&id);
        }
        let b: usize = id.as_bytes()[0] as usize;
        let ghost key = id@;
        let found = find_commit(id, loose, packs, limit);
        let ghost before = self.held_in();
        if self.decodes < usize::MAX {
            self.decodes += 1;
        }
        match found {
            Ok(c) => {
                let kept = c.clone();
                let ghost at = self.buckets@[b as int]@.len() as int;
                self.buckets[b].push(kept);
                let ghost after = self.held_in();
                proof {
                    assert(after.at(b as int, at) == c@);
                    assert forall|x: int, y: int| before.in_range(x, y) implies after.in_range(x, y)
                        && #[trigger] after.at(x, y) == before.at(x, y) by {}
                    assert forall|x: int, y: int| after.in_range(x, y) && !(x == b && y == at)
                        implies before.in_range(x, y) && #[trigger] after.at(x, y) == before.at(
                        x,
                        y,
                    ) by {}
                    assert forall|x: int, j: int, k: int|
                        after.in_range(x, j) && after.in_range(x, k) && j != k implies (
                    #[trigger] after.at(x, j)).id != (#[trigger] after.at(x, k)).id by {
                        if x == b && (j == at || k == at) {
                            let other = if j == at {
                                k
                            } else {
                                j
                            };
                            assert(before.at(x, other) == after.at(x, other));
                            if before.at(x, other).id == key {
                                assert(before.holds(key));
                            }
                        } else {
                            assert(before.at(x, j) == after.at(x, j));
                            assert(before.at(x, k) == after.at(x, k));
                        }
                    }
                    assert forall|s: Seq<u8>| after.holds(s) <==> before.holds(s) || s == key by {
                        if before.holds(s) {
                            let (x, y) = choose|x: int, y: int|
                                before.in_range(x, y) && (#[trigger] before.at(x, y)).id == s;
                            assert(after.at(x, y) == before.at(x, y));
                        }
                        if after.holds(s) && s != key {
                            let (x, y) = choose|x: int, y: int|
                                after.in_range(x, y) && (#[trigger] after.at(x, y)).id == s;
                            assert(before.at(x, y) == after.at(x, y));
                        }
                    }
                    assert forall|s: Seq<u8>| after.holds(s) implies after.held(s) == (if s == key {
                        c@
                    } else {
                        before.held(s)
                    }) by {
                        if s == key {
                            after.lemma_held(b as int, at);
                        } else {
                            let (x, y) = choose|x: int, y: int|
                                before.in_range(x, y) && (#[trigger] before.at(x, y)).id == s;
                            before.lemma_held(x, y);
                            assert(after.at(x, y) == before.at(x, y));
                            after.lemma_held(x, y);
                        }
                    }
                }
                Ok(c)
            },
            Err(e) => Err(e),
        }
    }
}

} // verus!
