//! A repository held in memory: loose object files by id and reference
//! files by name, and the queries of this crate run against them from
//! start to end.

use crate::bytes::{bytes_equal_to, copy_range, file_of, file_view, Files};
use crate::commit::{ids_view, result_view, Commit, CommitView};
use crate::error::{Error, RefResolutionError};
use crate::odb::{commit_among, find_commit, packs_view, PackView};
use crate::pack::{has_pack_header, Pack};
use crate::pack_index::{is_index, lemma_index_is_unique, IndexEntryView, PackIndex};
use crate::object_id::{hex_decode, is_hex_id, ObjectId};
use crate::refs::{
    resolve_from, resolve_in, start_points, start_points_from, RefStep, Resolver, SeedStep,
    MAX_HOPS,
};
use crate::walk::{
    commits_view, finished, lemma_after_next, lemma_start, FailureView, OnError, Order, Step,
    WalkFailure, Walker,
};
use crate::walk_laws::{
    distinct_ids, has_id, latest_first, lemma_failure_stops, lemma_walk_by_time_is_ordered,
    lemma_walk_emits_all,
    lemma_walk_emits_each_once, lemma_walk_from_nothing, loadable, monotone, reachable, walk_run,
    RunView, Store,
};
use vstd::prelude::*;
use vstd::string::StringSliceAdditionalSpecFns;

verus! {

/// A file: its name and its contents.
#[derive(Debug)]
struct Entry {
    key: Vec<u8>,
    value: Vec<u8>,
}

/// What a run of entries holds: for each name the contents that were put
/// under it last.
spec fn map_of(entries: Seq<Entry>) -> Files
    decreases entries.len(),
{
    if entries.len() == 0 {
        Map::empty()
    } else {
        map_of(entries.drop_last()).insert(
            entries[entries.len() - 1].key@,
            entries[entries.len() - 1].value@,
        )
    }
}

/// Files kept in memory, by name.
#[derive(Debug)]
pub struct FileMap {
    entries: Vec<Entry>,
}

impl View for FileMap {
    type V = Files;

    closed spec fn view(&self) -> Files {
        map_of(self.entries@)
    }
}

impl FileMap {
    /// No files.
    pub fn new() -> (r: FileMap)
        ensures
            r@ == Map::<Seq<u8>, Seq<u8>>::empty(),
    {
        FileMap { entries: Vec::new() }
    }

    /// Puts `contents` under `name`, in place of what was there.
    pub fn put(&mut self, name: &[u8], contents: &[u8])
        ensures
            final(self)@ == old(self)@.insert(name@, contents@),
    {
        let key = copy_range(name, 0, name.len());
        let value = copy_range(contents, 0, contents.len());
        assert(key@ =~= name@);
        assert(value@ =~= contents@);
        let ghost before = self.entries@;
        self.entries.push(Entry { key, value });
        assert(self.entries@.drop_last() =~= before);
    }

    /// The contents under `name`, if there are any.
    pub fn get(&self, name: &[u8]) -> (r: Option<&[u8]>)
        ensures
            file_view(r) == file_of(self@, name@),
    {
        let mut i: usize = self.entries.len();
        assert(self.entries@.take(i as int) =~= self.entries@);
        while i > 0
            invariant
                i <= self.entries@.len(),
                file_of(self@, name@) == file_of(map_of(self.entries@.take(i as int)), name@),
            decreases i,
        {
            i -= 1;
            assert(self.entries@.take(i + 1).drop_last() =~= self.entries@.take(i as int));
            if bytes_equal_to(self.entries[i].key.as_slice(), name) {
                return Some(self.entries[i].value.as_slice());
            }
        }
        None
    }
}

/// What a walk over a repository comes to.
#[derive(Debug)]
pub struct WalkOutcome {
    /// The commits, in the order in which the walk handed them out.
    pub commits: Vec<Commit>,
    /// The links that could not be followed, in the order in which they
    /// were tried.
    pub failures: Vec<WalkFailure>,
    /// Whether a failure ended the walk before it was done.
    pub stopped: bool,
}

/// The views of a run of failures.
pub open spec fn failures_view(failures: Seq<WalkFailure>) -> Seq<FailureView> {
    Seq::new(failures.len(), |i: int| failures[i]@)
}

impl WalkOutcome {
    /// Whether this is what the run `r` has come to.
    pub open spec fn is_end_of(self, r: RunView) -> bool {
        &&& finished(r.state)
        &&& commits_view(self.commits@) == r.emitted
        &&& failures_view(self.failures@) == r.failures
        &&& self.stopped == r.state.stopped
    }
}

/// Whether `r` is what a listing makes of the run `run` of a walk that
/// ends at the first failure: the commits that the walk handed out where
/// nothing failed, and else the error of the failure.
pub open spec fn is_listing(r: Result<Vec<Commit>, Error>, run: RunView) -> bool {
    &&& finished(run.state)
    &&& match r {
        Ok(commits) => !run.state.stopped && run.failures.len() == 0 && commits_view(commits@)
            == run.emitted,
        Err(e) => run.state.stopped && run.failures.len() > 0 && e == run.failures[run.failures.len()
            - 1].error,
    }
}

/// A repository held in memory.
#[derive(Debug)]
pub struct Repository {
    objects: FileMap,
    packs: Vec<Pack>,
    refs: FileMap,
    limit: usize,
}

/// The store that loose object files and packs make: under each id the
/// commit that the loose object file under that id holds, and where there
/// is no such file, the commit that the packs hold.
pub open spec fn store_of(objects: Files, packs: Seq<PackView>, limit: usize) -> Store {
    |id: Seq<u8>| commit_among(id, file_of(objects, id), packs, limit)
}

/// The view of an id that was or was not found.
pub open spec fn id_result_view<E>(r: Result<ObjectId, E>) -> Result<Seq<u8>, E> {
    match r {
        Ok(id) => Ok(id@),
        Err(e) => Err(e),
    }
}

impl Repository {
    /// The loose object files, by id.
    pub closed spec fn objects(&self) -> Files {
        self.objects@
    }

    /// The packs, in the order in which they are searched.
    pub closed spec fn packs(&self) -> Seq<PackView> {
        packs_view(self.packs@)
    }

    /// The reference files, by name.
    pub closed spec fn refs(&self) -> Files {
        self.refs@
    }

    /// The number of bytes beyond which an object is not inflated.
    pub closed spec fn limit(&self) -> usize {
        self.limit
    }

    /// The commits of this repository, by id.
    pub open spec fn store(&self) -> Store {
        store_of(self.objects(), self.packs(), self.limit())
    }

    /// A repository without objects and references. No object of more than
    /// `limit` bytes will be inflated.
    pub fn new(limit: usize) -> (r: Repository)
        ensures
            r.objects() == Map::<Seq<u8>, Seq<u8>>::empty(),
            r.packs() == Seq::<PackView>::empty(),
            r.refs() == Map::<Seq<u8>, Seq<u8>>::empty(),
            r.limit() == limit,
    {
        let r = Repository { objects: FileMap::new(), packs: Vec::new(), refs: FileMap::new(), limit };
        r
    }

    /// Stores a loose object file under `id`.
    pub fn add_object(&mut self, id: &ObjectId, file: &[u8])
        ensures
            final(self).objects() == old(self).objects().insert(id@, file@),
            final(self).packs() == old(self).packs(),
            final(self).refs() == old(self).refs(),
            final(self).limit() == old(self).limit(),
    {
        self.objects.put(id.as_bytes(), file);
    }

    /// Adds a pack, to be searched after those that are there: `index_file`
    /// is its index and `data` the pack itself. A pack or an index that is
    /// corrupt is refused, and the repository stays as it is.
    pub fn add_pack(&mut self, index_file: &[u8], data: Vec<u8>) -> (r: Result<(), Error>)
        ensures
            final(self).objects() == old(self).objects(),
            final(self).refs() == old(self).refs(),
            final(self).limit() == old(self).limit(),
            match r {
                Ok(_) => exists|index: Seq<IndexEntryView>|
                    #![trigger is_index(index_file@, index)]
                    is_index(index_file@, index) && has_pack_header(data@, index.len())
                        && final(self).packs() == old(self).packs().push(
                        PackView { index, data: data@ },
                    ),
                Err(e) => e == Error::CorruptObject && final(self).packs() == old(self).packs()
                    && forall|index: Seq<IndexEntryView>| #[trigger]
                    is_index(index_file@, index) ==> !has_pack_header(data@, index.len()),
            },
    {
        let index = match PackIndex::parse(index_file) {
            Ok(index) => index,
            Err(e) => {
                return Err(e);
            },
        };
        let ghost listed = index@;
        match Pack::new(index, data) {
            Ok(pack) => {
                self.packs.push(pack);
                Ok(())
            },
            Err(e) => {
                proof {
                    assert forall|other: Seq<IndexEntryView>| #[trigger]
                        is_index(index_file@, other) implies !has_pack_header(
                        data@,
                        other.len(),
                    ) by {
                        lemma_index_is_unique(index_file@, other, listed);
                    }
                }
                Err(e)
            },
        }
    }

    /// Stores a reference file under `name`.
    pub fn set_ref(&mut self, name: &[u8], contents: &[u8])
        ensures
            final(self).refs() == old(self).refs().insert(name@, contents@),
            final(self).objects() == old(self).objects(),
            final(self).packs() == old(self).packs(),
            final(self).limit() == old(self).limit(),
    {
        self.refs.put(name, contents);
    }

    /// The commit with the id that `id_hex` is the text of. A text that is
    /// not 40 or 64 lowercase hex digits is refused before anything is
    /// looked up.
    pub fn get_commit(&self, id_hex: &str) -> (r: Result<Commit, Error>)
        ensures
            !is_hex_id(id_hex.spec_bytes()) ==> r == Err::<Commit, Error>(Error::InvalidObjectId),
            is_hex_id(id_hex.spec_bytes()) ==> result_view(r) == (self.store())(
                hex_decode(id_hex.spec_bytes()),
            ),
    {
        let id = match ObjectId::parse(id_hex) {
            Ok(id) => id,
            Err(e) => {
                return Err(e);
            },
        };
        let file = self.objects.get(id.as_bytes());
        find_commit(id, file, &self.packs, self.limit)
    }

    /// The id that the reference `name` resolves to.
    pub fn resolve(&self, name: &[u8]) -> (r: Result<ObjectId, RefResolutionError>)
        ensures
            id_result_view(r) == resolve_in(self.refs(), name@),
    {
        let mut resolver = Resolver::start(name);
        let mut budget: usize = MAX_HOPS + 1;
        loop
            invariant
                resolver.hops() + budget == MAX_HOPS + 1,
                resolve_in(self.refs(), name@) == resolve_from(
                    self.refs(),
                    resolver.name(),
                    resolver.hops(),
                ),
            decreases budget,
        {
            proof {
                use_type_invariant(&resolver);
            }
            let contents = self.refs.get(resolver.wanted());
            match resolver.step(contents) {
                RefStep::Found(id) => {
                    return Ok(id);
                },
                RefStep::Failed(e) => {
                    return Err(e);
                },
                RefStep::Follow(next) => {
                    resolver = next;
                    budget -= 1;
                },
            }
        }
    }

    /// The ids that a listing from the reference `name` starts from.
    pub fn start_of_listing(&self, name: &[u8]) -> (r: Result<Vec<ObjectId>, RefResolutionError>)
        ensures
            match r {
                Ok(ids) => start_points(self.refs(), name@) == Ok::<
                    Seq<Seq<u8>>,
                    RefResolutionError,
                >(ids_view(ids@)),
                Err(e) => start_points(self.refs(), name@) == Err::<
                    Seq<Seq<u8>>,
                    RefResolutionError,
                >(e),
            },
    {
        let mut resolver = Resolver::start(name);
        let mut budget: usize = MAX_HOPS + 1;
        loop
            invariant
                resolver.hops() + budget == MAX_HOPS + 1,
                start_points(self.refs(), name@) == start_points_from(
                    self.refs(),
                    resolver.name(),
                    resolver.hops(),
                ),
            decreases budget,
        {
            proof {
                use_type_invariant(&resolver);
            }
            let contents = self.refs.get(resolver.wanted());
            match resolver.seed_step(contents) {
                SeedStep::Seeds(ids) => {
                    return Ok(ids);
                },
                SeedStep::Failed(e) => {
                    return Err(e);
                },
                SeedStep::Follow(next) => {
                    resolver = next;
                    budget -= 1;
                },
            }
        }
    }

    /// Walks the commit graph from `seeds` until nothing is left to do. No
    /// commit comes twice, each is what the repository holds under an id
    /// that can be reached from `seeds`, and a walk that was not stopped
    /// leaves out none of those. In order of commit time the latest comes
    /// first, where no commit was made before one of its parents.
    pub fn walk(&self, seeds: &Vec<ObjectId>, order: Order, on_error: OnError) -> (out: WalkOutcome)
        ensures
            exists|n: nat| #[trigger]
                out.is_end_of(walk_run(self.store(), ids_view(seeds@), order, on_error, n)),
            distinct_ids(commits_view(out.commits@)),
            forall|i: int|
                0 <= i < out.commits@.len() ==> (self.store())((#[trigger] out.commits@[i])@.id)
                    == Ok::<CommitView, Error>(out.commits@[i]@) && reachable(
                    self.store(),
                    ids_view(seeds@),
                    out.commits@[i]@.id,
                ),
            !out.stopped ==> forall|id: Seq<u8>|
                reachable(self.store(), ids_view(seeds@), id) && loadable(self.store(), id)
                    ==> #[trigger] has_id(commits_view(out.commits@), id),
            order == Order::ByCommitTime && monotone(self.store()) ==> latest_first(
                commits_view(out.commits@),
            ),
    {
        let ghost store = self.store();
        let ghost from = ids_view(seeds@);
        let mut walker = Walker::new(seeds, order, on_error);
        proof {
            lemma_start(order, on_error, from);
        }
        let mut commits: Vec<Commit> = Vec::new();
        let mut failures: Vec<WalkFailure> = Vec::new();
        let ghost mut n: nat = 0;
        while !walker.is_finished()
            invariant
                walker.wf(),
                walker@.awaiting is None,
                store == self.store(),
                from == ids_view(seeds@),
                walk_run(store, from, order, on_error, n) == (RunView {
                    state: walker@,
                    emitted: commits_view(commits@),
                    failures: failures_view(failures@),
                }),
            decreases usize::MAX - commits.len(), walker@.queue.len(),
        {
            let ghost before = walker@;
            proof {
                lemma_after_next(before);
            }
            match walker.next() {
                Step::Load(edge) => {
                    let file = self.objects.get(edge.parent.as_bytes());
                    match walker.supply_from(file, &self.packs, self.limit) {
                        Some(failure) => {
                            failures.push(failure);
                        },
                        None => {},
                    }
                },
                Step::Emit(c) => {
                    commits.push(c);
                },
                Step::Done => {},
            }
            proof {
                n = n + 1;
            }
        }
        let out = WalkOutcome { commits, failures, stopped: walker.is_stopped() };
        proof {
            assert(out.is_end_of(walk_run(store, from, order, on_error, n)));
            lemma_walk_emits_each_once(store, from, order, on_error, n);
            assert forall|i: int| 0 <= i < out.commits@.len() implies store(
                (#[trigger] out.commits@[i])@.id,
            ) == Ok::<CommitView, Error>(out.commits@[i]@) && reachable(
                store,
                from,
                out.commits@[i]@.id,
            ) by {
                assert(commits_view(out.commits@)[i] == out.commits@[i]@);
            }
            if !out.stopped {
                assert forall|id: Seq<u8>|
                    reachable(store, from, id) && loadable(store, id) implies #[trigger] has_id(
                    commits_view(out.commits@),
                    id,
                ) by {
                    lemma_walk_emits_all(store, from, order, on_error, n, id);
                }
            }
            if order == Order::ByCommitTime && monotone(store) {
                lemma_walk_by_time_is_ordered(store, from, on_error, n);
            }
        }
        out
    }

    /// The commits that can be reached from the reference `start_ref`, in
    /// `order`. A start reference that does not resolve is an error, but
    /// for a symbolic reference to a branch without commits, from which
    /// nothing is listed. The first object that cannot be had ends the
    /// listing with its error.
    pub fn list_commits(&self, start_ref: &[u8], order: Order) -> (r: Result<Vec<Commit>, Error>)
        ensures
            start_points(self.refs(), start_ref@) matches Err(e) ==> r == Err::<Vec<Commit>, Error>(
                Error::RefResolution(e),
            ),
            start_points(self.refs(), start_ref@) matches Ok(seeds) ==> exists|n: nat|
                is_listing(r, #[trigger] walk_run(self.store(), seeds, order, OnError::Abort, n)),
            start_points(self.refs(), start_ref@) matches Ok(seeds) && seeds.len() == 0 ==> r is Ok
                && r->Ok_0@.len() == 0,
    {
        let seeds = match self.start_of_listing(start_ref) {
            Ok(seeds) => seeds,
            Err(e) => {
                return Err(Error::RefResolution(e));
            },
        };
        let out = self.walk(&seeds, order, OnError::Abort);
        let ghost from = ids_view(seeds@);
        let ghost n = choose|n: nat| #[trigger]
            out.is_end_of(walk_run(self.store(), from, order, OnError::Abort, n));
        proof {
            lemma_failure_stops(self.store(), from, order, OnError::Abort, n);
        }
        let mut failures = out.failures;
        let listed = match failures.pop() {
            Some(failure) => Err(failure.error),
            None => Ok(out.commits),
        };
        proof {
            if from.len() == 0 {
                lemma_walk_from_nothing(self.store(), order, OnError::Abort, n);
            }
        }
        assert(start_points(self.refs(), start_ref@) matches Ok(seeds) ==> exists|n: nat|
            is_listing(listed, #[trigger] walk_run(self.store(), seeds, order, OnError::Abort, n)));
        listed
    }
}

} // verus!
