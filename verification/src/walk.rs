//! The walk over the commit graph: from a set of starting ids along parent
//! links, each commit once, in a chosen order.
//!
//! The walker reads nothing itself. It asks for one object at a time, is
//! handed what the store holds under that id, and says which commit comes
//! next. What it does in each state is written down as functions on plain
//! values, `next_step`, `after_next` and `after_supply`; the walker is
//! proved to follow them.

use crate::commit::{ids_view, result_view, Commit, CommitView};
use crate::error::Error;
use crate::id_set::IdSet;
use crate::loose::{commit_in, decode_commit};
use crate::odb::{commit_among, find_commit, packs_view};
use crate::pack::Pack;
use crate::bytes::file_view;
use crate::object_id::{bytes_before, ObjectId};
use vstd::prelude::*;

verus! {

/// The order in which a walk hands out the commits it has found.
#[derive(Clone, Copy, Debug, PartialEq, Eq, Structural)]
pub enum Order {
    /// The latest commit first; of two commits made in the same second the
    /// one with the smaller id.
    ByCommitTime,
    /// Last in, first out: of the commits in hand the one that the walk
    /// came across last, so that the walk follows one line of parents down
    /// before it turns to the next.
    Topological,
}

/// What a walk does when an object that it asked for cannot be had.
#[derive(Clone, Copy, Debug, PartialEq, Eq, Structural)]
pub enum OnError {
    /// The walk ends.
    Abort,
    /// The walk goes on without the commit and what only it leads to.
    Skip,
}

/// A link of the graph, as plain values.
#[verifier::ext_equal]
pub struct EdgeView {
    /// The commit that names `parent`, or `None` where `parent` is one of
    /// the ids that the walk started from.
    pub child: Option<Seq<u8>>,
    /// The id that is pointed at.
    pub parent: Seq<u8>,
}

/// A link that could not be followed, as plain values.
#[verifier::ext_equal]
pub struct FailureView {
    /// The link.
    pub edge: EdgeView,
    /// Why the object at its end could not be had.
    pub error: Error,
}

/// The state of a walk, as plain values.
#[verifier::ext_equal]
pub struct WalkView {
    /// The order in which commits are handed out.
    pub order: Order,
    /// What happens when an object cannot be had.
    pub on_error: OnError,
    /// Every id that the walk has come across.
    pub seen: Set<Seq<u8>>,
    /// The links whose ends are still to be asked for, oldest first.
    pub queue: Seq<EdgeView>,
    /// The link whose end has been asked for and not been supplied yet.
    pub awaiting: Option<EdgeView>,
    /// The commits that were supplied and not handed out yet, oldest first.
    pub frontier: Seq<CommitView>,
    /// Whether the walk has been ended by a failure.
    pub stopped: bool,
}

/// What a walk does next, as plain values.
#[verifier::ext_equal]
pub enum WalkStepView {
    /// It asks for the object at the end of a link.
    Load(EdgeView),
    /// It hands out a commit.
    Emit(CommitView),
    /// It has ended.
    Done,
}

/// Puts each of `ids` that the walk has not come across yet at the end of
/// the queue, as a link from `child`, and marks it as seen.
pub open spec fn enqueue(w: WalkView, child: Option<Seq<u8>>, ids: Seq<Seq<u8>>) -> WalkView
    decreases ids.len(),
{
    if ids.len() == 0 {
        w
    } else {
        enqueue(enqueue_one(w, child, ids[0]), child, ids.drop_first())
    }
}

/// Puts `id` at the end of the queue unless the walk has come across it.
pub open spec fn enqueue_one(w: WalkView, child: Option<Seq<u8>>, id: Seq<u8>) -> WalkView {
    if w.seen.contains(id) {
        w
    } else {
        WalkView { seen: w.seen.insert(id), queue: w.queue.push(EdgeView { child, parent: id }), ..w }
    }
}

/// The state in which a walk from `seeds` starts.
pub open spec fn start(order: Order, on_error: OnError, seeds: Seq<Seq<u8>>) -> WalkView {
    enqueue(
        WalkView {
            order,
            on_error,
            seen: Set::empty(),
            queue: Seq::empty(),
            awaiting: None,
            frontier: Seq::empty(),
            stopped: false,
        },
        None,
        seeds,
    )
}

/// Whether `a` is handed out before `b` in order of commit time: it is the
/// later one, or was made in the same second and has the smaller id.
pub open spec fn goes_before(a: CommitView, b: CommitView) -> bool {
    a.time() > b.time() || (a.time() == b.time() && bytes_before(a.id, b.id))
}

/// The place, among the first `n` commits of `frontier`, of the one that
/// none of them goes before.
pub open spec fn best_index(frontier: Seq<CommitView>, n: nat) -> int
    decreases n,
{
    if n <= 1 {
        0
    } else {
        let b = best_index(frontier, (n - 1) as nat);
        if goes_before(frontier[n - 1], frontier[b]) {
            n - 1
        } else {
            b
        }
    }
}

/// The place in `frontier` of the commit that is handed out next.
pub open spec fn pick(order: Order, frontier: Seq<CommitView>) -> int {
    match order {
        Order::ByCommitTime => best_index(frontier, frontier.len()),
        Order::Topological => frontier.len() - 1,
    }
}

/// What a walk in state `w` does next. A walk that waits for an object
/// asks for it again; one with links in its queue asks for the end of the
/// oldest; one with commits in hand gives out the one whose turn it is; any
/// other has ended.
pub open spec fn next_step(w: WalkView) -> WalkStepView {
    if w.stopped {
        WalkStepView::Done
    } else if w.awaiting is Some {
        WalkStepView::Load(w.awaiting->0)
    } else if w.queue.len() > 0 {
        WalkStepView::Load(w.queue[0])
    } else if w.frontier.len() > 0 {
        WalkStepView::Emit(w.frontier[pick(w.order, w.frontier)])
    } else {
        WalkStepView::Done
    }
}

/// The state of a walk after it has done what `next_step` says. Handing
/// out a commit queues those of its parents that the walk has not come
/// across before.
pub open spec fn after_next(w: WalkView) -> WalkView {
    if w.stopped || w.awaiting is Some {
        w
    } else if w.queue.len() > 0 {
        WalkView { awaiting: Some(w.queue[0]), queue: w.queue.drop_first(), ..w }
    } else if w.frontier.len() > 0 {
        let i = pick(w.order, w.frontier);
        let c = w.frontier[i];
        enqueue(WalkView { frontier: w.frontier.remove(i), ..w }, Some(c.id), c.parents)
    } else {
        w
    }
}

/// What a walk makes of an object that it was handed for `edge`: a commit
/// under another id than the one asked for counts as corrupt.
pub open spec fn checked(edge: EdgeView, loaded: Result<CommitView, Error>) -> Result<
    CommitView,
    Error,
> {
    match loaded {
        Ok(c) => if c.id == edge.parent {
            Ok(c)
        } else {
            Err(Error::CorruptObject)
        },
        Err(e) => Err(e),
    }
}

/// The state of a walk after it was handed `loaded` for the object it
/// asked for. A walk that asked for nothing is left as it is.
pub open spec fn after_supply(w: WalkView, loaded: Result<CommitView, Error>) -> WalkView {
    match w.awaiting {
        None => w,
        Some(edge) => match checked(edge, loaded) {
            Ok(c) => WalkView { awaiting: None, frontier: w.frontier.push(c), ..w },
            Err(_) => WalkView { awaiting: None, stopped: w.on_error == OnError::Abort, ..w },
        },
    }
}

/// The failure that a walk reports when it is handed `loaded`, if any.
pub open spec fn supply_failure(w: WalkView, loaded: Result<CommitView, Error>) -> Option<
    FailureView,
> {
    match w.awaiting {
        None => None,
        Some(edge) => match checked(edge, loaded) {
            Ok(_) => None,
            Err(error) => Some(FailureView { edge, error }),
        },
    }
}

/// `enqueue` touches nothing but the queue and the set of ids seen, and
/// takes nothing out of the queue.
pub proof fn lemma_enqueue_frame(w: WalkView, child: Option<Seq<u8>>, ids: Seq<Seq<u8>>)
    ensures
        enqueue(w, child, ids).order == w.order,
        enqueue(w, child, ids).on_error == w.on_error,
        enqueue(w, child, ids).awaiting == w.awaiting,
        enqueue(w, child, ids).frontier == w.frontier,
        enqueue(w, child, ids).stopped == w.stopped,
        enqueue(w, child, ids).queue.len() >= w.queue.len(),
    decreases ids.len(),
{
    if ids.len() > 0 {
        lemma_enqueue_frame(enqueue_one(w, child, ids[0]), child, ids.drop_first());
    }
}

/// A walk starts without a commit in hand, waits for nothing and is not
/// stopped.
pub proof fn lemma_start(order: Order, on_error: OnError, seeds: Seq<Seq<u8>>)
    ensures
        start(order, on_error, seeds).order == order,
        start(order, on_error, seeds).on_error == on_error,
        start(order, on_error, seeds).awaiting is None,
        start(order, on_error, seeds).frontier.len() == 0,
        !start(order, on_error, seeds).stopped,
{
    lemma_enqueue_frame(
        WalkView {
            order,
            on_error,
            seen: Set::empty(),
            queue: Seq::empty(),
            awaiting: None,
            frontier: Seq::empty(),
            stopped: false,
        },
        None,
        seeds,
    );
}

/// What `best_index` finds: a commit that none of the others goes before.
pub proof fn lemma_best_index(frontier: Seq<CommitView>, n: nat)
    requires
        0 < n <= frontier.len(),
    ensures
        0 <= best_index(frontier, n) < n,
        forall|j: int|
            0 <= j < n ==> (#[trigger] frontier[j]).time() <= frontier[best_index(
                frontier,
                n,
            )].time(),
    decreases n,
{
    if n > 1 {
        lemma_best_index(frontier, (n - 1) as nat);
    }
}

/// What `pick` finds: a place in the frontier, and in order of commit time
/// the place of a commit that none in the frontier is later than.
pub proof fn lemma_pick(order: Order, frontier: Seq<CommitView>)
    requires
        frontier.len() > 0,
    ensures
        0 <= pick(order, frontier) < frontier.len(),
        order == Order::ByCommitTime ==> forall|j: int|
            0 <= j < frontier.len() ==> (#[trigger] frontier[j]).time() <= frontier[pick(
                order,
                frontier,
            )].time(),
{
    lemma_best_index(frontier, frontier.len());
}

/// What doing the next step leaves of a walk that waits for nothing: a
/// walk that asks for an object has taken one link out of its queue and
/// waits; any other waits for nothing.
pub proof fn lemma_after_next(w: WalkView)
    requires
        w.awaiting is None,
    ensures
        next_step(w) is Load ==> after_next(w).awaiting is Some && after_next(w).queue.len() + 1
            == w.queue.len(),
        !(next_step(w) is Load) ==> after_next(w).awaiting is None,
{
    if !w.stopped && w.queue.len() == 0 && w.frontier.len() > 0 {
        let at = pick(w.order, w.frontier);
        lemma_pick(w.order, w.frontier);
        lemma_enqueue_frame(
            WalkView { frontier: w.frontier.remove(at), ..w },
            Some(w.frontier[at].id),
            w.frontier[at].parents,
        );
    }
}

/// Whether a walk has nothing left to do.
pub open spec fn finished(w: WalkView) -> bool {
    next_step(w) is Done
}

/// A link of the graph.
#[derive(Debug, PartialEq, Eq)]
pub struct Edge {
    /// The commit that names `parent`, or `None` where `parent` is one of
    /// the ids that the walk started from.
    pub child: Option<ObjectId>,
    /// The id that is pointed at.
    pub parent: ObjectId,
}

impl View for Edge {
    type V = EdgeView;

    open spec fn view(&self) -> EdgeView {
        EdgeView {
            child: match self.child {
                Some(id) => Some(id@),
                None => None,
            },
            parent: self.parent@,
        }
    }
}

impl Clone for Edge {
    fn clone(&self) -> (r: Self)
        ensures
            r@ == self@,
    {
        let child = match &self.child {
            Some(id) => Some(id.clone()),
            None => None,
        };
        Edge { child, parent: self.parent.clone() }
    }
}

/// A link that could not be followed, and why.
#[derive(Debug, PartialEq, Eq)]
pub struct WalkFailure {
    /// The link.
    pub edge: Edge,
    /// Why the object at its end could not be had.
    pub error: Error,
}

impl View for WalkFailure {
    type V = FailureView;

    open spec fn view(&self) -> FailureView {
        FailureView { edge: self.edge@, error: self.error }
    }
}

/// What a walk does next.
#[derive(Debug, PartialEq, Eq)]
pub enum Step {
    /// The walk asks for the object at the end of this link; hand it to
    /// `supply` or `supply_file`.
    Load(Edge),
    /// The next commit of the walk.
    Emit(Commit),
    /// The walk has ended.
    Done,
}

impl View for Step {
    type V = WalkStepView;

    open spec fn view(&self) -> WalkStepView {
        match self {
            Step::Load(edge) => WalkStepView::Load(edge@),
            Step::Emit(c) => WalkStepView::Emit(c@),
            Step::Done => WalkStepView::Done,
        }
    }
}

/// The views of a run of links.
pub open spec fn edges_view(edges: Seq<Edge>) -> Seq<EdgeView> {
    Seq::new(edges.len(), |i: int| edges[i]@)
}

/// The views of a run of commits.
pub open spec fn commits_view(commits: Seq<Commit>) -> Seq<CommitView> {
    Seq::new(commits.len(), |i: int| commits[i]@)
}

/// The view of a failure that may not have happened.
pub open spec fn failure_view(failure: Option<WalkFailure>) -> Option<FailureView> {
    match failure {
        Some(f) => Some(f@),
        None => None,
    }
}

/// The view of an id that may be missing.
pub open spec fn child_view(child: Option<&ObjectId>) -> Option<Seq<u8>> {
    match child {
        Some(id) => Some(id@),
        None => None,
    }
}

/// A walk under way.
#[derive(Debug)]
pub struct Walker {
    order: Order,
    on_error: OnError,
    seen: IdSet,
    queue: Vec<Edge>,
    awaiting: Option<Edge>,
    frontier: Vec<Commit>,
    stopped: bool,
}

impl View for Walker {
    type V = WalkView;

    closed spec fn view(&self) -> WalkView {
        WalkView {
            order: self.order,
            on_error: self.on_error,
            seen: self.seen@,
            queue: edges_view(self.queue@),
            awaiting: match self.awaiting {
                Some(edge) => Some(edge@),
                None => None,
            },
            frontier: commits_view(self.frontier@),
            stopped: self.stopped,
        }
    }
}

fn earlier_turn(a: &Commit, b: &Commit) -> (r: bool)
    ensures
        r == goes_before(a@, b@),
{
    let ta: i64 = a.time();
    let tb: i64 = b.time();
    ta > tb || (ta == tb && a.id().precedes(b.id()))
}

fn best_of(frontier: &Vec<Commit>) -> (r: usize)
    requires
        frontier@.len() > 0,
    ensures
        r == best_index(commits_view(frontier@), frontier@.len()),
        r < frontier@.len(),
{
    let mut best: usize = 0;
    let mut n: usize = 1;
    while n < frontier.len()
        invariant
            1 <= n <= frontier@.len(),
            best < n,
            best == best_index(commits_view(frontier@), n as nat),
        decreases frontier@.len() - n,
    {
        if earlier_turn(&frontier[n], &frontier[best]) {
            best = n;
        }
        n += 1;
    }
    best
}

impl Walker {
    /// What holds of every walker that this module hands out.
    pub closed spec fn wf(&self) -> bool {
        self.seen.wf()
    }

    /// Starts a walk from `seeds`.
    pub fn new(seeds: &Vec<ObjectId>, order: Order, on_error: OnError) -> (r: Walker)
        ensures
            r.wf(),
            r@ == start(order, on_error, ids_view(seeds@)),
    {
        let mut walker = Walker {
            order,
            on_error,
            seen: IdSet::new(),
            queue: Vec::new(),
            awaiting: None,
            frontier: Vec::new(),
            stopped: false,
        };
        assert(walker@.queue =~= Seq::<EdgeView>::empty());
        assert(walker@.frontier =~= Seq::<CommitView>::empty());
        walker.enqueue_all(None, seeds);
        walker
    }

    fn enqueue_all(&mut self, child: Option<&ObjectId>, ids: &Vec<ObjectId>)
        requires
            old(self).wf(),
        ensures
            final(self).wf(),
            final(self)@ == enqueue(old(self)@, child_view(child), ids_view(ids@)),
    {
        let ghost all = ids_view(ids@);
        let ghost from = child_view(child);
        assert(all.skip(0) =~= all);
        let mut i: usize = 0;
        while i < ids.len()
            invariant
                self.wf(),
                i <= ids@.len(),
                all == ids_view(ids@),
                from == child_view(child),
                enqueue(self@, from, all.skip(i as int)) == enqueue(old(self)@, from, all),
            decreases ids@.len() - i,
        {
            proof {
                assert(all.skip(i as int).drop_first() =~= all.skip(i + 1));
            }
            let ghost before = self@;
            if !self.seen.contains(&ids[i]) {
                let edge = Edge {
                    child: match child {
                        Some(id) => Some(id.clone()),
                        None => None,
                    },
                    parent: ids[i].clone(),
                };
                self.seen.insert(ids[i].clone());
                self.queue.push(edge);
                assert(self@.queue =~= before.queue.push(EdgeView { child: from, parent: ids@[i as int]@ }));
            }
            i += 1;
        }
    }

    /// Says what the walk does next, and does it: asks for an object, hands
    /// out a commit, or ends.
    pub fn next(&mut self) -> (step: Step)
        requires
            old(self).wf(),
        ensures
            final(self).wf(),
            step@ == next_step(old(self)@),
            final(self)@ == after_next(old(self)@),
    {
        if self.stopped {
            return Step::Done;
        }
        match &self.awaiting {
            Some(edge) => {
                return Step::Load(edge.clone());
            },
            None => {},
        }
        if self.queue.len() > 0 {
            let ghost before = self@;
            let edge = self.queue.remove(0);
            let asked = edge.clone();
            self.awaiting = Some(edge);
            return Step::Load(asked);
        }
        if self.frontier.len() > 0 {
            let ghost before = self@;
            let at: usize = match self.order {
                Order::ByCommitTime => best_of(&self.frontier),
                Order::Topological => self.frontier.len() - 1,
            };
            let c = self.frontier.remove(at);
            assert(self@.frontier =~= before.frontier.remove(at as int));
            self.enqueue_all(Some(c.id()), c.parents());
            return Step::Emit(c);
        }
        Step::Done
    }

    /// Hands the walk the object that it asked for, or the reason why it
    /// cannot be had, and returns the failure if this was one. A commit
    /// under another id than the one asked for counts as corrupt. A walk
    /// that asked for nothing is left as it is.
    pub fn supply(&mut self, loaded: Result<Commit, Error>) -> (failure: Option<WalkFailure>)
        requires
            old(self).wf(),
        ensures
            final(self).wf(),
            final(self)@ == after_supply(old(self)@, result_view(loaded)),
            failure_view(failure) == supply_failure(old(self)@, result_view(loaded)),
    {
        let edge = match self.awaiting.take() {
            Some(edge) => edge,
            None => {
                return None;
            },
        };
        let error = match loaded {
            Ok(c) => {
                if c.id().same(&edge.parent) {
                    self.frontier.push(c);
                    return None;
                }
                Error::CorruptObject
            },
            Err(e) => e,
        };
        match self.on_error {
            OnError::Abort => {
                self.stopped = true;
            },
            OnError::Skip => {
                self.stopped = false;
            },
        }
        Some(WalkFailure { edge, error })
    }

    /// Hands the walk the loose object file found under the id that it
    /// asked for, `None` where there is no such file.
    pub fn supply_file(&mut self, file: Option<&[u8]>, limit: usize) -> (failure: Option<WalkFailure>)
        requires
            old(self).wf(),
        ensures
            final(self).wf(),
            match old(self)@.awaiting {
                Some(edge) => final(self)@ == after_supply(
                    old(self)@,
                    commit_in(edge.parent, file_view(file), limit),
                ) && failure_view(failure) == supply_failure(
                    old(self)@,
                    commit_in(edge.parent, file_view(file), limit),
                ),
                None => final(self)@ == old(self)@ && failure is None,
            },
    {
        let id = match &self.awaiting {
            Some(edge) => edge.parent.clone(),
            None => {
                return None;
            },
        };
        let loaded = decode_commit(id, file, limit);
        self.supply(loaded)
    }

    /// Hands the walk what a store of loose objects and packs holds under
    /// the id that it asked for: `loose` is the loose object file under that
    /// id, `None` where there is no such file.
    pub fn supply_from(&mut self, loose: Option<&[u8]>, packs: &Vec<Pack>, limit: usize) -> (failure:
        Option<WalkFailure>)
        requires
            old(self).wf(),
        ensures
            final(self).wf(),
            match old(self)@.awaiting {
                Some(edge) => final(self)@ == after_supply(
                    old(self)@,
                    commit_among(edge.parent, file_view(loose), packs_view(packs@), limit),
                ) && failure_view(failure) == supply_failure(
                    old(self)@,
                    commit_among(edge.parent, file_view(loose), packs_view(packs@), limit),
                ),
                None => final(self)@ == old(self)@ && failure is None,
            },
    {
        let id = match &self.awaiting {
            Some(edge) => edge.parent.clone(),
            None => {
                return None;
            },
        };
        let loaded = find_commit(id, loose, packs, limit);
        self.supply(loaded)
    }

    /// Whether the walk has nothing left to do.
    pub fn is_finished(&self) -> (r: bool)
        ensures
            r == finished(self@),
    {
        self.stopped || (self.awaiting.is_none() && self.queue.len() == 0 && self.frontier.len()
            == 0)
    }

    /// Whether a failure has ended the walk.
    pub fn is_stopped(&self) -> (r: bool)
        ensures
            r == self@.stopped,
    {
        self.stopped
    }
}

} // verus!
