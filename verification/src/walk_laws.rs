//! What holds of every walk: the laws of the commit graph walker, stated
//! over a run of its steps against a store and proved of every such run.

use crate::commit::CommitView;
use crate::error::Error;
use crate::walk::{
    after_next, after_supply, checked, enqueue, enqueue_one, finished, lemma_pick, next_step, pick,
    start, supply_failure, EdgeView, FailureView, OnError, Order, WalkStepView, WalkView,
};
use vstd::prelude::*;

verus! {

/// A store, seen from the walk: what asking for an id comes to.
pub type Store = spec_fn(Seq<u8>) -> Result<CommitView, Error>;

/// Whether the store holds a commit under `id` that a walk accepts.
pub open spec fn loadable(store: Store, id: Seq<u8>) -> bool {
    store(id) is Ok && store(id)->Ok_0.id == id
}

/// Whether the store holds a commit `a` that names `b` as a parent.
pub open spec fn links(store: Store, a: Seq<u8>, b: Seq<u8>) -> bool {
    loadable(store, a) && store(a)->Ok_0.parents.contains(b)
}

/// Whether `path` leads from one of `seeds` along parent links.
pub open spec fn is_path(store: Store, seeds: Seq<Seq<u8>>, path: Seq<Seq<u8>>) -> bool {
    &&& path.len() > 0
    &&& seeds.contains(path[0])
    &&& forall|k: int| 0 <= k < path.len() - 1 ==> links(store, #[trigger] path[k], path[k + 1])
}

/// Whether `id` can be reached from `seeds` along parent links.
pub open spec fn reachable(store: Store, seeds: Seq<Seq<u8>>, id: Seq<u8>) -> bool {
    exists|path: Seq<Seq<u8>>| #[trigger] is_path(store, seeds, path) && path[path.len() - 1] == id
}

/// Whether no commit in the store was made before one of its parents.
pub open spec fn monotone(store: Store) -> bool {
    forall|a: Seq<u8>, b: Seq<u8>| #[trigger]
        links(store, a, b) && loadable(store, b) ==> store(b)->Ok_0.time() <= store(
            a,
        )->Ok_0.time()
}

/// A run of a walk: its state, the commits that it has handed out and the
/// failures that it has reported, each in order.
#[verifier::ext_equal]
pub struct RunView {
    /// The state of the walk.
    pub state: WalkView,
    /// The commits handed out so far.
    pub emitted: Seq<CommitView>,
    /// The failures reported so far.
    pub failures: Seq<FailureView>,
}

/// One step of a run against `store`: the walk does what is next, and where
/// it asks for an object it is handed what the store holds.
pub open spec fn run_step(r: RunView, store: Store) -> RunView {
    match next_step(r.state) {
        WalkStepView::Load(edge) => {
            let asked = after_next(r.state);
            let loaded = store(edge.parent);
            RunView {
                state: after_supply(asked, loaded),
                emitted: r.emitted,
                failures: match supply_failure(asked, loaded) {
                    Some(f) => r.failures.push(f),
                    None => r.failures,
                },
            }
        },
        WalkStepView::Emit(c) => RunView {
            state: after_next(r.state),
            emitted: r.emitted.push(c),
            failures: r.failures,
        },
        WalkStepView::Done => r,
    }
}

/// The run from state `w` after `n` steps.
pub open spec fn run(w: WalkView, store: Store, n: nat) -> RunView
    decreases n,
{
    if n == 0 {
        RunView { state: w, emitted: Seq::empty(), failures: Seq::empty() }
    } else {
        run_step(run(w, store, (n - 1) as nat), store)
    }
}

/// The walk from `seeds` after `n` steps.
pub open spec fn walk_run(
    store: Store,
    seeds: Seq<Seq<u8>>,
    order: Order,
    on_error: OnError,
    n: nat,
) -> RunView {
    run(start(order, on_error, seeds), store, n)
}

/// Whether one of `commits` has the id `id`.
pub open spec fn has_id(commits: Seq<CommitView>, id: Seq<u8>) -> bool {
    exists|i: int| 0 <= i < commits.len() && (#[trigger] commits[i]).id == id
}

/// Whether one of `queue` points at `id`.
pub open spec fn has_target(queue: Seq<EdgeView>, id: Seq<u8>) -> bool {
    exists|i: int| 0 <= i < queue.len() && (#[trigger] queue[i]).parent == id
}

/// Whether no two of `commits` have the same id.
pub open spec fn distinct_ids(commits: Seq<CommitView>) -> bool {
    forall|i: int, j: int|
        0 <= i < j < commits.len() ==> (#[trigger] commits[i]).id != (#[trigger] commits[j]).id
}

/// Whether the commits are in order of time, the latest first.
pub open spec fn latest_first(commits: Seq<CommitView>) -> bool {
    forall|i: int, j: int|
        0 <= i < j < commits.len() ==> (#[trigger] commits[i]).time() >= (
        #[trigger] commits[j]).time()
}

spec fn distinct_targets(queue: Seq<EdgeView>) -> bool {
    forall|i: int, j: int|
        0 <= i < j < queue.len() ==> (#[trigger] queue[i]).parent != (#[trigger] queue[j]).parent
}

spec fn not_after_last(emitted: Seq<CommitView>, time: int) -> bool {
    emitted.len() > 0 ==> time <= emitted[emitted.len() - 1].time()
}

/// No id is in hand twice, and each id in hand has been seen.
spec fn inv_distinct(r: RunView) -> bool {
    let w = r.state;
    &&& w.awaiting is None
    &&& distinct_ids(r.emitted)
    &&& distinct_ids(w.frontier)
    &&& distinct_targets(w.queue)
    &&& forall|i: int, j: int|
        0 <= i < r.emitted.len() && 0 <= j < w.frontier.len() ==> (#[trigger] r.emitted[i]).id != (
        #[trigger] w.frontier[j]).id
    &&& forall|i: int, j: int|
        0 <= i < r.emitted.len() && 0 <= j < w.queue.len() ==> (#[trigger] r.emitted[i]).id != (
        #[trigger] w.queue[j]).parent
    &&& forall|i: int, j: int|
        0 <= i < w.frontier.len() && 0 <= j < w.queue.len() ==> (#[trigger] w.frontier[i]).id != (
        #[trigger] w.queue[j]).parent
    &&& forall|i: int| 0 <= i < r.emitted.len() ==> w.seen.contains((#[trigger] r.emitted[i]).id)
    &&& forall|i: int| 0 <= i < w.frontier.len() ==> w.seen.contains((#[trigger] w.frontier[i]).id)
    &&& forall|i: int| 0 <= i < w.queue.len() ==> w.seen.contains((#[trigger] w.queue[i]).parent)
}

/// Each commit in hand is what the store holds under its id.
spec fn inv_loaded(r: RunView, store: Store) -> bool {
    &&& forall|i: int|
        0 <= i < r.emitted.len() ==> store((#[trigger] r.emitted[i]).id) == Ok::<CommitView, Error>(
            r.emitted[i],
        )
    &&& forall|i: int|
        0 <= i < r.state.frontier.len() ==> store((#[trigger] r.state.frontier[i]).id) == Ok::<
            CommitView,
            Error,
        >(r.state.frontier[i])
}

/// Each id that was seen can be reached from the seeds.
spec fn inv_reach(r: RunView, store: Store, seeds: Seq<Seq<u8>>) -> bool {
    forall|id: Seq<u8>| #[trigger] r.state.seen.contains(id) ==> reachable(store, seeds, id)
}

/// The seeds and the parents of each commit handed out have been seen, and
/// each id that was seen is in hand unless the store holds no commit under
/// it.
spec fn inv_closed(r: RunView, store: Store, seeds: Seq<Seq<u8>>) -> bool {
    let w = r.state;
    &&& forall|i: int| 0 <= i < seeds.len() ==> w.seen.contains(#[trigger] seeds[i])
    &&& forall|i: int, k: int|
        0 <= i < r.emitted.len() && 0 <= k < r.emitted[i].parents.len() ==> w.seen.contains(
            #[trigger] r.emitted[i].parents[k],
        )
    &&& !w.stopped ==> forall|id: Seq<u8>| #[trigger]
        w.seen.contains(id) ==> has_id(r.emitted, id) || has_id(w.frontier, id) || has_target(
            w.queue,
            id,
        ) || !loadable(store, id)
}

/// In order of commit time, nothing in hand is later than the commit
/// handed out last.
spec fn inv_sorted(r: RunView, store: Store) -> bool {
    let w = r.state;
    &&& latest_first(r.emitted)
    &&& forall|i: int|
        0 <= i < w.frontier.len() ==> not_after_last(r.emitted, (#[trigger] w.frontier[i]).time())
    &&& forall|i: int|
        0 <= i < w.queue.len() && loadable(store, (#[trigger] w.queue[i]).parent)
            ==> not_after_last(r.emitted, store(w.queue[i].parent)->Ok_0.time())
}

/// What `enqueue` does to a state.
proof fn lemma_enqueue(w: WalkView, child: Option<Seq<u8>>, ids: Seq<Seq<u8>>)
    ensures
        ({
            let v = enqueue(w, child, ids);
            let n = w.queue.len() as int;
            &&& v.order == w.order
            &&& v.on_error == w.on_error
            &&& v.awaiting == w.awaiting
            &&& v.frontier == w.frontier
            &&& v.stopped == w.stopped
            &&& v.queue.len() >= n
            &&& forall|j: int| 0 <= j < n ==> #[trigger] v.queue[j] == w.queue[j]
            &&& forall|j: int|
                n <= j < v.queue.len() ==> (#[trigger] v.queue[j]).child == child && ids.contains(
                    v.queue[j].parent,
                ) && !w.seen.contains(v.queue[j].parent)
            &&& forall|j: int, k: int|
                n <= j < k < v.queue.len() ==> (#[trigger] v.queue[j]).parent != (
                #[trigger] v.queue[k]).parent
            &&& forall|id: Seq<u8>| #[trigger]
                v.seen.contains(id) <==> w.seen.contains(id) || ids.contains(id)
            &&& forall|id: Seq<u8>|
                ids.contains(id) && !w.seen.contains(id) ==> #[trigger] has_target(v.queue, id)
        }),
    decreases ids.len(),
{
    let v = enqueue(w, child, ids);
    let n = w.queue.len() as int;
    if ids.len() > 0 {
        let first = ids[0];
        let rest = ids.drop_first();
        let u = enqueue_one(w, child, first);
        lemma_enqueue(u, child, rest);
        assert(forall|id: Seq<u8>| rest.contains(id) ==> ids.contains(id)) by {
            assert forall|id: Seq<u8>| rest.contains(id) implies ids.contains(id) by {
                let k = choose|k: int| 0 <= k < rest.len() && rest[k] == id;
                assert(ids[k + 1] == id);
            }
        }
        assert(ids.contains(first));
        assert(forall|id: Seq<u8>| ids.contains(id) ==> id == first || rest.contains(id)) by {
            assert forall|id: Seq<u8>| ids.contains(id) implies id == first || rest.contains(
                id,
            ) by {
                let k = choose|k: int| 0 <= k < ids.len() && ids[k] == id;
                if k > 0 {
                    assert(rest[k - 1] == id);
                }
            }
        }
        let m = u.queue.len() as int;
        assert forall|j: int| n <= j < v.queue.len() implies (#[trigger] v.queue[j]).child == child
            && ids.contains(v.queue[j].parent) && !w.seen.contains(v.queue[j].parent) by {
            if j < m {
                assert(v.queue[j] == u.queue[j]);
            }
        }
        assert forall|j: int, k: int| n <= j < k < v.queue.len() implies (
        #[trigger] v.queue[j]).parent != (#[trigger] v.queue[k]).parent by {
            if j < m {
                assert(v.queue[j] == u.queue[j]);
                assert(u.seen.contains(first));
            }
        }
        assert forall|id: Seq<u8>| ids.contains(id) && !w.seen.contains(id) implies #[trigger] has_target(
            v.queue,
            id,
        ) by {
            if id == first {
                assert(v.queue[n] == u.queue[n]);
                assert(v.queue[n].parent == id);
            } else {
                assert(rest.contains(id));
                if u.seen.contains(id) {
                    assert(false);
                }
            }
        }
    } else {
        assert forall|id: Seq<u8>| ids.contains(id) implies false by {
            let k = choose|k: int| 0 <= k < ids.len() && ids[k] == id;
        }
    }
}

/// Everything that holds of a run at each of its steps.
spec fn inv(r: RunView, store: Store, seeds: Seq<Seq<u8>>) -> bool {
    &&& inv_distinct(r)
    &&& inv_loaded(r, store)
    &&& inv_reach(r, store, seeds)
    &&& inv_closed(r, store, seeds)
    &&& r.state.order == Order::ByCommitTime && monotone(store) ==> inv_sorted(r, store)
}

proof fn lemma_inv_at_start(store: Store, seeds: Seq<Seq<u8>>, order: Order, on_error: OnError)
    ensures
        inv(walk_run(store, seeds, order, on_error, 0), store, seeds),
        walk_run(store, seeds, order, on_error, 0).state.order == order,
{
    let empty = WalkView {
        order,
        on_error,
        seen: Set::empty(),
        queue: Seq::empty(),
        awaiting: None,
        frontier: Seq::empty(),
        stopped: false,
    };
    let r = walk_run(store, seeds, order, on_error, 0);
    lemma_enqueue(empty, None, seeds);
    assert forall|id: Seq<u8>| #[trigger] r.state.seen.contains(id) implies reachable(
        store,
        seeds,
        id,
    ) by {
        let path = seq![id];
        assert(is_path(store, seeds, path));
        assert(path[path.len() - 1] == id);
    }
    assert forall|id: Seq<u8>| #[trigger] r.state.seen.contains(id) implies has_target(
        r.state.queue,
        id,
    ) by {
        assert(seeds.contains(id) && !empty.seen.contains(id));
    }
}

/// Asking for an object and taking what the store holds keeps `inv`.
proof fn lemma_load_keeps_inv(r: RunView, store: Store, seeds: Seq<Seq<u8>>)
    requires
        inv(r, store, seeds),
        next_step(r.state) is Load,
    ensures
        inv(run_step(r, store), store, seeds),
        run_step(r, store).state.order == r.state.order,
{
    let w = r.state;
    let t = run_step(r, store);
    let v = t.state;
    let edge = w.queue[0];
    let id = edge.parent;
    let loaded = store(id);
    assert(next_step(w) == WalkStepView::Load(edge));
    assert forall|j: int| 0 <= j < v.queue.len() implies #[trigger] v.queue[j] == w.queue[j + 1] by {}
    if checked(edge, loaded) is Ok {
        let c = loaded->Ok_0;
        assert(v.frontier == w.frontier.push(c));
        assert forall|j: int| 0 <= j < v.frontier.len() implies #[trigger] v.frontier[j] == (if j
            < w.frontier.len() {
            w.frontier[j]
        } else {
            c
        }) by {}
    } else {
        assert(v.frontier == w.frontier);
    }
    assert(inv_distinct(t));
    assert(inv_loaded(t, store));
    assert(inv_reach(t, store, seeds));
    assert(inv_closed(t, store, seeds)) by {
        if !v.stopped {
            assert forall|x: Seq<u8>| #[trigger] v.seen.contains(x) implies has_id(t.emitted, x)
                || has_id(v.frontier, x) || has_target(v.queue, x) || !loadable(store, x) by {
                if has_id(w.frontier, x) {
                    let i = choose|i: int| 0 <= i < w.frontier.len() && (
                    #[trigger] w.frontier[i]).id == x;
                    assert(v.frontier[i].id == x);
                } else if has_target(w.queue, x) {
                    let i = choose|i: int| 0 <= i < w.queue.len() && (
                    #[trigger] w.queue[i]).parent == x;
                    if i > 0 {
                        assert(v.queue[i - 1].parent == x);
                    } else if checked(edge, loaded) is Ok {
                        assert(v.frontier[w.frontier.len() as int].id == x);
                    }
                }
            }
        }
    }
    if w.order == Order::ByCommitTime && monotone(store) {
        assert(inv_sorted(t, store));
    }
}

/// What handing out a commit does to a run.
spec fn emit_shape(r: RunView, t: RunView) -> bool {
    let w = r.state;
    let v = t.state;
    let at = pick(w.order, w.frontier);
    let c = w.frontier[at];
    let last = r.emitted.len() as int;
    &&& 0 <= at < w.frontier.len()
    &&& t.failures == r.failures
    &&& t.emitted.len() == last + 1
    &&& t.emitted[last] == c
    &&& forall|j: int| 0 <= j < last ==> #[trigger] t.emitted[j] == r.emitted[j]
    &&& v.frontier.len() == w.frontier.len() - 1
    &&& forall|j: int| 0 <= j < at ==> #[trigger] v.frontier[j] == w.frontier[j]
    &&& forall|j: int| at <= j < v.frontier.len() ==> #[trigger] v.frontier[j] == w.frontier[j + 1]
    &&& v.order == w.order
    &&& v.on_error == w.on_error
    &&& v.awaiting == w.awaiting
    &&& v.stopped == w.stopped
    &&& forall|j: int|
        0 <= j < v.queue.len() ==> c.parents.contains((#[trigger] v.queue[j]).parent)
            && !w.seen.contains(v.queue[j].parent)
    &&& forall|j: int, k: int|
        0 <= j < k < v.queue.len() ==> (#[trigger] v.queue[j]).parent != (
        #[trigger] v.queue[k]).parent
    &&& forall|id: Seq<u8>| #[trigger]
        v.seen.contains(id) <==> w.seen.contains(id) || c.parents.contains(id)
    &&& forall|id: Seq<u8>|
        c.parents.contains(id) && !w.seen.contains(id) ==> #[trigger] has_target(v.queue, id)
    &&& w.order == Order::ByCommitTime ==> forall|j: int|
        0 <= j < w.frontier.len() ==> (#[trigger] w.frontier[j]).time() <= c.time()
}

proof fn lemma_emit_shape(r: RunView, store: Store)
    requires
        r.state.awaiting is None,
        next_step(r.state) is Emit,
    ensures
        emit_shape(r, run_step(r, store)),
        r.state.queue.len() == 0,
        !r.state.stopped,
{
    let w = r.state;
    let t = run_step(r, store);
    let at = pick(w.order, w.frontier);
    lemma_pick(w.order, w.frontier);
    let c = w.frontier[at];
    let u = WalkView { frontier: w.frontier.remove(at), ..w };
    lemma_enqueue(u, Some(c.id), c.parents);
    assert(t.state == enqueue(u, Some(c.id), c.parents));
    assert(t.emitted == r.emitted.push(c));
}

proof fn lemma_emit_distinct(r: RunView, store: Store)
    requires
        inv_distinct(r),
        next_step(r.state) is Emit,
    ensures
        inv_distinct(run_step(r, store)),
{
    let w = r.state;
    let t = run_step(r, store);
    let v = t.state;
    lemma_emit_shape(r, store);
    let at = pick(w.order, w.frontier);
    let last = r.emitted.len() as int;
    assert forall|i: int| 0 <= i < t.emitted.len() implies w.seen.contains(
        (#[trigger] t.emitted[i]).id,
    ) by {
        if i < last {
            assert(t.emitted[i] == r.emitted[i]);
        }
    }
    assert forall|i: int| 0 <= i < v.frontier.len() implies w.seen.contains(
        (#[trigger] v.frontier[i]).id,
    ) by {
        if i < at {
            assert(v.frontier[i] == w.frontier[i]);
        } else {
            assert(v.frontier[i] == w.frontier[i + 1]);
        }
    }
    assert(distinct_ids(t.emitted)) by {
        assert forall|i: int, j: int| 0 <= i < j < t.emitted.len() implies (
        #[trigger] t.emitted[i]).id != (#[trigger] t.emitted[j]).id by {
            assert(t.emitted[i] == r.emitted[i]);
            if j < last {
                assert(t.emitted[j] == r.emitted[j]);
            } else {
                assert(r.emitted[i].id != w.frontier[at].id);
            }
        }
    }
    assert(distinct_ids(v.frontier)) by {
        assert forall|i: int, j: int| 0 <= i < j < v.frontier.len() implies (
        #[trigger] v.frontier[i]).id != (#[trigger] v.frontier[j]).id by {
            let a = if i < at {
                i
            } else {
                i + 1
            };
            let b = if j < at {
                j
            } else {
                j + 1
            };
            assert(v.frontier[i] == w.frontier[a]);
            assert(v.frontier[j] == w.frontier[b]);
            assert(w.frontier[a].id != w.frontier[b].id);
        }
    }
    assert forall|i: int, j: int|
        0 <= i < t.emitted.len() && 0 <= j < v.frontier.len() implies (
    #[trigger] t.emitted[i]).id != (#[trigger] v.frontier[j]).id by {
        let b = if j < at {
            j
        } else {
            j + 1
        };
        assert(v.frontier[j] == w.frontier[b]);
        if i < last {
            assert(t.emitted[i] == r.emitted[i]);
            assert(r.emitted[i].id != w.frontier[b].id);
        } else {
            if at < b {
                assert(w.frontier[at].id != w.frontier[b].id);
            } else {
                assert(w.frontier[b].id != w.frontier[at].id);
            }
        }
    }
    assert forall|i: int, j: int|
        0 <= i < t.emitted.len() && 0 <= j < v.queue.len() implies (#[trigger] t.emitted[i]).id != (
    #[trigger] v.queue[j]).parent by {
        assert(w.seen.contains(t.emitted[i].id));
    }
    assert forall|i: int, j: int|
        0 <= i < v.frontier.len() && 0 <= j < v.queue.len() implies (
    #[trigger] v.frontier[i]).id != (#[trigger] v.queue[j]).parent by {
        assert(w.seen.contains(v.frontier[i].id));
    }
    assert forall|i: int| 0 <= i < v.queue.len() implies v.seen.contains(
        (#[trigger] v.queue[i]).parent,
    ) by {
        assert(c_parents_hold(r, v.queue[i].parent));
    }
}

spec fn c_parents_hold(r: RunView, id: Seq<u8>) -> bool {
    r.state.frontier[pick(r.state.order, r.state.frontier)].parents.contains(id)
}

proof fn lemma_emit_loaded(r: RunView, store: Store)
    requires
        inv_distinct(r),
        inv_loaded(r, store),
        next_step(r.state) is Emit,
    ensures
        inv_loaded(run_step(r, store), store),
{
    let w = r.state;
    let t = run_step(r, store);
    let v = t.state;
    lemma_emit_shape(r, store);
    let at = pick(w.order, w.frontier);
    let last = r.emitted.len() as int;
    assert forall|i: int| 0 <= i < t.emitted.len() implies store((#[trigger] t.emitted[i]).id)
        == Ok::<CommitView, Error>(t.emitted[i]) by {
        if i < last {
            assert(t.emitted[i] == r.emitted[i]);
        } else {
            assert(t.emitted[i] == w.frontier[at]);
        }
    }
    assert forall|i: int| 0 <= i < v.frontier.len() implies store((#[trigger] v.frontier[i]).id)
        == Ok::<CommitView, Error>(v.frontier[i]) by {
        if i < at {
            assert(v.frontier[i] == w.frontier[i]);
        } else {
            assert(v.frontier[i] == w.frontier[i + 1]);
        }
    }
}

proof fn lemma_emit_reach(r: RunView, store: Store, seeds: Seq<Seq<u8>>)
    requires
        inv_distinct(r),
        inv_loaded(r, store),
        inv_reach(r, store, seeds),
        next_step(r.state) is Emit,
    ensures
        inv_reach(run_step(r, store), store, seeds),
{
    let w = r.state;
    let t = run_step(r, store);
    let v = t.state;
    lemma_emit_shape(r, store);
    let at = pick(w.order, w.frontier);
    let c = w.frontier[at];
    assert(w.seen.contains(c.id));
    assert(store(c.id) == Ok::<CommitView, Error>(c));
    assert forall|x: Seq<u8>| #[trigger] v.seen.contains(x) implies reachable(store, seeds, x) by {
        if !w.seen.contains(x) {
            assert(c.parents.contains(x));
            let path = choose|path: Seq<Seq<u8>>| #[trigger]
                is_path(store, seeds, path) && path[path.len() - 1] == c.id;
            let longer = path.push(x);
            assert(links(store, c.id, x));
            assert forall|k: int| 0 <= k < longer.len() - 1 implies links(
                store,
                #[trigger] longer[k],
                longer[k + 1],
            ) by {
                if k < path.len() - 1 {
                    assert(links(store, path[k], path[k + 1]));
                }
            }
            assert(is_path(store, seeds, longer));
            assert(longer[longer.len() - 1] == x);
        }
    }
}

proof fn lemma_emit_closed(r: RunView, store: Store, seeds: Seq<Seq<u8>>)
    requires
        inv_distinct(r),
        inv_closed(r, store, seeds),
        next_step(r.state) is Emit,
    ensures
        inv_closed(run_step(r, store), store, seeds),
{
    let w = r.state;
    let t = run_step(r, store);
    let v = t.state;
    lemma_emit_shape(r, store);
    let at = pick(w.order, w.frontier);
    let c = w.frontier[at];
    let last = r.emitted.len() as int;
    assert forall|i: int| 0 <= i < seeds.len() implies v.seen.contains(#[trigger] seeds[i]) by {
        assert(w.seen.contains(seeds[i]));
    }
    assert forall|i: int, k: int|
        0 <= i < t.emitted.len() && 0 <= k < t.emitted[i].parents.len() implies v.seen.contains(
        #[trigger] t.emitted[i].parents[k],
    ) by {
        if i < last {
            assert(t.emitted[i] == r.emitted[i]);
            assert(w.seen.contains(r.emitted[i].parents[k]));
        } else {
            assert(c.parents.contains(c.parents[k]));
        }
    }
    assert forall|x: Seq<u8>| #[trigger] v.seen.contains(x) implies has_id(t.emitted, x) || has_id(
        v.frontier,
        x,
    ) || has_target(v.queue, x) || !loadable(store, x) by {
        if !w.seen.contains(x) {
            assert(c.parents.contains(x));
            assert(has_target(v.queue, x));
        } else if has_id(r.emitted, x) {
            let i = choose|i: int| 0 <= i < r.emitted.len() && (#[trigger] r.emitted[i]).id == x;
            assert(t.emitted[i] == r.emitted[i]);
        } else if has_id(w.frontier, x) {
            let i = choose|i: int| 0 <= i < w.frontier.len() && (#[trigger] w.frontier[i]).id == x;
            if i < at {
                assert(v.frontier[i] == w.frontier[i]);
            } else if i == at {
                assert(t.emitted[last].id == x);
            } else {
                assert(v.frontier[i - 1] == w.frontier[i - 1 + 1]);
            }
        } else if has_target(w.queue, x) {
            assert(false);
        }
    }
}

proof fn lemma_emit_sorted(r: RunView, store: Store)
    requires
        inv_distinct(r),
        inv_loaded(r, store),
        inv_sorted(r, store),
        r.state.order == Order::ByCommitTime,
        monotone(store),
        next_step(r.state) is Emit,
    ensures
        inv_sorted(run_step(r, store), store),
{
    let w = r.state;
    let t = run_step(r, store);
    let v = t.state;
    lemma_emit_shape(r, store);
    let at = pick(w.order, w.frontier);
    let c = w.frontier[at];
    let last = r.emitted.len() as int;
    assert(store(c.id) == Ok::<CommitView, Error>(c));
    assert(not_after_last(r.emitted, w.frontier[at].time()));
    assert forall|i: int, j: int| 0 <= i < j < t.emitted.len() implies (
    #[trigger] t.emitted[i]).time() >= (#[trigger] t.emitted[j]).time() by {
        assert(t.emitted[i] == r.emitted[i]);
        if j < last {
            assert(t.emitted[j] == r.emitted[j]);
        } else if i < last - 1 {
            assert(r.emitted[i].time() >= r.emitted[last - 1].time());
        }
    }
    assert forall|i: int| 0 <= i < v.frontier.len() implies not_after_last(
        t.emitted,
        (#[trigger] v.frontier[i]).time(),
    ) by {
        let b = if i < at {
            i
        } else {
            i + 1
        };
        assert(v.frontier[i] == w.frontier[b]);
        assert(w.frontier[b].time() <= c.time());
    }
    assert forall|i: int|
        0 <= i < v.queue.len() && loadable(store, (#[trigger] v.queue[i]).parent)
            implies not_after_last(t.emitted, store(v.queue[i].parent)->Ok_0.time()) by {
        let x = v.queue[i].parent;
        assert(c.parents.contains(x));
        assert(links(store, c.id, x));
    }
}

/// Handing out a commit and queueing its parents keeps `inv`.
proof fn lemma_emit_keeps_inv(r: RunView, store: Store, seeds: Seq<Seq<u8>>)
    requires
        inv(r, store, seeds),
        next_step(r.state) is Emit,
    ensures
        inv(run_step(r, store), store, seeds),
        run_step(r, store).state.order == r.state.order,
{
    lemma_emit_shape(r, store);
    lemma_emit_distinct(r, store);
    lemma_emit_loaded(r, store);
    lemma_emit_reach(r, store, seeds);
    lemma_emit_closed(r, store, seeds);
    if r.state.order == Order::ByCommitTime && monotone(store) {
        lemma_emit_sorted(r, store);
    }
}

/// `inv` holds of every run of a walk from `seeds`.
proof fn lemma_inv(store: Store, seeds: Seq<Seq<u8>>, order: Order, on_error: OnError, n: nat)
    ensures
        inv(walk_run(store, seeds, order, on_error, n), store, seeds),
        walk_run(store, seeds, order, on_error, n).state.order == order,
    decreases n,
{
    if n == 0 {
        lemma_inv_at_start(store, seeds, order, on_error);
    } else {
        let r = walk_run(store, seeds, order, on_error, (n - 1) as nat);
        lemma_inv(store, seeds, order, on_error, (n - 1) as nat);
        match next_step(r.state) {
            WalkStepView::Load(_) => lemma_load_keeps_inv(r, store, seeds),
            WalkStepView::Emit(_) => lemma_emit_keeps_inv(r, store, seeds),
            WalkStepView::Done => {},
        }
    }
}

/// A walk hands out no commit twice, and each commit that it hands out is
/// what the store holds under an id that can be reached from where the
/// walk started.
pub proof fn lemma_walk_emits_each_once(
    store: Store,
    seeds: Seq<Seq<u8>>,
    order: Order,
    on_error: OnError,
    n: nat,
)
    ensures
        distinct_ids(walk_run(store, seeds, order, on_error, n).emitted),
        forall|i: int|
            0 <= i < walk_run(store, seeds, order, on_error, n).emitted.len() ==> {
                let c = #[trigger] walk_run(store, seeds, order, on_error, n).emitted[i];
                store(c.id) == Ok::<CommitView, Error>(c) && reachable(store, seeds, c.id)
            },
{
    lemma_inv(store, seeds, order, on_error, n);
}

/// A walk that has ended without being stopped has handed out every commit
/// that the store holds and that can be reached from where it started.
pub proof fn lemma_walk_emits_all(
    store: Store,
    seeds: Seq<Seq<u8>>,
    order: Order,
    on_error: OnError,
    n: nat,
    id: Seq<u8>,
)
    requires
        finished(walk_run(store, seeds, order, on_error, n).state),
        !walk_run(store, seeds, order, on_error, n).state.stopped,
        reachable(store, seeds, id),
        loadable(store, id),
    ensures
        has_id(walk_run(store, seeds, order, on_error, n).emitted, id),
{
    lemma_inv(store, seeds, order, on_error, n);
    let path = choose|path: Seq<Seq<u8>>| #[trigger]
        is_path(store, seeds, path) && path[path.len() - 1] == id;
    lemma_path_is_seen(walk_run(store, seeds, order, on_error, n), store, seeds, path);
}

proof fn lemma_path_is_seen(r: RunView, store: Store, seeds: Seq<Seq<u8>>, path: Seq<Seq<u8>>)
    requires
        inv(r, store, seeds),
        finished(r.state),
        !r.state.stopped,
        is_path(store, seeds, path),
    ensures
        r.state.seen.contains(path[path.len() - 1]),
        loadable(store, path[path.len() - 1]) ==> has_id(r.emitted, path[path.len() - 1]),
    decreases path.len(),
{
    let w = r.state;
    let id = path[path.len() - 1];
    assert(w.queue.len() == 0 && w.frontier.len() == 0);
    if path.len() == 1 {
        let k = choose|k: int| 0 <= k < seeds.len() && seeds[k] == path[0];
        assert(w.seen.contains(seeds[k]));
    } else {
        let shorter = path.drop_last();
        assert forall|k: int| 0 <= k < shorter.len() - 1 implies links(
            store,
            #[trigger] shorter[k],
            shorter[k + 1],
        ) by {
            assert(links(store, path[k], path[k + 1]));
        }
        assert(is_path(store, seeds, shorter));
        lemma_path_is_seen(r, store, seeds, shorter);
        let a = shorter[shorter.len() - 1];
        assert(a == path[path.len() - 2]);
        assert(links(store, path[path.len() - 2], path[path.len() - 2 + 1]));
        let i = choose|i: int| 0 <= i < r.emitted.len() && (#[trigger] r.emitted[i]).id == a;
        let k = choose|k: int|
            0 <= k < r.emitted[i].parents.len() && r.emitted[i].parents[k] == id;
        assert(w.seen.contains(r.emitted[i].parents[k]));
    }
    if loadable(store, id) {
        assert(!has_id(w.frontier, id));
        assert(!has_target(w.queue, id));
    }
}

/// Where no commit in the store was made before one of its parents, a walk
/// in order of commit time hands out the latest commit first: no commit
/// comes after one that is older than it.
pub proof fn lemma_walk_by_time_is_ordered(
    store: Store,
    seeds: Seq<Seq<u8>>,
    on_error: OnError,
    n: nat,
)
    requires
        monotone(store),
    ensures
        latest_first(walk_run(store, seeds, Order::ByCommitTime, on_error, n).emitted),
{
    lemma_inv(store, seeds, Order::ByCommitTime, on_error, n);
}

/// A walk that ends at the first failure has been stopped exactly when it
/// has reported a failure, and a walk that skips is never stopped.
pub proof fn lemma_failure_stops(
    store: Store,
    seeds: Seq<Seq<u8>>,
    order: Order,
    on_error: OnError,
    n: nat,
)
    ensures
        ({
            let r = walk_run(store, seeds, order, on_error, n);
            &&& r.state.on_error == on_error
            &&& on_error == OnError::Abort ==> (r.state.stopped <==> r.failures.len() > 0)
            &&& on_error == OnError::Skip ==> !r.state.stopped
        }),
    decreases n,
{
    if n == 0 {
        lemma_enqueue(
            WalkView {
                order,
                on_error,
                seen: Set::empty(),
                queue: Seq::empty(),
                awaiting: None,
                frontier: Seq::empty(),
                stopped: false,
            },
            None,
            seeds,
        );
    } else {
        let r = walk_run(store, seeds, order, on_error, (n - 1) as nat);
        lemma_failure_stops(store, seeds, order, on_error, (n - 1) as nat);
        match next_step(r.state) {
            WalkStepView::Emit(c) => {
                let at = pick(r.state.order, r.state.frontier);
                lemma_enqueue(
                    WalkView { frontier: r.state.frontier.remove(at), ..r.state },
                    Some(c.id),
                    c.parents,
                );
            },
            _ => {},
        }
    }
}

/// Whether the store holds a commit under each of `seeds` and under each
/// parent of each commit that it holds: a graph without loose ends.
pub open spec fn closed(store: Store, seeds: Seq<Seq<u8>>) -> bool {
    &&& forall|i: int| 0 <= i < seeds.len() ==> loadable(store, #[trigger] seeds[i])
    &&& forall|a: Seq<u8>, b: Seq<u8>| #[trigger] links(store, a, b) ==> loadable(store, b)
}

proof fn lemma_closed_path(store: Store, seeds: Seq<Seq<u8>>, path: Seq<Seq<u8>>)
    requires
        closed(store, seeds),
        is_path(store, seeds, path),
    ensures
        loadable(store, path[path.len() - 1]),
{
    if path.len() == 1 {
        let k = choose|k: int| 0 <= k < seeds.len() && seeds[k] == path[0];
        assert(loadable(store, seeds[k]));
    } else {
        assert(links(store, path[path.len() - 2], path[path.len() - 2 + 1]));
    }
}

/// In a graph without loose ends a walk reports no failure and is never
/// stopped.
pub proof fn lemma_closed_walk_never_fails(
    store: Store,
    seeds: Seq<Seq<u8>>,
    order: Order,
    on_error: OnError,
    n: nat,
)
    requires
        closed(store, seeds),
    ensures
        walk_run(store, seeds, order, on_error, n).failures.len() == 0,
        !walk_run(store, seeds, order, on_error, n).state.stopped,
    decreases n,
{
    lemma_failure_stops(store, seeds, order, on_error, n);
    if n > 0 {
        let r = walk_run(store, seeds, order, on_error, (n - 1) as nat);
        lemma_closed_walk_never_fails(store, seeds, order, on_error, (n - 1) as nat);
        lemma_inv(store, seeds, order, on_error, (n - 1) as nat);
        match next_step(r.state) {
            WalkStepView::Load(edge) => {
                assert(edge == r.state.queue[0]);
                assert(r.state.seen.contains(edge.parent));
                let path = choose|path: Seq<Seq<u8>>| #[trigger]
                    is_path(store, seeds, path) && path[path.len() - 1] == edge.parent;
                lemma_closed_path(store, seeds, path);
            },
            WalkStepView::Emit(c) => {
                lemma_emit_shape(r, store);
            },
            WalkStepView::Done => {},
        }
    }
}

/// In a graph without loose ends a walk that has ended has handed out each
/// commit that can be reached from where it started, and each once.
pub proof fn lemma_walk_covers_closed_graph(
    store: Store,
    seeds: Seq<Seq<u8>>,
    order: Order,
    on_error: OnError,
    n: nat,
)
    requires
        closed(store, seeds),
        finished(walk_run(store, seeds, order, on_error, n).state),
    ensures
        distinct_ids(walk_run(store, seeds, order, on_error, n).emitted),
        forall|id: Seq<u8>|
            reachable(store, seeds, id) <==> #[trigger] has_id(
                walk_run(store, seeds, order, on_error, n).emitted,
                id,
            ),
{
    let r = walk_run(store, seeds, order, on_error, n);
    lemma_closed_walk_never_fails(store, seeds, order, on_error, n);
    lemma_walk_emits_each_once(store, seeds, order, on_error, n);
    assert forall|id: Seq<u8>| reachable(store, seeds, id) implies #[trigger] has_id(
        r.emitted,
        id,
    ) by {
        let path = choose|path: Seq<Seq<u8>>| #[trigger]
            is_path(store, seeds, path) && path[path.len() - 1] == id;
        lemma_closed_path(store, seeds, path);
        lemma_walk_emits_all(store, seeds, order, on_error, n, id);
    }
    assert forall|id: Seq<u8>| #[trigger] has_id(r.emitted, id) implies reachable(
        store,
        seeds,
        id,
    ) by {
        let i = choose|i: int| 0 <= i < r.emitted.len() && (#[trigger] r.emitted[i]).id == id;
        assert(reachable(store, seeds, r.emitted[i].id));
    }
}

/// A walk that starts from nothing has ended before it began: it hands
/// out no commit and reports no failure.
pub proof fn lemma_walk_from_nothing(store: Store, order: Order, on_error: OnError, n: nat)
    ensures
        finished(walk_run(store, Seq::empty(), order, on_error, n).state),
        !walk_run(store, Seq::empty(), order, on_error, n).state.stopped,
        walk_run(store, Seq::empty(), order, on_error, n).emitted.len() == 0,
        walk_run(store, Seq::empty(), order, on_error, n).failures.len() == 0,
    decreases n,
{
    if n > 0 {
        lemma_walk_from_nothing(store, order, on_error, (n - 1) as nat);
    }
}

/// A walk that has ended stays as it is.
pub proof fn lemma_finished_run_stays(w: WalkView, store: Store, n: nat, m: nat)
    requires
        finished(run(w, store, n).state),
        n <= m,
    ensures
        run(w, store, m) == run(w, store, n),
    decreases m - n,
{
    if n < m {
        lemma_finished_run_stays(w, store, n, (m - 1) as nat);
    }
}

} // verus!
