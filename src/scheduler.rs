//! The global scheduler: a single-writer actor over the resource state that
//! takes one message at a time and says which replies go out.
//!
//! Channels are opaque here: `S` is the channel on which an idle worker
//! waits for its next task, `R` the one on which a caller waits for the
//! outcome of its invocation.

use vstd::prelude::*;

use crate::resource_manager::{
    add_worker, all_workers, cache_view, drop_idle, drop_node, ensure_node, idle_view, placed, refresh,
    reconcile, unregister, CacheView, Endpoint, IdleView, Node, NodeInfo, ResourceManager, Worker,
};
use crate::rpc::ResourceInfo;

verus! {

/// An admitted invocation that waits for an idle worker.
#[derive(Debug)]
pub struct Pending {
    pub task_id: u128,
    pub image: String,
    pub invoke: Vec<u8>,
}

/// The scheduler's answer to a worker that asked for a task.
#[derive(Debug, PartialEq, Eq)]
pub enum WorkerReply {
    ProcessTask { task_id: u128, invoke: Vec<u8> },
    Terminate,
}

/// `j` holds the oldest waiter of task `id`.
pub open spec fn first_waiter<R>(wl: Seq<(u128, R)>, id: u128, j: int) -> bool {
    &&& 0 <= j < wl.len()
    &&& wl[j].0 == id
    &&& forall|k: int| 0 <= k < j ==> wl[k].0 != id
}

/// The oldest waiter of task `id`, if any, and the wait list without it.
pub open spec fn take_one<R>(wl: Seq<(u128, R)>, id: u128) -> (Option<R>, Seq<(u128, R)>) {
    if exists|j: int| first_waiter(wl, id, j) {
        let j = choose|j: int| first_waiter(wl, id, j);
        (Some(wl[j].1), wl.remove(j))
    } else {
        (None, wl)
    }
}

/// The waiters of the tasks `ids`, taken in order, and what is left.
pub open spec fn take_all<R>(wl: Seq<(u128, R)>, ids: Seq<u128>) -> (Seq<R>, Seq<(u128, R)>)
    decreases ids.len(),
{
    if ids.len() == 0 {
        (Seq::empty(), wl)
    } else {
        let (o, wl1) = take_one(wl, ids[0]);
        let (rs, wl2) = take_all(wl1, ids.drop_first());
        match o {
            Some(c) => (seq![c] + rs, wl2),
            None => (rs, wl2),
        }
    }
}

/// The task ids of pending invocations, in order.
pub open spec fn pending_ids(p: Seq<Pending>) -> Seq<u128> {
    p.map_values(|x: Pending| x.task_id)
}

/// With no idle worker, placement picks none and leaves the pool as it is.
pub proof fn lemma_no_idle_blocks<S>(
    info: Seq<NodeInfo>,
    c: CacheView,
    iv: IdleView<S>,
    info2: Seq<NodeInfo>,
    c2: CacheView,
    iv2: IdleView<S>,
    f: Seq<char>,
    r: Option<Worker<S>>,
)
    requires
        iv.len() == 0,
        placed(info, c, iv, info2, c2, iv2, f, r),
    ensures
        r.is_none(),
        iv2 == iv,
{
    if exists|ci: int, i: int| crate::resource_manager::cached_pick(info, c, f, ci, i) {
        let (ci, i) = choose|ci: int, i: int| crate::resource_manager::cached_pick(info, c, f, ci, i);
        assert(crate::resource_manager::cached_pick(info, c, f, ci, i));
    }
}

/// A task whose id the wait list holds at most once is answered at most once:
/// after its waiter is taken, finishing it again finds none.
pub proof fn lemma_answered_once<R>(wl: Seq<(u128, R)>, id: u128)
    requires
        forall|i: int, j: int| 0 <= i < wl.len() && 0 <= j < wl.len() && wl[i].0 == id && wl[j].0 == id ==> i == j,
    ensures
        take_one(take_one(wl, id).1, id).0.is_none(),
{
    let wl1 = take_one(wl, id).1;
    if exists|j: int| first_waiter(wl, id, j) {
        let j = choose|j: int| first_waiter(wl, id, j);
        assert forall|b: int| !first_waiter(wl1, id, b) by {
            if first_waiter(wl1, id, b) {
                if b < j {
                    assert(wl1[b] == wl[b]);
                } else {
                    assert(wl1[b] == wl[b + 1]);
                }
            }
        }
    } else {
        assert forall|b: int| !first_waiter(wl1, id, b) by {
            if first_waiter(wl1, id, b) {
                assert(first_waiter(wl, id, b)) by {
                    assert forall|k: int| 0 <= k < b implies wl[k].0 != id by {}
                }
            }
        }
    }
}

/// Relies on uuid's `Uuid::new_v4` and `Uuid::as_u128`: a random id; nothing
/// is known of its value.
#[verifier::external_body]
fn new_task_id() -> (r: u128) {
    uuid::Uuid::new_v4().as_u128()
}

/// Takes the oldest waiter of task `id` out of the wait list.
fn take_waiter<R>(wl: &mut Vec<(u128, R)>, id: u128) -> (r: Option<R>)
    ensures
        (r, final(wl)@) == take_one(old(wl)@, id),
{
    let ghost wl0 = wl@;
    let mut j: usize = 0;
    while j < wl.len() && wl[j].0 != id
        invariant
            wl@ == wl0,
            j <= wl@.len(),
            forall|k: int| 0 <= k < j ==> wl@[k].0 != id,
        decreases wl@.len() - j,
    {
        j = j + 1;
    }
    if j < wl.len() {
        assert(first_waiter(wl0, id, j as int));
        assert forall|b: int| first_waiter(wl0, id, b) implies b == j by {}
        let (_, c) = wl.remove(j);
        Some(c)
    } else {
        assert forall|b: int| !first_waiter(wl0, id, b) by {}
        None
    }
}

/// The scheduler's state.
pub struct GlobalScheduler<S, R> {
    pub manager: ResourceManager<S, R>,
    /// Admitted invocations that found no idle worker, oldest first.
    pub pending: Vec<Pending>,
    /// Set once all workers were told to terminate.
    pub terminated: bool,
}

impl<S, R> GlobalScheduler<S, R> {
    pub open spec fn wf(&self) -> bool {
        self.manager.wf()
    }

    pub fn new() -> (r: Self)
        ensures
            r.wf(),
            r.manager.info@.len() == 0,
            r.manager.cached@.len() == 0,
            r.manager.idle@.len() == 0,
            r.manager.wait_list@.len() == 0,
            r.pending@.len() == 0,
            !r.terminated,
    {
        GlobalScheduler { manager: ResourceManager::new(), pending: Vec::new(), terminated: false }
    }

    /// Admits an invocation of `image` under a fresh task id, and returns the
    /// id with the reply, if any, to send to the worker picked for it.
    pub fn labeled_invoke(&mut self, image: String, invoke: Vec<u8>, reply: R) -> (r: (
        u128,
        Option<(S, WorkerReply)>,
    ))
        requires
            old(self).wf(),
        ensures
            final(self).wf(),
            final(self).manager.wait_list@ == old(self).manager.wait_list@.push((r.0, reply)),
            final(self).terminated == old(self).terminated,
            exists|w: Option<Worker<S>>|
                {
                    &&& placed(
                        old(self).manager.info@,
                        cache_view(old(self).manager.cached@),
                        idle_view(old(self).manager.idle@),
                        final(self).manager.info@,
                        cache_view(final(self).manager.cached@),
                        idle_view(final(self).manager.idle@),
                        image@,
                        w,
                    )
                    &&& w is Some ==> r.1 == Some((w->0.sender, WorkerReply::ProcessTask { task_id: r.0, invoke }))
                        && final(self).pending@ == old(self).pending@
                    &&& w is None ==> r.1.is_none() && final(self).pending@ == old(self).pending@.push(
                        Pending { task_id: r.0, image, invoke },
                    )
                },
    {
        let task_id = new_task_id();
        let out = self.enqueue_invoke(task_id, image, invoke, reply);
        (task_id, out)
    }

    /// Admits the invocation `task_id` of `image`: records its caller, then
    /// hands it to the worker that placement picks, or parks it.
    pub fn enqueue_invoke(&mut self, task_id: u128, image: String, invoke: Vec<u8>, reply: R) -> (r: Option<
        (S, WorkerReply),
    >)
        requires
            old(self).wf(),
        ensures
            final(self).wf(),
            final(self).manager.wait_list@ == old(self).manager.wait_list@.push((task_id, reply)),
            final(self).terminated == old(self).terminated,
            exists|w: Option<Worker<S>>|
                {
                    &&& placed(
                        old(self).manager.info@,
                        cache_view(old(self).manager.cached@),
                        idle_view(old(self).manager.idle@),
                        final(self).manager.info@,
                        cache_view(final(self).manager.cached@),
                        idle_view(final(self).manager.idle@),
                        image@,
                        w,
                    )
                    &&& w is Some ==> r == Some((w->0.sender, WorkerReply::ProcessTask { task_id, invoke }))
                        && final(self).pending@ == old(self).pending@
                    &&& w is None ==> r.is_none() && final(self).pending@ == old(self).pending@.push(
                        Pending { task_id, image, invoke },
                    )
                },
    {
        let ghost img = image@;
        self.manager.wait_list.push((task_id, reply));
        let ghost m0 = self.manager;
        assert(m0.info == old(self).manager.info && m0.cached == old(self).manager.cached && m0.idle
            == old(self).manager.idle);
        let w = self.manager.find_idle(&image);
        let ghost wg = w;
        assert(placed(
            m0.info@,
            cache_view(m0.cached@),
            idle_view(m0.idle@),
            self.manager.info@,
            cache_view(self.manager.cached@),
            idle_view(self.manager.idle@),
            image@,
            wg,
        ));
        let ghost p0 = self.pending@;
        let ghost req = Pending { task_id, image, invoke };
        let r = match w {
            Some(w) => Some((w.sender, WorkerReply::ProcessTask { task_id, invoke })),
            None => {
                self.pending.push(Pending { task_id, image, invoke });
                None
            },
        };
        assert(wg is Some ==> r == Some((wg->0.sender, WorkerReply::ProcessTask { task_id, invoke: req.invoke }))
            && self.pending@ == p0);
        assert(wg is None ==> r.is_none() && self.pending@ == p0.push(req));
        assert(placed(
            old(self).manager.info@,
            cache_view(old(self).manager.cached@),
            idle_view(old(self).manager.idle@),
            self.manager.info@,
            cache_view(self.manager.cached@),
            idle_view(self.manager.idle@),
            img,
            wg,
        ));
        r
    }

    /// A worker at `addr` asks for a task. After termination it is told to
    /// terminate. Otherwise it becomes idle, and the oldest pending
    /// invocation, if any, is placed; the reply goes to the worker picked.
    pub fn get_task(&mut self, addr: Endpoint, sender: S) -> (r: Option<(S, WorkerReply)>)
        requires
            old(self).wf(),
        ensures
            final(self).wf(),
            old(self).terminated ==> r == Some((sender, WorkerReply::Terminate)) && *final(self) == *old(
                self,
            ),
            !old(self).terminated ==> {
                let n = Node(addr.ip);
                let info1 = ensure_node(old(self).manager.info@, n);
                let iv1 = add_worker(idle_view(old(self).manager.idle@), n, Worker { addr, sender });
                let p = old(self).pending@;
                &&& !final(self).terminated
                &&& final(self).manager.wait_list == old(self).manager.wait_list
                &&& p.len() == 0 ==> {
                    &&& r.is_none()
                    &&& final(self).manager.info@ == info1
                    &&& idle_view(final(self).manager.idle@) == iv1
                    &&& final(self).manager.cached == old(self).manager.cached
                    &&& final(self).pending == old(self).pending
                }
                &&& p.len() > 0 ==> exists|w: Option<Worker<S>>|
                    {
                        &&& placed(
                            info1,
                            cache_view(old(self).manager.cached@),
                            iv1,
                            final(self).manager.info@,
                            cache_view(final(self).manager.cached@),
                            idle_view(final(self).manager.idle@),
                            p[0].image@,
                            w,
                        )
                        &&& w is Some ==> r == Some(
                            (w->0.sender, WorkerReply::ProcessTask { task_id: p[0].task_id, invoke: p[0].invoke }),
                        ) && final(self).pending@ == p.drop_first()
                        &&& w is None ==> r.is_none() && final(self).pending == old(self).pending
                    }
            },
    {
        if self.terminated {
            return Some((sender, WorkerReply::Terminate));
        }
        self.manager.add_idle(addr, sender);
        if self.pending.len() == 0 {
            return None;
        }
        let ghost m0 = self.manager;
        let w = self.manager.find_idle(&self.pending[0].image);
        let ghost wg = w;
        assert(placed(
            m0.info@,
            cache_view(m0.cached@),
            idle_view(m0.idle@),
            self.manager.info@,
            cache_view(self.manager.cached@),
            idle_view(self.manager.idle@),
            self.pending@[0].image@,
            wg,
        ));
        let ghost p0 = self.pending@;
        let r = match w {
            Some(w) => {
                let p = self.pending.remove(0);
                assert(self.pending@ =~= p0.drop_first());
                Some((w.sender, WorkerReply::ProcessTask { task_id: p.task_id, invoke: p.invoke }))
            },
            None => None,
        };
        assert(wg is Some ==> r == Some(
            (wg->0.sender, WorkerReply::ProcessTask { task_id: p0[0].task_id, invoke: p0[0].invoke }),
        ) && self.pending@ == p0.drop_first());
        assert(wg is None ==> r.is_none() && self.pending@ == p0);
        r
    }

    /// A worker reports the result of task `task_id`: its oldest waiter
    /// leaves the wait list and gets the result. A task without a waiter
    /// (finished twice, or after termination) changes nothing.
    pub fn finish_task(&mut self, task_id: u128, result: Vec<u8>) -> (r: Option<(R, Vec<u8>)>)
        requires
            old(self).wf(),
        ensures
            final(self).wf(),
            final(self).manager.wait_list@ == take_one(old(self).manager.wait_list@, task_id).1,
            r == match take_one(old(self).manager.wait_list@, task_id).0 {
                Some(c) => Some((c, result)),
                None => None,
            },
            final(self).manager.info == old(self).manager.info,
            final(self).manager.cached == old(self).manager.cached,
            final(self).manager.idle == old(self).manager.idle,
            final(self).pending == old(self).pending,
            final(self).terminated == old(self).terminated,
    {
        match take_waiter(&mut self.manager.wait_list, task_id) {
            Some(c) => Some((c, result)),
            None => None,
        }
    }

    /// A node's local resource manager reports a snapshot. One whose free
    /// memory exceeds its total is refused (false) and changes nothing.
    pub fn update_resource(&mut self, addr: u128, info: ResourceInfo) -> (r: bool)
        requires
            old(self).wf(),
        ensures
            final(self).wf(),
            r == (info.free_mem <= info.total_mem),
            !r ==> *final(self) == *old(self),
            r ==> {
                &&& final(self).manager.info@ == refresh(
                    old(self).manager.info@,
                    Node(addr),
                    info.total_mem,
                    info.free_mem,
                )
                &&& cache_view(final(self).manager.cached@) == reconcile(
                    cache_view(old(self).manager.cached@),
                    Node(addr),
                    info.stats_view(),
                )
                &&& final(self).manager.idle == old(self).manager.idle
                &&& final(self).manager.wait_list == old(self).manager.wait_list
                &&& final(self).pending == old(self).pending
                &&& final(self).terminated == old(self).terminated
            },
    {
        if info.free_mem > info.total_mem {
            return false;
        }
        self.manager.update(addr, info);
        true
    }

    /// A node leaves: its record, idle workers and cache entries go.
    pub fn drop_resource(&mut self, addr: u128)
        requires
            old(self).wf(),
        ensures
            final(self).wf(),
            final(self).manager.info@ == unregister(old(self).manager.info@, Node(addr)),
            idle_view(final(self).manager.idle@) == drop_idle(idle_view(old(self).manager.idle@), Node(addr)),
            cache_view(final(self).manager.cached@) == drop_node(cache_view(old(self).manager.cached@), Node(addr)),
            final(self).manager.wait_list == old(self).manager.wait_list,
            final(self).pending == old(self).pending,
            final(self).terminated == old(self).terminated,
    {
        self.manager.remove(addr);
    }

    /// Terminates: returns every idle worker, to be told to terminate, and
    /// the callers of the pending invocations, in order, to be told that
    /// their invocations were terminated. Workers that ask later are told to
    /// terminate.
    pub fn terminate_all(&mut self) -> (r: (Vec<Worker<S>>, Vec<R>))
        requires
            old(self).wf(),
        ensures
            final(self).wf(),
            final(self).terminated,
            r.0@ == all_workers(idle_view(old(self).manager.idle@)),
            final(self).manager.idle@.len() == 0,
            final(self).pending@.len() == 0,
            r.1@ == take_all(old(self).manager.wait_list@, pending_ids(old(self).pending@)).0,
            final(self).manager.wait_list@ == take_all(
                old(self).manager.wait_list@,
                pending_ids(old(self).pending@),
            ).1,
            final(self).manager.info == old(self).manager.info,
            final(self).manager.cached == old(self).manager.cached,
    {
        let workers = self.manager.reset();
        let ghost wl0 = self.manager.wait_list@;
        let ghost ids0 = pending_ids(self.pending@);
        let mut callers: Vec<R> = Vec::new();
        let mut rest: Vec<Pending> = Vec::new();
        std::mem::swap(&mut rest, &mut self.pending);
        assert(pending_ids(rest@) == ids0);
        while rest.len() > 0
            invariant
                self.manager.wf(),
                self.manager.idle@.len() == 0,
                self.manager.info == old(self).manager.info,
                self.manager.cached == old(self).manager.cached,
                self.pending@.len() == 0,
                callers@ + take_all(self.manager.wait_list@, pending_ids(rest@)).0 == take_all(wl0, ids0).0,
                take_all(self.manager.wait_list@, pending_ids(rest@)).1 == take_all(wl0, ids0).1,
            decreases rest@.len(),
        {
            let ghost ids = pending_ids(rest@);
            let ghost c0 = callers@;
            let ghost wl = self.manager.wait_list@;
            let p = rest.remove(0);
            assert(pending_ids(rest@) =~= ids.drop_first());
            assert(ids[0] == p.task_id);
            match take_waiter(&mut self.manager.wait_list, p.task_id) {
                Some(c) => {
                    callers.push(c);
                    assert(callers@ + take_all(self.manager.wait_list@, pending_ids(rest@)).0 =~= c0 + take_all(
                        wl,
                        ids,
                    ).0);
                },
                None => {},
            }
        }
        assert(pending_ids(rest@) =~= Seq::<u128>::empty());
        assert(callers@ =~= take_all(wl0, ids0).0);
        self.terminated = true;
        (workers, callers)
    }
}

} // verus!
