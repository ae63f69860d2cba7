//! The global resource state across worker nodes: which nodes are known and
//! how much memory they have, where warm VMs of each function are cached, and
//! which workers are idle.

use vstd::prelude::*;

use crate::rpc::ResourceInfo;

verus! {

/// A worker node, identified by its IP address (an IPv4 address is held in
/// its IPv6-mapped form).
#[derive(Clone, Copy, Debug, PartialEq, Eq, Structural)]
pub struct Node(pub u128);

/// The socket address that a worker connected from.
#[derive(Clone, Copy, Debug, PartialEq, Eq, Structural)]
pub struct Endpoint {
    pub ip: u128,
    pub port: u16,
}

impl Endpoint {
    /// The node that this address belongs to.
    pub fn node(&self) -> (r: Node)
        ensures
            r == Node(self.ip),
    {
        Node(self.ip)
    }
}

/// What the scheduler knows of one node.
#[derive(Clone, Copy, Debug, PartialEq, Eq, Structural)]
pub struct NodeInfo {
    pub node: Node,
    pub total_mem: usize,
    pub free_mem: usize,
    /// Set when an idle worker was taken from the node without knowing which
    /// cached image it consumed; cleared by the node's next update.
    pub dirty: bool,
}

impl NodeInfo {
    pub open spec fn fresh(node: Node) -> NodeInfo {
        NodeInfo { node, total_mem: 0, free_mem: 0, dirty: false }
    }

    pub fn new(node: Node) -> (r: NodeInfo)
        ensures
            r == NodeInfo::fresh(node),
    {
        NodeInfo { node, dirty: false, total_mem: 0, free_mem: 0 }
    }

    pub fn dirty(&self) -> (r: bool)
        ensures
            r == self.dirty,
    {
        self.dirty
    }

    pub fn set_dirty(&mut self, v: bool)
        ensures
            *final(self) == (NodeInfo { dirty: v, ..*old(self) }),
    {
        self.dirty = v;
    }
}

/// An idle worker: where it connected from, and the channel on which it
/// waits for its next task.
#[derive(Debug)]
pub struct Worker<S> {
    pub addr: Endpoint,
    pub sender: S,
}

/// The registry, as a sequence of node records.
pub open spec fn registered(info: Seq<NodeInfo>, n: Node) -> bool {
    exists|k: int| 0 <= k < info.len() && info[k].node == n
}

/// `n` is registered and not dirty.
pub open spec fn node_clean(info: Seq<NodeInfo>, n: Node) -> bool {
    exists|k: int| 0 <= k < info.len() && info[k].node == n && !info[k].dirty
}

pub open spec fn info_wf(info: Seq<NodeInfo>) -> bool {
    &&& forall|i: int, j: int| 0 <= i < j < info.len() ==> info[i].node != info[j].node
    &&& forall|i: int| 0 <= i < info.len() ==> info[i].free_mem <= info[i].total_mem
}

/// The cache entries of one function: each node once, each count positive,
/// each node registered, and at least one entry.
pub open spec fn entries_wf(info: Seq<NodeInfo>, es: Seq<(Node, usize)>) -> bool {
    &&& es.len() > 0
    &&& forall|i: int| 0 <= i < es.len() ==> es[i].1 > 0 && registered(info, es[i].0)
    &&& forall|i: int, j: int| 0 <= i < j < es.len() ==> es[i].0 != es[j].0
}

pub type CacheView = Seq<(Seq<char>, Seq<(Node, usize)>)>;

pub open spec fn cache_view(c: Seq<(String, Vec<(Node, usize)>)>) -> CacheView {
    c.map_values(|e: (String, Vec<(Node, usize)>)| (e.0@, e.1@))
}

pub open spec fn cache_wf(info: Seq<NodeInfo>, c: CacheView) -> bool {
    &&& forall|i: int, j: int| 0 <= i < j < c.len() ==> c[i].0 != c[j].0
    &&& forall|i: int| 0 <= i < c.len() ==> #[trigger] entries_wf(info, c[i].1)
}

pub type IdleView<S> = Seq<(Node, Seq<Worker<S>>)>;

pub open spec fn idle_view<S>(idle: Seq<(Node, Vec<Worker<S>>)>) -> IdleView<S> {
    idle.map_values(|e: (Node, Vec<Worker<S>>)| (e.0, e.1@))
}

/// Each node at most once, no empty list, only registered nodes.
pub open spec fn idle_wf<S>(info: Seq<NodeInfo>, idle: IdleView<S>) -> bool {
    &&& forall|i: int, j: int| 0 <= i < j < idle.len() ==> idle[i].0 != idle[j].0
    &&& forall|i: int|
        0 <= i < idle.len() ==> idle[i].1.len() > 0 && registered(info, idle[i].0)
}

/// `ii` is the position of node `n` in the idle pool.
pub open spec fn idle_pos<S>(idle: IdleView<S>, n: Node, ii: int) -> bool {
    0 <= ii < idle.len() && idle[ii].0 == n
}

/// The idle pool after one worker is taken from the list at `ii` (the one
/// idle longest); a list that becomes empty is dropped.
pub open spec fn pop_at<S>(idle: IdleView<S>, ii: int) -> IdleView<S> {
    if idle[ii].1.len() <= 1 {
        idle.remove(ii)
    } else {
        idle.update(ii, (idle[ii].0, idle[ii].1.drop_first()))
    }
}

/// The idle pool after `w` registers as idle on node `n`.
pub open spec fn add_worker<S>(idle: IdleView<S>, n: Node, w: Worker<S>) -> IdleView<S> {
    if exists|ii: int| idle_pos(idle, n, ii) {
        let ii = choose|ii: int| idle_pos(idle, n, ii);
        idle.update(ii, (n, idle[ii].1.push(w)))
    } else {
        idle.push((n, seq![w]))
    }
}

/// `i` is the first entry of `es` whose node is registered and clean.
pub open spec fn is_first_clean(info: Seq<NodeInfo>, es: Seq<(Node, usize)>, i: int) -> bool {
    &&& 0 <= i < es.len()
    &&& node_clean(info, es[i].0)
    &&& forall|j: int| 0 <= j < i ==> !node_clean(info, es[j].0)
}

/// `ci` is the position of function `f` in the cache index.
pub open spec fn cache_pos(c: CacheView, f: Seq<char>, ci: int) -> bool {
    0 <= ci < c.len() && c[ci].0 == f
}

/// Placement takes its first step: `f` stands at `ci` of the cache index, and
/// entry `i` of its list is the first on a clean node.
pub open spec fn cached_pick(info: Seq<NodeInfo>, c: CacheView, f: Seq<char>, ci: int, i: int) -> bool {
    cache_pos(c, f, ci) && is_first_clean(info, c[ci].1, i)
}

/// The cache index after one warm VM of entry `i` of the function at `ci` is
/// used: its count drops by one, a zero entry goes, and so does a function
/// left without entries.
pub open spec fn consume(c: CacheView, ci: int, i: int) -> CacheView {
    let es = c[ci].1;
    let es2 = if es[i].1 <= 1 {
        es.remove(i)
    } else {
        es.update(i, (es[i].0, (es[i].1 - 1) as usize))
    };
    if es2.len() == 0 {
        c.remove(ci)
    } else {
        c.update(ci, (c[ci].0, es2))
    }
}

/// The registry with node `n` marked dirty.
pub open spec fn mark_dirty(info: Seq<NodeInfo>, n: Node) -> Seq<NodeInfo> {
    info.map_values(|x: NodeInfo| if x.node == n { NodeInfo { dirty: true, ..x } } else { x })
}

/// `j` is the position of node `n` among the entries `es`.
pub open spec fn entry_pos(es: Seq<(Node, usize)>, n: Node, j: int) -> bool {
    0 <= j < es.len() && es[j].0 == n
}

/// The cache index after node `n` reports `k` warm VMs of function `f`: its
/// entry takes the new count, or is appended when there was none, and an
/// entry or a function left empty goes.
pub open spec fn apply_stat(c: CacheView, n: Node, f: Seq<char>, k: usize) -> CacheView {
    if exists|ci: int| cache_pos(c, f, ci) {
        let ci = choose|ci: int| cache_pos(c, f, ci);
        let es = c[ci].1;
        let es2 = if exists|j: int| entry_pos(es, n, j) {
            let j = choose|j: int| entry_pos(es, n, j);
            if k == 0 {
                es.remove(j)
            } else {
                es.update(j, (n, k))
            }
        } else if k > 0 {
            es.push((n, k))
        } else {
            es
        };
        if es2.len() == 0 {
            c.remove(ci)
        } else {
            c.update(ci, (f, es2))
        }
    } else if k > 0 {
        c.push((f, seq![(n, k)]))
    } else {
        c
    }
}

/// The cache index after node `n` reports the counts `stats`, in order.
/// Functions that `stats` leaves out keep their entries.
pub open spec fn reconcile(c: CacheView, n: Node, stats: Seq<(Seq<char>, usize)>) -> CacheView
    decreases stats.len(),
{
    if stats.len() == 0 {
        c
    } else {
        reconcile(apply_stat(c, n, stats[0].0, stats[0].1), n, stats.drop_first())
    }
}

/// The registry after node `n` reports its memory: the node is known, clean,
/// and holds the reported figures.
pub open spec fn refresh(info: Seq<NodeInfo>, n: Node, total_mem: usize, free_mem: usize) -> Seq<NodeInfo> {
    ensure_node(info, n).map_values(
        |x: NodeInfo|
            if x.node == n {
                NodeInfo { node: n, total_mem, free_mem, dirty: false }
            } else {
                x
            },
    )
}

/// Position of node `n` among the entries `es`.
fn find_entry(es: &Vec<(Node, usize)>, n: Node) -> (r: Option<usize>)
    ensures
        match r {
            Some(j) => entry_pos(es@, n, j as int),
            None => forall|j: int| !entry_pos(es@, n, j),
        },
{
    let mut j: usize = 0;
    while j < es.len()
        invariant
            j <= es@.len(),
            forall|a: int| 0 <= a < j ==> es@[a].0 != n,
        decreases es@.len() - j,
    {
        if es[j].0 == n {
            return Some(j);
        }
        j = j + 1;
    }
    None
}

/// The entries `es` without the one of node `n`.
pub open spec fn strip(es: Seq<(Node, usize)>, n: Node) -> Seq<(Node, usize)> {
    if exists|j: int| entry_pos(es, n, j) {
        es.remove(choose|j: int| entry_pos(es, n, j))
    } else {
        es
    }
}

/// The cache index without node `n`; a function left without entries goes.
pub open spec fn drop_node(c: CacheView, n: Node) -> CacheView
    decreases c.len(),
{
    if c.len() == 0 {
        c
    } else {
        let es = strip(c[0].1, n);
        let rest = drop_node(c.drop_first(), n);
        if es.len() == 0 {
            rest
        } else {
            seq![(c[0].0, es)] + rest
        }
    }
}

/// The registry without node `n`.
pub open spec fn unregister(info: Seq<NodeInfo>, n: Node) -> Seq<NodeInfo> {
    if registered(info, n) {
        info.remove(choose|k: int| 0 <= k < info.len() && info[k].node == n)
    } else {
        info
    }
}

/// The idle pool without node `n`.
pub open spec fn drop_idle<S>(idle: IdleView<S>, n: Node) -> IdleView<S> {
    if exists|ii: int| idle_pos(idle, n, ii) {
        idle.remove(choose|ii: int| idle_pos(idle, n, ii))
    } else {
        idle
    }
}

/// Every worker of the idle pool, node by node.
pub open spec fn all_workers<S>(idle: IdleView<S>) -> Seq<Worker<S>> {
    idle.map_values(|e: (Node, Seq<Worker<S>>)| e.1).flatten()
}

/// Placement of one invocation of function `f`: `info`, `c` and `iv` are the
/// registry, the cache index and the idle pool before, `info2`, `c2` and
/// `iv2` after, and `r` the worker picked.
///
/// First choice is a worker of the first clean node with a warm VM of `f`,
/// whose count drops by one (that node's idle list may be empty: then none is
/// picked). Without such a node, the first node with an idle worker gives one
/// and turns dirty. With no idle worker at all, nothing changes.
pub open spec fn placed<S>(
    info: Seq<NodeInfo>,
    c: CacheView,
    iv: IdleView<S>,
    info2: Seq<NodeInfo>,
    c2: CacheView,
    iv2: IdleView<S>,
    f: Seq<char>,
    r: Option<Worker<S>>,
) -> bool {
    &&& forall|ci: int, i: int| #[trigger] cached_pick(info, c, f, ci, i) ==> {
        let n = c[ci].1[i].0;
        &&& c2 == consume(c, ci, i)
        &&& info2 == info
        &&& forall|ii: int| #[trigger] idle_pos(iv, n, ii) ==> r == Some(iv[ii].1[0]) && iv2 == pop_at(iv, ii)
        &&& (forall|ii: int| !idle_pos(iv, n, ii)) ==> r.is_none() && iv2 == iv
    }
    &&& (forall|ci: int, i: int| !cached_pick(info, c, f, ci, i)) ==> {
        &&& c2 == c
        &&& iv.len() > 0 ==> r == Some(iv[0].1[0]) && iv2 == pop_at(iv, 0) && info2 == mark_dirty(info, iv[0].0)
        &&& iv.len() == 0 ==> r.is_none() && iv2 == iv && info2 == info
    }
}

/// The registry after `n` is ensured.
pub open spec fn ensure_node(info: Seq<NodeInfo>, n: Node) -> Seq<NodeInfo> {
    if registered(info, n) {
        info
    } else {
        info.push(NodeInfo::fresh(n))
    }
}

pub proof fn lemma_registered_push(info: Seq<NodeInfo>, x: NodeInfo, n: Node)
    requires
        registered(info, n),
    ensures
        registered(info.push(x), n),
{
    let k = choose|k: int| 0 <= k < info.len() && info[k].node == n;
    assert(info.push(x)[k] == info[k]);
}

/// Growing the registry keeps the cache index and the idle pool well formed.
pub proof fn lemma_wf_registry_grows<S>(
    info: Seq<NodeInfo>,
    info2: Seq<NodeInfo>,
    c: CacheView,
    idle: IdleView<S>,
)
    requires
        cache_wf(info, c),
        idle_wf(info, idle),
        forall|n: Node| registered(info, n) ==> registered(info2, n),
    ensures
        cache_wf(info2, c),
        idle_wf(info2, idle),
{
    assert forall|i: int| 0 <= i < c.len() implies #[trigger] entries_wf(info2, c[i].1) by {
        let es = c[i].1;
        assert(entries_wf(info, es));
        assert forall|j: int| 0 <= j < es.len() implies es[j].1 > 0 && registered(
            info2,
            es[j].0,
        ) by {
            assert(registered(info, es[j].0));
        }
        assert(es.len() > 0);
        assert(forall|a: int, b: int| 0 <= a < b < es.len() ==> es[a].0 != es[b].0);
    }
    assert forall|i: int| 0 <= i < idle.len() implies idle[i].1.len() > 0 && registered(
        info2,
        idle[i].0,
    ) by {
        assert(registered(info, idle[i].0));
    }
    assert(forall|a: int, b: int| 0 <= a < b < idle.len() ==> idle[a].0 != idle[b].0);
    assert(forall|i: int|
        0 <= i < idle.len() ==> idle[i].1.len() > 0 && registered(info2, idle[i].0));
    assert(idle_wf(info2, idle));
}

/// How many idle workers node `n` has.
pub open spec fn idle_count<S>(iv: IdleView<S>, n: Node) -> nat {
    if exists|ii: int| idle_pos(iv, n, ii) {
        iv[choose|ii: int| idle_pos(iv, n, ii)].1.len()
    } else {
        0
    }
}

/// Each node's count of warm VMs of any one function is at most its number
/// of idle workers.
pub open spec fn cached_within_idle<S>(c: CacheView, iv: IdleView<S>) -> bool {
    forall|ci: int, j: int|
        0 <= ci < c.len() && 0 <= j < c[ci].1.len() ==> (#[trigger] c[ci].1[j]).1 <= idle_count(iv, c[ci].1[j].0)
}

/// A worker that turns idle never lowers a node's idle count, so it keeps
/// every cached count within the idle workers.
pub proof fn lemma_add_worker_keeps_cached_within_idle<S>(
    info: Seq<NodeInfo>,
    c: CacheView,
    iv: IdleView<S>,
    n: Node,
    w: Worker<S>,
)
    requires
        idle_wf(info, iv),
        cached_within_idle(c, iv),
    ensures
        cached_within_idle(c, add_worker(iv, n, w)),
{
    let iv2 = add_worker(iv, n, w);
    assert forall|m: Node| idle_count(iv, m) <= #[trigger] idle_count(iv2, m) by {
        if exists|ii: int| idle_pos(iv, m, ii) {
            let ii = choose|ii: int| idle_pos(iv, m, ii);
            if exists|k: int| idle_pos(iv, n, k) {
                let k = choose|k: int| idle_pos(iv, n, k);
                assert(idle_pos(iv2, m, ii));
                let jj = choose|jj: int| idle_pos(iv2, m, jj);
                assert(jj == ii);
            } else {
                assert(idle_pos(iv2, m, ii));
                let jj = choose|jj: int| idle_pos(iv2, m, jj);
                if jj != ii {
                    assert(jj == iv.len());
                }
                assert(jj == ii);
            }
        }
    }
}

/// `e` is an entry of some function's list in the cache index `c`.
pub open spec fn entry_in(c: CacheView, e: (Node, usize)) -> bool {
    exists|ci: int, j: int| 0 <= ci < c.len() && 0 <= j < c[ci].1.len() && c[ci].1[j] == e
}

proof fn lemma_drop_node_entries(info: Seq<NodeInfo>, c: CacheView, n: Node, e: (Node, usize))
    requires
        forall|ci: int| 0 <= ci < c.len() ==> #[trigger] entries_wf(info, c[ci].1),
        entry_in(drop_node(c, n), e),
    ensures
        entry_in(c, e),
        e.0 != n,
    decreases c.len(),
{
    let d = drop_node(c, n);
    let (ci, j) = choose|ci: int, j: int| 0 <= ci < d.len() && 0 <= j < d[ci].1.len() && d[ci].1[j] == e;
    let es = c[0].1;
    let head = strip(es, n);
    let rest = drop_node(c.drop_first(), n);
    assert(entries_wf(info, es));
    let in_head = head.len() > 0 && ci == 0;
    if in_head {
        assert(d[0].1 == head);
        let j0 = if exists|b: int| entry_pos(es, n, b) {
            let b = choose|b: int| entry_pos(es, n, b);
            if j < b {
                j
            } else {
                j + 1
            }
        } else {
            j
        };
        assert(es[j0] == e);
        assert(c[0].1[j0] == e);
        if exists|b: int| entry_pos(es, n, b) {
            let b = choose|b: int| entry_pos(es, n, b);
            assert(j0 != b);
            assert(es[b].0 == n);
            if j0 < b {
                assert(es[j0].0 != es[b].0);
            } else {
                assert(es[b].0 != es[j0].0);
            }
        } else {
            assert(!entry_pos(es, n, j0));
        }
    } else {
        let ci2 = if head.len() > 0 {
            ci - 1
        } else {
            ci
        };
        assert(rest[ci2].1[j] == e);
        assert forall|k: int| 0 <= k < c.drop_first().len() implies #[trigger] entries_wf(
            info,
            c.drop_first()[k].1,
        ) by {
            assert(c.drop_first()[k] == c[k + 1]);
        }
        lemma_drop_node_entries(info, c.drop_first(), n, e);
        let (a, b) = choose|a: int, b: int|
            0 <= a < c.drop_first().len() && 0 <= b < c.drop_first()[a].1.len() && c.drop_first()[a].1[b] == e;
        assert(c[a + 1].1[b] == e);
    }
}

/// Dropping a node keeps every cached count within the idle workers of its
/// node.
pub proof fn lemma_drop_keeps_cached_within_idle<S>(
    info: Seq<NodeInfo>,
    c: CacheView,
    iv: IdleView<S>,
    n: Node,
)
    requires
        cache_wf(info, c),
        idle_wf(info, iv),
        cached_within_idle(c, iv),
    ensures
        cached_within_idle(drop_node(c, n), drop_idle(iv, n)),
{
    let d = drop_node(c, n);
    let iv2 = drop_idle(iv, n);
    assert forall|ci: int, j: int| 0 <= ci < d.len() && 0 <= j < d[ci].1.len() implies (#[trigger] d[ci].1[j]).1
        <= idle_count(iv2, d[ci].1[j].0) by {
        let e = d[ci].1[j];
        lemma_drop_node_entries(info, c, n, e);
        let (a, b) = choose|a: int, b: int| 0 <= a < c.len() && 0 <= b < c[a].1.len() && c[a].1[b] == e;
        assert(c[a].1[b].1 <= idle_count(iv, c[a].1[b].0));
        let m = e.0;
        if exists|ii: int| idle_pos(iv, m, ii) {
            let ii = choose|ii: int| idle_pos(iv, m, ii);
            let jj = if exists|k: int| idle_pos(iv, n, k) {
                let k = choose|k: int| idle_pos(iv, n, k);
                assert(ii != k);
                if ii < k {
                    ii
                } else {
                    ii - 1
                }
            } else {
                ii
            };
            assert(idle_pos(iv2, m, jj));
            let jj2 = choose|x: int| idle_pos(iv2, m, x);
            assert(jj2 == jj);
        }
    }
}

/// Global resource manager.
pub struct ResourceManager<S, R> {
    pub info: Vec<NodeInfo>,
    /// Locations of cached VMs for each function, in insertion order.
    pub cached: Vec<(String, Vec<(Node, usize)>)>,
    /// Idle workers of each node; a node without one has no entry.
    pub idle: Vec<(Node, Vec<Worker<S>>)>,
    /// Reply channels of admitted invocations, by task id.
    pub wait_list: Vec<(u128, R)>,
}

impl<S, R> ResourceManager<S, R> {
    pub open spec fn wf(&self) -> bool {
        &&& info_wf(self.info@)
        &&& cache_wf(self.info@, cache_view(self.cached@))
        &&& idle_wf(self.info@, idle_view(self.idle@))
    }

    pub fn new() -> (r: Self)
        ensures
            r.wf(),
            r.info@.len() == 0,
            r.cached@.len() == 0,
            r.idle@.len() == 0,
            r.wait_list@.len() == 0,
    {
        ResourceManager { info: Vec::new(), cached: Vec::new(), idle: Vec::new(), wait_list: Vec::new() }
    }

    /// Position of `node` in the registry.
    fn find_info(&self, node: &Node) -> (r: Option<usize>)
        requires
            info_wf(self.info@),
        ensures
            match r {
                Some(k) => k < self.info@.len() && self.info@[k as int].node == *node,
                None => !registered(self.info@, *node),
            },
    {
        let mut k: usize = 0;
        while k < self.info.len()
            invariant
                k <= self.info@.len(),
                forall|j: int| 0 <= j < k ==> self.info@[j].node != *node,
            decreases self.info@.len() - k,
        {
            if self.info[k].node == *node {
                return Some(k);
            }
            k = k + 1;
        }
        None
    }

    /// Position of `node` in the idle pool.
    fn find_idle_node(&self, node: &Node) -> (r: Option<usize>)
        ensures
            match r {
                Some(ii) => idle_pos(idle_view(self.idle@), *node, ii as int),
                None => forall|ii: int| !idle_pos(idle_view(self.idle@), *node, ii),
            },
    {
        let mut k: usize = 0;
        while k < self.idle.len()
            invariant
                k <= self.idle@.len(),
                forall|j: int| 0 <= j < k ==> self.idle@[j].0 != *node,
            decreases self.idle@.len() - k,
        {
            if self.idle[k].0 == *node {
                return Some(k);
            }
            k = k + 1;
        }
        None
    }

    /// Position of function `f` in the cache index.
    fn find_function(&self, f: &String) -> (r: Option<usize>)
        ensures
            match r {
                Some(ci) => cache_pos(cache_view(self.cached@), f@, ci as int),
                None => forall|ci: int| !cache_pos(cache_view(self.cached@), f@, ci),
            },
    {
        let mut k: usize = 0;
        while k < self.cached.len()
            invariant
                k <= self.cached@.len(),
                forall|j: int| 0 <= j < k ==> self.cached@[j].0@ != f@,
            decreases self.cached@.len() - k,
        {
            if self.cached[k].0 == *f {
                return Some(k);
            }
            k = k + 1;
        }
        None
    }

    /// Position of the first entry of `es` on a clean node.
    fn first_clean(&self, es: &Vec<(Node, usize)>) -> (r: Option<usize>)
        requires
            info_wf(self.info@),
        ensures
            match r {
                Some(i) => is_first_clean(self.info@, es@, i as int),
                None => forall|j: int| 0 <= j < es@.len() ==> !node_clean(self.info@, es@[j].0),
            },
    {
        let mut i: usize = 0;
        while i < es.len()
            invariant
                info_wf(self.info@),
                i <= es@.len(),
                forall|j: int| 0 <= j < i ==> !node_clean(self.info@, es@[j].0),
            decreases es@.len() - i,
        {
            let n = es[i].0;
            match self.find_info(&n) {
                Some(k) => {
                    if !self.info[k].dirty {
                        assert(node_clean(self.info@, n));
                        return Some(i);
                    }
                    assert(!node_clean(self.info@, n));
                },
                None => {},
            }
            i = i + 1;
        }
        None
    }

    /// Uses one warm VM of entry `i` of the function at `ci`.
    fn consume_at(&mut self, ci: usize, i: usize)
        requires
            old(self).wf(),
            ci < old(self).cached@.len(),
            i < old(self).cached@[ci as int].1@.len(),
        ensures
            final(self).wf(),
            cache_view(final(self).cached@) == consume(cache_view(old(self).cached@), ci as int, i as int),
            final(self).info == old(self).info,
            final(self).idle == old(self).idle,
            final(self).wait_list == old(self).wait_list,
    {
        let ghost c = cache_view(self.cached@);
        let ghost info = self.info@;
        assert(entries_wf(info, c[ci as int].1));
        let (name, mut es) = self.cached.remove(ci);
        let ghost es0 = es@;
        let (n, k) = es[i];
        if k <= 1 {
            es.remove(i);
        } else {
            es.set(i, (n, k - 1));
        }
        let ghost es2 = es@;
        assert(forall|a: int| 0 <= a < es2.len() ==> es2[a].1 > 0 && registered(info, es2[a].0));
        assert(forall|a: int, b: int| 0 <= a < b < es2.len() ==> es2[a].0 != es2[b].0);
        if es.len() > 0 {
            self.cached.insert(ci, (name, es));
            assert(cache_view(self.cached@) =~= c.update(ci as int, (c[ci as int].0, es2)));
            assert(entries_wf(info, es2));
        } else {
            assert(cache_view(self.cached@) =~= c.remove(ci as int));
        }
    }

    /// Takes the worker idle longest from the list at `ii`.
    fn pop_idle(&mut self, ii: usize) -> (r: Worker<S>)
        requires
            old(self).wf(),
            ii < old(self).idle@.len(),
        ensures
            final(self).wf(),
            r == idle_view(old(self).idle@)[ii as int].1[0],
            idle_view(final(self).idle@) == pop_at(idle_view(old(self).idle@), ii as int),
            final(self).info == old(self).info,
            final(self).cached == old(self).cached,
            final(self).wait_list == old(self).wait_list,
    {
        let ghost iv = idle_view(self.idle@);
        let (n, mut ws) = self.idle.remove(ii);
        let w = ws.remove(0);
        if ws.len() > 0 {
            self.idle.insert(ii, (n, ws));
            assert(idle_view(self.idle@) =~= iv.update(ii as int, (n, iv[ii as int].1.drop_first())));
        } else {
            assert(idle_view(self.idle@) =~= iv.remove(ii as int));
        }
        w
    }

    /// Marks node `n` dirty.
    fn mark_node_dirty(&mut self, n: Node)
        requires
            old(self).wf(),
        ensures
            final(self).wf(),
            final(self).info@ == mark_dirty(old(self).info@, n),
            final(self).cached == old(self).cached,
            final(self).idle == old(self).idle,
            final(self).wait_list == old(self).wait_list,
    {
        let ghost info = self.info@;
        match self.find_info(&n) {
            Some(k) => {
                let mut ni = self.info[k];
                ni.set_dirty(true);
                self.info.set(k, ni);
                assert(self.info@ =~= mark_dirty(info, n));
            },
            None => {
                assert(self.info@ =~= mark_dirty(info, n));
            },
        }
        let ghost info2 = self.info@;
        assert forall|m: Node| registered(info, m) implies registered(info2, m) by {
            let j = choose|j: int| 0 <= j < info.len() && info[j].node == m;
            assert(info2[j].node == m);
        }
        proof {
            lemma_wf_registry_grows(info, info2, cache_view(self.cached@), idle_view(self.idle@));
        }
    }

    /// Picks an idle worker for `function`: first a worker of the first clean
    /// node with a warm VM of it, else any idle worker, whose node then turns
    /// dirty, else none.
    pub fn find_idle(&mut self, function: &String) -> (r: Option<Worker<S>>)
        requires
            old(self).wf(),
        ensures
            final(self).wf(),
            final(self).wait_list == old(self).wait_list,
            placed(
                old(self).info@,
                cache_view(old(self).cached@),
                idle_view(old(self).idle@),
                final(self).info@,
                cache_view(final(self).cached@),
                idle_view(final(self).idle@),
                function@,
                r,
            ),
    {
        let ghost info0 = self.info@;
        let ghost c0 = cache_view(self.cached@);
        let ghost iv0 = idle_view(self.idle@);
        let mut hit: Option<(usize, usize)> = None;
        match self.find_function(function) {
            Some(ci) => {
                match self.first_clean(&self.cached[ci].1) {
                    Some(i) => {
                        hit = Some((ci, i));
                    },
                    None => {
                        assert forall|a: int, i: int| !cached_pick(info0, c0, function@, a, i) by {
                            if cache_pos(c0, function@, a) {
                                assert(a == ci as int);
                            }
                        }
                    },
                }
            },
            None => {},
        }
        match hit {
            Some((ci, i)) => {
                assert(cached_pick(info0, c0, function@, ci as int, i as int));
                assert forall|a: int, b: int| cached_pick(info0, c0, function@, a, b) implies a == ci
                    && b == i by {
                    assert(a == ci as int);
                    if b < i {
                        assert(!node_clean(info0, c0[a].1[b].0));
                    } else if b > i {
                        assert(!node_clean(info0, c0[a].1[i as int].0));
                    }
                }
                assert(entries_wf(info0, c0[ci as int].1));
                let node = self.cached[ci].1[i].0;
                self.consume_at(ci, i);
                match self.find_idle_node(&node) {
                    Some(ii) => {
                        assert forall|b: int| idle_pos(iv0, node, b) implies b == ii by {}
                        let w = self.pop_idle(ii);
                        Some(w)
                    },
                    None => None,
                }
            },
            None => {
                if self.idle.len() > 0 {
                    let n = self.idle[0].0;
                    let w = self.pop_idle(0);
                    self.mark_node_dirty(n);
                    Some(w)
                } else {
                    None
                }
            },
        }
    }

    /// Records that node `n` holds `k` warm VMs of function `f`.
    fn set_cached_count(&mut self, n: Node, f: &String, k: usize)
        requires
            old(self).wf(),
            registered(old(self).info@, n),
        ensures
            final(self).wf(),
            cache_view(final(self).cached@) == apply_stat(cache_view(old(self).cached@), n, f@, k),
            final(self).info == old(self).info,
            final(self).idle == old(self).idle,
            final(self).wait_list == old(self).wait_list,
    {
        let ghost c = cache_view(self.cached@);
        let ghost info = self.info@;
        match self.find_function(f) {
            Some(ci) => {
                assert(entries_wf(info, c[ci as int].1));
                assert forall|b: int| cache_pos(c, f@, b) implies b == ci by {}
                let (name, mut es) = self.cached.remove(ci);
                let ghost es0 = es@;
                match find_entry(&es, n) {
                    Some(j) => {
                        assert forall|b: int| entry_pos(es0, n, b) implies b == j by {}
                        if k == 0 {
                            es.remove(j);
                        } else {
                            es.set(j, (n, k));
                        }
                    },
                    None => {
                        if k > 0 {
                            es.push((n, k));
                            assert(es@[es0.len() as int].0 == n);
                            assert forall|a: int| 0 <= a < es0.len() implies es@[a].0 != n by {
                                assert(!entry_pos(es0, n, a));
                            }
                        }
                    },
                }
                let ghost es2 = es@;
                assert(forall|a: int| 0 <= a < es2.len() ==> es2[a].1 > 0 && registered(info, es2[a].0));
                assert(forall|a: int, b: int| 0 <= a < b < es2.len() ==> es2[a].0 != es2[b].0);
                if es.len() > 0 {
                    self.cached.insert(ci, (name, es));
                    assert(cache_view(self.cached@) =~= c.update(ci as int, (f@, es2)));
                    assert(entries_wf(info, es2));
                } else {
                    assert(cache_view(self.cached@) =~= c.remove(ci as int));
                }
            },
            None => {
                if k > 0 {
                    let es = vec![(n, k)];
                    assert(es@ =~= seq![(n, k)]);
                    assert(entries_wf(info, es@));
                    self.cached.push((f.clone(), es));
                    assert(cache_view(self.cached@) =~= c.push((f@, seq![(n, k)])));
                    assert forall|a: int| 0 <= a < c.len() implies c[a].0 != f@ by {
                        assert(!cache_pos(c, f@, a));
                    }
                }
            },
        }
    }

    /// Takes in a snapshot from the node at `addr`: the node is registered and
    /// clean, its memory is overwritten, and the cache index is reconciled
    /// with the reported counts.
    pub fn update(&mut self, addr: u128, info: ResourceInfo)
        requires
            old(self).wf(),
            info.free_mem <= info.total_mem,
        ensures
            final(self).wf(),
            final(self).info@ == refresh(old(self).info@, Node(addr), info.total_mem, info.free_mem),
            cache_view(final(self).cached@) == reconcile(
                cache_view(old(self).cached@),
                Node(addr),
                info.stats_view(),
            ),
            final(self).idle == old(self).idle,
            final(self).wait_list == old(self).wait_list,
    {
        let node = Node(addr);
        let ghost c0 = cache_view(self.cached@);
        self.try_add_node(&node);
        let ghost info1 = self.info@;
        match self.find_info(&node) {
            Some(k) => {
                self.info.set(
                    k,
                    NodeInfo { node, total_mem: info.total_mem, free_mem: info.free_mem, dirty: false },
                );
                assert(self.info@ =~= info1.map_values(
                    |x: NodeInfo|
                        if x.node == node {
                            NodeInfo { node, total_mem: info.total_mem, free_mem: info.free_mem, dirty: false }
                        } else {
                            x
                        },
                ));
                let ghost info2 = self.info@;
                assert forall|m: Node| registered(info1, m) implies registered(info2, m) by {
                    let j = choose|j: int| 0 <= j < info1.len() && info1[j].node == m;
                    assert(info2[j].node == m);
                }
                proof {
                    lemma_wf_registry_grows(info1, info2, cache_view(self.cached@), idle_view(self.idle@));
                }
                assert(registered(info2, node)) by {
                    assert(info2[k as int].node == node);
                }
            },
            None => {},
        }
        let ghost sv = info.stats_view();
        assert(sv.skip(0) =~= sv);
        let mut i: usize = 0;
        while i < info.stats.len()
            invariant
                self.wf(),
                registered(self.info@, node),
                self.info@ == refresh(old(self).info@, node, info.total_mem, info.free_mem),
                self.idle == old(self).idle,
                self.wait_list == old(self).wait_list,
                sv == info.stats_view(),
                i <= sv.len(),
                reconcile(cache_view(self.cached@), node, sv.skip(i as int)) == reconcile(c0, node, sv),
            decreases sv.len() - i,
        {
            let ghost before = cache_view(self.cached@);
            assert(sv.skip(i as int).drop_first() =~= sv.skip(i as int + 1));
            assert(sv.skip(i as int)[0] == (info.stats@[i as int].0@, info.stats@[i as int].1));
            self.set_cached_count(node, &info.stats[i].0, info.stats[i].1);
            i = i + 1;
        }
        assert(sv.skip(i as int) =~= Seq::<(Seq<char>, usize)>::empty());
    }

    /// Forgets the node at `addr`: its record, its idle workers, and its
    /// entries in the cache index.
    pub fn remove(&mut self, addr: u128)
        requires
            old(self).wf(),
        ensures
            final(self).wf(),
            final(self).info@ == unregister(old(self).info@, Node(addr)),
            idle_view(final(self).idle@) == drop_idle(idle_view(old(self).idle@), Node(addr)),
            cache_view(final(self).cached@) == drop_node(cache_view(old(self).cached@), Node(addr)),
            !registered(final(self).info@, Node(addr)),
            final(self).wait_list == old(self).wait_list,
    {
        let node = Node(addr);
        let ghost info0 = self.info@;
        let ghost iv0 = idle_view(self.idle@);
        let ghost c0 = cache_view(self.cached@);
        match self.find_info(&node) {
            Some(k) => {
                assert forall|b: int| 0 <= b < info0.len() && info0[b].node == node implies b == k by {}
                self.info.remove(k);
            },
            None => {},
        }
        let ghost info1 = self.info@;
        assert(info1 == unregister(info0, node));
        assert forall|m: Node| m != node && registered(info0, m) implies registered(info1, m) by {
            let j = choose|j: int| 0 <= j < info0.len() && info0[j].node == m;
            if info1.len() < info0.len() {
                let k = choose|k: int| 0 <= k < info0.len() && info0[k].node == node;
                if j < k {
                    assert(info1[j].node == m);
                } else {
                    assert(info1[j - 1].node == m);
                }
            } else {
                assert(info1[j].node == m);
            }
        }
        assert(!registered(info1, node)) by {
            if registered(info1, node) {
                let j = choose|j: int| 0 <= j < info1.len() && info1[j].node == node;
                if info1.len() < info0.len() {
                    let k = choose|k: int| 0 <= k < info0.len() && info0[k].node == node;
                    if j < k {
                        assert(info0[j].node == node);
                    } else {
                        assert(info0[j + 1].node == node);
                    }
                } else {
                    assert(info0[j].node == node);
                }
            }
        }
        match self.find_idle_node(&node) {
            Some(ii) => {
                assert forall|b: int| idle_pos(iv0, node, b) implies b == ii by {}
                assert(idle_pos(iv0, node, ii as int));
                self.idle.remove(ii);
                assert(idle_view(self.idle@) =~= iv0.remove(ii as int));
            },
            None => {},
        }
        let ghost iv1 = idle_view(self.idle@);
        assert(iv1 == drop_idle(iv0, node));
        assert forall|i: int| 0 <= i < iv1.len() implies iv1[i].0 != node by {
            if exists|b: int| idle_pos(iv0, node, b) {
                let b = choose|b: int| idle_pos(iv0, node, b);
                if i < b {
                    assert(iv1[i] == iv0[i]);
                } else {
                    assert(iv1[i] == iv0[i + 1]);
                }
            } else {
                assert(!idle_pos(iv0, node, i));
            }
        }
        assert forall|i: int| 0 <= i < iv1.len() implies iv1[i].1.len() > 0 && registered(info1, iv1[i].0) by {
            assert(iv1[i] == iv0[i] || iv1[i] == iv0[i + 1]);
            assert(registered(info0, iv1[i].0));
        }
        assert forall|i: int, j: int| 0 <= i < j < iv1.len() implies iv1[i].0 != iv1[j].0 by {
            assert(iv1[i] == iv0[i] || iv1[i] == iv0[i + 1]);
            assert(iv1[j] == iv0[j] || iv1[j] == iv0[j + 1]);
        }
        let mut rest: Vec<(String, Vec<(Node, usize)>)> = Vec::new();
        std::mem::swap(&mut rest, &mut self.cached);
        while rest.len() > 0
            invariant
                self.info@ == info1,
                idle_view(self.idle@) == iv1,
                self.wait_list == old(self).wait_list,
                info_wf(info1),
                idle_wf(info1, idle_view(self.idle@)),
                forall|m: Node| m != node && registered(info0, m) ==> registered(info1, m),
                cache_wf(info0, cache_view(rest@)),
                cache_wf(info1, cache_view(self.cached@)),
                forall|a: int, b: int|
                    0 <= a < self.cached@.len() && 0 <= b < rest@.len() ==> self.cached@[a].0@ != rest@[b].0@,
                cache_view(self.cached@) + drop_node(cache_view(rest@), node) == drop_node(c0, node),
            decreases rest@.len(),
        {
            let ghost r0 = cache_view(rest@);
            let ghost done0 = cache_view(self.cached@);
            let (f, mut es) = rest.remove(0);
            assert(cache_view(rest@) =~= r0.drop_first());
            assert(entries_wf(info0, es@));
            assert forall|a: int, b: int|
                0 <= a < done0.len() && 0 <= b < rest@.len() implies done0[a].0 != r0[0].0 && r0[0].0
                != rest@[b].0@ by {
                assert(rest@[b].0@ == r0[b + 1].0);
            }
            let ghost es0 = es@;
            match find_entry(&es, node) {
                Some(j) => {
                    assert forall|b: int| entry_pos(es0, node, b) implies b == j by {}
                    es.remove(j);
                    assert forall|a: int| 0 <= a < es@.len() implies es@[a].0 != node by {
                        if a < j {
                            assert(es@[a] == es0[a]);
                        } else {
                            assert(es@[a] == es0[a + 1]);
                        }
                    }
                },
                None => {
                    assert forall|a: int| 0 <= a < es@.len() implies es@[a].0 != node by {
                        assert(!entry_pos(es0, node, a));
                    }
                },
            }
            assert(es@ == strip(es0, node));
            if es.len() > 0 {
                let ghost es1 = es@;
                assert forall|a: int| 0 <= a < es1.len() implies es1[a].1 > 0 && registered(info1, es1[a].0) by {
                    assert(es1[a] == es0[a] || es1[a] == es0[a + 1]);
                    assert(registered(info0, es1[a].0));
                }
                assert forall|a: int, b: int| 0 <= a < b < es1.len() implies es1[a].0 != es1[b].0 by {
                    assert(es1[a] == es0[a] || es1[a] == es0[a + 1]);
                    assert(es1[b] == es0[b] || es1[b] == es0[b + 1]);
                }
                assert(entries_wf(info1, es1));
                self.cached.push((f, es));
                assert(cache_view(self.cached@) =~= done0.push((r0[0].0, es1)));
                assert forall|a: int, b: int|
                    0 <= a < self.cached@.len() && 0 <= b < rest@.len() implies self.cached@[a].0@
                    != rest@[b].0@ by {
                    assert(rest@[b].0@ == r0[b + 1].0);
                    if a < done0.len() {
                        assert(self.cached@[a].0@ == done0[a].0);
                    }
                }
                assert(cache_view(self.cached@) + drop_node(cache_view(rest@), node) =~= done0 + drop_node(r0, node));
            } else {
                assert(cache_view(self.cached@) + drop_node(cache_view(rest@), node) =~= done0 + drop_node(r0, node));
                assert forall|a: int, b: int|
                    0 <= a < self.cached@.len() && 0 <= b < rest@.len() implies self.cached@[a].0@
                    != rest@[b].0@ by {
                    assert(rest@[b].0@ == r0[b + 1].0);
                    assert(self.cached@[a].0@ == done0[a].0);
                }
            }
        }
        assert(cache_view(rest@) =~= Seq::<(Seq<char>, Seq<(Node, usize)>)>::empty());
        assert(cache_view(self.cached@) =~= drop_node(c0, node));
    }

    /// Takes every idle worker out of the pool, so that each can be told to
    /// terminate; the cache index and the registry stay as they are.
    pub fn reset(&mut self) -> (r: Vec<Worker<S>>)
        requires
            old(self).wf(),
        ensures
            final(self).wf(),
            r@ == all_workers(idle_view(old(self).idle@)),
            final(self).idle@.len() == 0,
            final(self).info == old(self).info,
            final(self).cached == old(self).cached,
            final(self).wait_list == old(self).wait_list,
    {
        let ghost iv0 = idle_view(self.idle@);
        let mut rest: Vec<(Node, Vec<Worker<S>>)> = Vec::new();
        std::mem::swap(&mut rest, &mut self.idle);
        let mut out: Vec<Worker<S>> = Vec::new();
        while rest.len() > 0
            invariant
                self.idle@.len() == 0,
                out@ + all_workers(idle_view(rest@)) == all_workers(iv0),
            decreases rest@.len(),
        {
            let ghost r0 = idle_view(rest@);
            let ghost o0 = out@;
            let (_n, mut ws) = rest.remove(0);
            assert(idle_view(rest@) =~= r0.drop_first());
            assert(r0.map_values(|e: (Node, Seq<Worker<S>>)| e.1).drop_first() =~= idle_view(rest@).map_values(
                |e: (Node, Seq<Worker<S>>)| e.1,
            ));
            assert(all_workers(r0) == r0[0].1 + all_workers(idle_view(rest@)));
            out.append(&mut ws);
            assert(out@ + all_workers(idle_view(rest@)) =~= o0 + all_workers(r0));
        }
        assert(all_workers(idle_view(rest@)) =~= Seq::<Worker<S>>::empty());
        assert(idle_view(self.idle@) =~= Seq::<(Node, Seq<Worker<S>>)>::empty());
        out
    }

    /// Registers `node` if it is unknown; true iff it was.
    fn try_add_node(&mut self, node: &Node) -> (r: bool)
        requires
            old(self).wf(),
        ensures
            final(self).wf(),
            r == !registered(old(self).info@, *node),
            final(self).info@ == ensure_node(old(self).info@, *node),
            registered(final(self).info@, *node),
            final(self).cached == old(self).cached,
            final(self).idle == old(self).idle,
            final(self).wait_list == old(self).wait_list,
    {
        let has_node = self.find_info(node).is_some();
        if !has_node {
            let ghost old_info = self.info@;
            self.info.push(NodeInfo::new(*node));
            assert(self.info@[old_info.len() as int].node == *node);
            let ghost info = self.info@;
            assert forall|n: Node| registered(old_info, n) implies registered(info, n) by {
                lemma_registered_push(old_info, NodeInfo::fresh(*node), n);
            }
            proof {
                lemma_wf_registry_grows(old_info, info, cache_view(self.cached@), idle_view(self.idle@));
            }
        }
        !has_node
    }

    /// Registers a worker as idle on the node of its address.
    pub fn add_idle(&mut self, addr: Endpoint, sender: S)
        requires
            old(self).wf(),
        ensures
            final(self).wf(),
            final(self).info@ == ensure_node(old(self).info@, Node(addr.ip)),
            idle_view(final(self).idle@) == add_worker(
                idle_view(old(self).idle@),
                Node(addr.ip),
                Worker { addr, sender },
            ),
            final(self).cached == old(self).cached,
            final(self).wait_list == old(self).wait_list,
    {
        let node = addr.node();
        self.try_add_node(&node);
        let worker = Worker { addr, sender };
        let ghost w = worker;
        let ghost iv = idle_view(self.idle@);
        match self.find_idle_node(&node) {
            Some(ii) => {
                let (n, mut ws) = self.idle.remove(ii);
                ws.push(worker);
                self.idle.insert(ii, (n, ws));
                assert(idle_view(self.idle@) =~= iv.update(ii as int, (node, iv[ii as int].1.push(w))));
                assert(idle_pos(iv, node, ii as int));
                assert(registered(self.info@, node));
                assert(idle_wf(self.info@, idle_view(self.idle@)));
            },
            None => {
                let ws = vec![worker];
                assert(ws@ =~= seq![w]);
                self.idle.push((node, ws));
                assert(idle_view(self.idle@) =~= iv.push((node, seq![w])));
                assert forall|i: int| 0 <= i < iv.len() implies iv[i].0 != node by {
                    assert(!idle_pos(iv, node, i));
                }
                assert(registered(self.info@, node));
                assert(idle_wf(self.info@, idle_view(self.idle@)));
            },
        }
    }
}


/// Every cache entry counts at least one warm VM and names a registered
/// node, in every well-formed state; each method keeps the state well formed.
pub proof fn lemma_cache_entries_registered<S, R>(rm: ResourceManager<S, R>)
    requires
        rm.wf(),
    ensures
        forall|ci: int, j: int|
            0 <= ci < rm.cached@.len() && 0 <= j < rm.cached@[ci].1@.len() ==> {
                let (n, k) = #[trigger] rm.cached@[ci].1@[j];
                k > 0 && registered(rm.info@, n)
            },
{
    assert forall|ci: int, j: int| 0 <= ci < rm.cached@.len() && 0 <= j < rm.cached@[ci].1@.len() implies {
        let (n, k) = #[trigger] rm.cached@[ci].1@[j];
        k > 0 && registered(rm.info@, n)
    } by {
        assert(entries_wf(rm.info@, cache_view(rm.cached@)[ci].1));
    }
}

/// Every node of the idle pool has at least one idle worker, in every
/// well-formed state.
pub proof fn lemma_idle_lists_nonempty<S, R>(rm: ResourceManager<S, R>)
    requires
        rm.wf(),
    ensures
        forall|ii: int| 0 <= ii < rm.idle@.len() ==> (#[trigger] rm.idle@[ii]).1@.len() >= 1,
{
    assert forall|ii: int| 0 <= ii < rm.idle@.len() implies (#[trigger] rm.idle@[ii]).1@.len() >= 1 by {
        assert(idle_view(rm.idle@)[ii].1 == rm.idle@[ii].1@);
    }
}

/// After an update from node `n`, `n` is registered and clean.
pub proof fn lemma_update_clears_dirty(info: Seq<NodeInfo>, n: Node, total_mem: usize, free_mem: usize)
    ensures
        node_clean(refresh(info, n, total_mem, free_mem), n),
{
    let info1 = ensure_node(info, n);
    let k = if registered(info, n) {
        choose|k: int| 0 <= k < info.len() && info[k].node == n
    } else {
        info.len() as int
    };
    assert(info1[k].node == n);
    assert(refresh(info, n, total_mem, free_mem)[k].node == n);
}

/// After placement falls back to an idle worker of node `n`, no record of `n`
/// is clean.
pub proof fn lemma_fallback_marks_dirty(info: Seq<NodeInfo>, n: Node)
    ensures
        registered(info, n) ==> registered(mark_dirty(info, n), n),
        !node_clean(mark_dirty(info, n), n),
{
    if registered(info, n) {
        let k = choose|k: int| 0 <= k < info.len() && info[k].node == n;
        assert(mark_dirty(info, n)[k].node == n);
    }
}

/// A node that is dropped and then reports again is registered anew, at the
/// end of the registry, clean and with the reported memory.
pub proof fn lemma_drop_then_update(info: Seq<NodeInfo>, n: Node, total_mem: usize, free_mem: usize)
    requires
        info_wf(info),
    ensures
        !registered(unregister(info, n), n),
        refresh(unregister(info, n), n, total_mem, free_mem) == unregister(info, n).push(
            NodeInfo { node: n, total_mem, free_mem, dirty: false },
        ),
        node_clean(refresh(unregister(info, n), n, total_mem, free_mem), n),
{
    let info1 = unregister(info, n);
    if registered(info, n) {
        let k = choose|k: int| 0 <= k < info.len() && info[k].node == n;
        assert forall|j: int| 0 <= j < info1.len() implies info1[j].node != n by {
            if j < k {
                assert(info1[j] == info[j]);
            } else {
                assert(info1[j] == info[j + 1]);
            }
        }
    }
    assert(!registered(info1, n));
    assert(refresh(info1, n, total_mem, free_mem) =~= info1.push(
        NodeInfo { node: n, total_mem, free_mem, dirty: false },
    ));
    lemma_update_clears_dirty(info1, n, total_mem, free_mem);
}

} // verus!
