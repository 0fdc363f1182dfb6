use vstd::prelude::*;
use vstd::set_lib::lemma_set_difference_len;
use crate::ertrace_location::ErtraceLocation;
use crate::render::{render_trace, rendered_trace};

verus! {

/// One pooled node: the location it records, and the link to the node after
/// it (the next newer event of its chain, or the next free node).
pub struct TraceNode {
    pub location: &'static ErtraceLocation,
    pub next: Option<usize>,
}

/// A reclaiming node pool. Nodes live in one vector and are named by their
/// index; the unused ones form a singly-linked free list. A whole chain goes
/// back onto the free list in one step, by pointing its newest node at the
/// old head of the list.
pub struct TracePool {
    nodes: Vec<TraceNode>,
    free_head: Option<usize>,
    free_len: usize,
    free: Ghost<Seq<usize>>,
    live: Ghost<Set<usize>>,
}

impl TracePool {
    /// The free nodes, in the order in which they will be handed out.
    pub closed spec fn free_list(&self) -> Seq<usize> {
        self.free@
    }

    /// The nodes that chains own.
    pub closed spec fn live(&self) -> Set<usize> {
        self.live@
    }

    /// How many nodes the pool has ever allocated.
    pub closed spec fn allocated(&self) -> nat {
        self.nodes@.len()
    }

    /// The location that node `i` records.
    pub closed spec fn location_at(&self, i: usize) -> &'static ErtraceLocation {
        self.nodes@[i as int].location
    }

    /// The nodes `ids` are distinct and allocated, each links to the one after
    /// it, and the last links to `end`.
    pub closed spec fn linked(&self, ids: Seq<usize>, end: Option<usize>) -> bool {
        &&& ids.no_duplicates()
        &&& forall|k: int| 0 <= k < ids.len() ==> #[trigger] ids[k] < self.nodes@.len()
        &&& forall|k: int|
            0 <= k < ids.len() - 1 ==> self.nodes@[#[trigger] ids[k] as int].next == Some(
                ids[k + 1],
            )
        &&& ids.len() > 0 ==> self.nodes@[ids.last() as int].next == end
    }

    /// Every allocated node is either on the free list or owned by a chain,
    /// never both, so free and live nodes add up to all nodes.
    pub closed spec fn wf(&self) -> bool {
        &&& self.linked(self.free@, None)
        &&& self.free_head == (if self.free@.len() == 0 {
            None
        } else {
            Some(self.free@[0])
        })
        &&& self.free_len == self.free@.len()
        &&& self.live@.finite()
        &&& forall|i: usize| #[trigger] self.live@.contains(i) ==> i < self.nodes@.len()
        &&& forall|i: usize| #[trigger] self.live@.contains(i) ==> !self.free@.contains(i)
        &&& forall|i: usize|
            i < self.nodes@.len() && !#[trigger] self.free@.contains(i) ==> self.live@.contains(i)
        &&& self.free@.len() + self.live@.len() == self.nodes@.len()
    }

    /// An empty pool: nothing allocated, nothing free, nothing owned.
    pub fn new() -> (r: TracePool)
        ensures
            r.wf(),
            r.allocated() == 0,
            r.free_list() == Seq::<usize>::empty(),
            r.live() == Set::<usize>::empty(),
    {
        TracePool {
            nodes: Vec::new(),
            free_head: None,
            free_len: 0,
            free: Ghost(Seq::empty()),
            live: Ghost(Set::empty()),
        }
    }

    /// How many nodes are on the free list.
    pub fn free_count(&self) -> (r: usize)
        requires
            self.wf(),
        ensures
            r == self.free_list().len(),
    {
        self.free_len
    }

    /// How many nodes the pool has ever allocated.
    pub fn node_count(&self) -> (r: usize)
        ensures
            r == self.allocated(),
    {
        self.nodes.len()
    }

    /// The location that node `i` records.
    pub fn location(&self, i: usize) -> (r: &'static ErtraceLocation)
        requires
            i < self.allocated(),
        ensures
            r == self.location_at(i),
    {
        self.nodes[i].location
    }

    /// `post` is this pool after it handed out node `n`: the first free node
    /// where there is one, a newly allocated node otherwise. The node was
    /// owned by no chain before and is owned afterwards.
    pub open spec fn hands_out(&self, post: TracePool, n: usize) -> bool {
        &&& !self.live().contains(n)
        &&& post.live() == self.live().insert(n)
        &&& n < post.allocated()
        &&& if self.free_list().len() > 0 {
            &&& n == self.free_list()[0]
            &&& post.free_list() == self.free_list().drop_first()
            &&& post.allocated() == self.allocated()
        } else {
            &&& n == self.allocated()
            &&& post.free_list() == self.free_list()
            &&& post.allocated() == self.allocated() + 1
        }
    }

    /// `post` is this pool after the chain of nodes `ids` came back to it:
    /// the chain now stands in front of the free list, in its own order, and
    /// no chain owns its nodes any more. Nothing is allocated or freed.
    pub open spec fn takes_back(&self, post: TracePool, ids: Seq<usize>) -> bool {
        &&& post.free_list() == ids + self.free_list()
        &&& post.live() == self.live().difference(ids.to_set())
        &&& post.allocated() == self.allocated()
    }

    /// Every node of `s` that this pool has is the same in `post`, and
    /// `post` has at least as many nodes.
    pub closed spec fn unchanged_in(&self, post: TracePool, s: Set<usize>) -> bool {
        &&& self.nodes@.len() <= post.nodes@.len()
        &&& forall|i: usize|
            #[trigger] s.contains(i) && i < self.nodes@.len() ==> post.nodes@[i as int]
                == self.nodes@[i as int]
    }

    proof fn lemma_linked_unchanged(&self, post: TracePool, ids: Seq<usize>, end: Option<usize>)
        requires
            self.linked(ids, end),
            self.unchanged_in(post, ids.to_set()),
        ensures
            post.linked(ids, end),
    {
        assert forall|k: int| 0 <= k < ids.len() implies post.nodes@[ids[k] as int] == self.nodes@[ids[k] as int] by {
            assert(ids.to_set().contains(ids[k]));
        }
        assert forall|k: int| 0 <= k < ids.len() - 1 implies post.nodes@[#[trigger] ids[k] as int].next == Some(ids[k + 1]) by {
            assert(post.nodes@[ids[k] as int] == self.nodes@[ids[k] as int]);
        }
        if ids.len() > 0 {
            assert(post.nodes@[ids[ids.len() - 1] as int] == self.nodes@[ids[ids.len() - 1] as int]);
        }
    }

    /// A node that records `location` and links nowhere: the first node of
    /// the free list where that list is not empty, else a newly allocated one.
    /// The nodes that chains own are left as they were.
    pub fn acquire(&mut self, location: &'static ErtraceLocation) -> (r: usize)
        requires
            old(self).wf(),
        ensures
            final(self).wf(),
            old(self).hands_out(*final(self), r),
            final(self).location_at(r) == location,
            final(self).linked(seq![r], None),
            old(self).unchanged_in(*final(self), old(self).live()),
    {
        let ghost pre = *self;
        match self.try_take_from_free_list() {
            Some(n) => {
                self.nodes.set(n, TraceNode { location, next: None });
                proof {
                    let free = self.free@;
                    assert(pre.free@.no_duplicates());
                    assert forall|k: int| 0 <= k < free.len() implies free[k] != n by {
                        assert(free[k] == pre.free@[k + 1]);
                    }
                    assert forall|k: int| 0 <= k < free.len() - 1 implies self.nodes@[#[trigger] free[k] as int].next == Some(free[k + 1]) by {
                        assert(free[k] == pre.free@[k + 1]);
                        assert(free[k + 1] == pre.free@[k + 1 + 1]);
                    }
                    if free.len() > 0 {
                        assert(free.last() == pre.free@.last());
                    }
                    assert forall|i: usize| #[trigger] self.live@.contains(i) implies !self.free@.contains(i) by {
                        if self.free@.contains(i) {
                            let k = choose|k: int| 0 <= k < free.len() && free[k] == i;
                            assert(pre.free@[k + 1] == i);
                        }
                    }
                    assert forall|i: usize| i < self.nodes@.len() && !#[trigger] self.free@.contains(i) implies self.live@.contains(i) by {
                        if i != n && pre.free@.contains(i) {
                            let k = choose|k: int| 0 <= k < pre.free@.len() && pre.free@[k] == i;
                            assert(free[k - 1] == i);
                        }
                    }
                }
                n
            },
            None => {
                let n = self.nodes.len();
                self.nodes.push(TraceNode { location, next: None });
                self.live = Ghost(self.live@.insert(n));
                n
            },
        }
    }

    /// Unlinks the first node of the free list and hands it out, or returns
    /// `None` where the list is empty.
    fn try_take_from_free_list(&mut self) -> (r: Option<usize>)
        requires
            old(self).wf(),
        ensures
            old(self).free@.len() == 0 ==> r is None && *final(self) == *old(self),
            old(self).free@.len() > 0 ==> {
                &&& r == Some(old(self).free@[0])
                &&& final(self).free@ == old(self).free@.drop_first()
                &&& final(self).live@ == old(self).live@.insert(old(self).free@[0])
                &&& final(self).nodes@ == old(self).nodes@.update(
                    old(self).free@[0] as int,
                    TraceNode { location: old(self).nodes@[old(self).free@[0] as int].location, next: None },
                )
            },
            final(self).free_head == (if final(self).free@.len() == 0 {
                None
            } else {
                Some(final(self).free@[0])
            }),
            final(self).free_len == final(self).free@.len(),
    {
        match self.free_head {
            None => None,
            Some(n) => {
                let ghost old_free = self.free@;
                let location = self.nodes[n].location;
                let next = self.nodes[n].next;
                self.nodes.set(n, TraceNode { location, next: None });
                self.free_head = next;
                self.free_len = self.free_len - 1;
                self.free = Ghost(old_free.drop_first());
                self.live = Ghost(self.live@.insert(n));
                proof {
                    if old_free.len() > 1 {
                        assert(old_free[0int + 1] == self.free@[0]);
                    }
                }
                Some(n)
            },
        }
    }

    /// Sets the link of node `from`, keeping what it records.
    fn set_next(&mut self, from: usize, next: Option<usize>)
        requires
            from < old(self).nodes@.len(),
        ensures
            final(self).nodes@ == old(self).nodes@.update(
                from as int,
                TraceNode { location: old(self).nodes@[from as int].location, next },
            ),
            final(self).free_head == old(self).free_head,
            final(self).free_len == old(self).free_len,
            final(self).free == old(self).free,
            final(self).live == old(self).live,
    {
        let location = self.nodes[from].location;
        self.nodes.set(from, TraceNode { location, next });
    }

    proof fn lemma_release(pre: TracePool, post: TracePool, ids: Seq<usize>)
        requires
            pre.wf(),
            pre.linked(ids, None),
            ids.len() > 0,
            forall|k: int| 0 <= k < ids.len() ==> pre.live@.contains(#[trigger] ids[k]),
            post.nodes@ == pre.nodes@.update(
                ids.last() as int,
                TraceNode { location: pre.nodes@[ids.last() as int].location, next: pre.free_head },
            ),
            post.free@ == ids + pre.free@,
            post.live@ == pre.live@.difference(ids.to_set()),
            post.free_head == Some(ids[0]),
            post.free_len == pre.free_len + ids.len(),
        ensures
            post.wf(),
            pre.unchanged_in(post, pre.live@.difference(ids.to_set())),
    {
        let b = ids.to_set();
        let free = post.free@;
        let n = ids.len();
        let tail = ids.last();
        ids.unique_seq_to_set();
        assert(b.subset_of(pre.live@));
        assert(pre.live@.intersect(b) =~= b);
        lemma_set_difference_len(pre.live@, b);
        assert forall|k: int| 0 <= k < n implies !pre.free@.contains(#[trigger] ids[k]) by {
            assert(pre.live@.contains(ids[k]));
        }
        assert(free.no_duplicates()) by {
            assert forall|i: int, j: int|
                0 <= i < free.len() && 0 <= j < free.len() && i != j implies free[i] != free[j] by {
                if i < n && j >= n {
                    assert(pre.free@.contains(free[j]));
                } else if i >= n && j < n {
                    assert(pre.free@.contains(free[i]));
                }
            }
        }
        assert forall|k: int| 0 <= k < free.len() - 1 implies post.nodes@[#[trigger] free[k] as int].next
            == Some(free[k + 1]) by {
            if k < n - 1 {
                assert(ids[k] != tail);
            } else if k >= n {
                assert(free[k] == pre.free@[k - n]);
                assert(pre.free@.contains(free[k]));
                assert(free[k + 1] == pre.free@[k - n + 1]);
            }
        }
        if pre.free@.len() > 0 {
            assert(free.last() == pre.free@.last());
            assert(pre.free@.contains(free.last()));
        }
        assert forall|i: usize| #[trigger] free.contains(i) <==> (b.contains(i) || pre.free@.contains(i)) by {
            if free.contains(i) {
                let k = choose|k: int| 0 <= k < free.len() && free[k] == i;
                if k >= n {
                    assert(pre.free@[k - n] == i);
                }
            }
            if b.contains(i) {
                let k = choose|k: int| 0 <= k < n && ids[k] == i;
                assert(free[k] == i);
            }
            if pre.free@.contains(i) {
                let k = choose|k: int| 0 <= k < pre.free@.len() && pre.free@[k] == i;
                assert(free[k + n] == i);
            }
        }
        assert forall|i: usize| #[trigger] post.live@.contains(i) implies !free.contains(i) by {
            assert(pre.live@.contains(i));
        }
        assert forall|i: usize| #[trigger] b.contains(i) implies i < post.nodes@.len() by {
            let k = choose|k: int| 0 <= k < n && ids[k] == i;
        }
        assert forall|i: usize| #[trigger] (pre.live@.difference(b)).contains(i) && i < pre.nodes@.len()
            implies post.nodes@[i as int] == pre.nodes@[i as int] by {
            assert(i != tail);
        }
    }

    /// Splices the chain `ids`, which runs from `head` to `tail` and has
    /// `len` nodes, onto the front of the free list in one step.
    fn release(&mut self, head: usize, tail: usize, len: usize, ids: Ghost<Seq<usize>>)
        requires
            old(self).wf(),
            old(self).linked(ids@, None),
            ids@.len() == len,
            len > 0,
            head == ids@[0],
            tail == ids@.last(),
            forall|k: int| 0 <= k < ids@.len() ==> old(self).live@.contains(#[trigger] ids@[k]),
        ensures
            final(self).wf(),
            old(self).takes_back(*final(self), ids@),
            old(self).unchanged_in(*final(self), old(self).live@.difference(ids@.to_set())),
    {
        let ghost pre = *self;
        // the node count is a usize, and the free list grows to at most it
        let _node_count = self.nodes.len();
        proof {
            ids@.unique_seq_to_set();
            assert(ids@.to_set().subset_of(pre.live@));
            vstd::set_lib::lemma_len_subset(ids@.to_set(), pre.live@);
        }
        let old_head = self.free_head;
        self.set_next(tail, old_head);
        self.free_head = Some(head);
        self.free_len = self.free_len + len;
        self.free = Ghost(ids@ + pre.free@);
        self.live = Ghost(pre.live@.difference(ids@.to_set()));
        proof {
            TracePool::lemma_release(pre, *self, ids@);
        }
    }
}

/// The path of one error, oldest event first: a chain of pool nodes from
/// `head`, the originating event, to `tail`, the newest one. The chain is
/// only meaningful together with the pool its nodes came from.
pub struct Ertrace {
    head: usize,
    tail: usize,
    len: usize,
    ids: Ghost<Seq<usize>>,
}

impl TracePool {
    /// Every chain that is well formed in this pool and has no node in `ids`
    /// is still well formed in `post`, with the same trace.
    pub open spec fn keeps_chains_apart_from(&self, post: TracePool, ids: Seq<usize>) -> bool {
        forall|c: Ertrace|
            #[trigger] c.wf(*self) && c.nodes().to_set().disjoint(ids.to_set()) ==> c.wf(post)
                && c.trace(post) == c.trace(*self)
    }
}

impl Ertrace {
    /// The chain has at least one node, starts at `head`, ends at `tail`,
    /// and `len` counts its nodes.
    #[verifier::type_invariant]
    closed spec fn shape(&self) -> bool {
        &&& self.ids@.len() > 0
        &&& self.len == self.ids@.len()
        &&& self.head == self.ids@[0]
        &&& self.tail == self.ids@.last()
    }

    /// The chain's nodes, oldest event first.
    pub closed spec fn nodes(&self) -> Seq<usize> {
        self.ids@
    }

    /// The chain is non-empty and acyclic, runs from `head` to `tail`
    /// through the links of `pool`, ends there, and owns each of its nodes.
    pub closed spec fn wf(&self, pool: TracePool) -> bool {
        &&& self.shape()
        &&& pool.linked(self.ids@, None)
        &&& forall|k: int| 0 <= k < self.ids@.len() ==> pool.live().contains(#[trigger] self.ids@[k])
    }

    /// The locations the chain records, oldest first.
    pub open spec fn trace(&self, pool: TracePool) -> Seq<&'static ErtraceLocation> {
        self.nodes().map_values(|i: usize| pool.location_at(i))
    }

    /// A chain well formed in `pre` stays so in `post` when `post` keeps its
    /// nodes as they were and still counts them as owned.
    proof fn lemma_kept(&self, pre: TracePool, post: TracePool)
        requires
            self.wf(pre),
            pre.unchanged_in(post, self.ids@.to_set()),
            forall|k: int| 0 <= k < self.ids@.len() ==> post.live().contains(#[trigger] self.ids@[k]),
        ensures
            self.wf(post),
            self.trace(post) == self.trace(pre),
    {
        pre.lemma_linked_unchanged(post, self.ids@, None);
        assert forall|k: int| 0 <= k < self.ids@.len() implies post.location_at(self.ids@[k])
            == pre.location_at(self.ids@[k]) by {
            assert(self.ids@.to_set().contains(self.ids@[k]));
        }
        assert(self.trace(post) =~= self.trace(pre));
    }

    /// A chain's nodes are all owned, so a node that the pool hands out is in
    /// none of them.
    pub proof fn lemma_nodes_live(&self, pool: TracePool)
        requires
            self.wf(pool),
        ensures
            forall|i: usize| self.nodes().contains(i) ==> pool.live().contains(i),
    {
    }

    /// Starts a chain whose one event is `data`.
    pub fn new(pool: &mut TracePool, data: &'static ErtraceLocation) -> (r: Ertrace)
        requires
            old(pool).wf(),
        ensures
            final(pool).wf(),
            r.wf(*final(pool)),
            r.nodes().len() == 1,
            old(pool).hands_out(*final(pool), r.nodes()[0]),
            r.trace(*final(pool)) == seq![data],
            old(pool).keeps_chains_apart_from(*final(pool), Seq::<usize>::empty()),
    {
        let n = pool.acquire(data);
        let ghost ids = seq![n];
        let r = Ertrace { head: n, tail: n, len: 1, ids: Ghost(ids) };
        proof {
            assert(r.trace(*pool) =~= seq![data]);
            assert forall|c: Ertrace| #[trigger] c.wf(*old(pool)) && c.nodes().to_set().disjoint(
                Seq::<usize>::empty().to_set(),
            ) implies c.wf(*pool) && c.trace(*pool) == c.trace(*old(pool)) by {
                assert(c.ids@.to_set().subset_of(old(pool).live()));
                c.lemma_kept(*old(pool), *pool);
            }
        }
        r
    }

    /// Appends `data` as the chain's newest event, in constant time: a node
    /// is taken from the pool and linked after the current tail.
    pub fn push_back(&mut self, pool: &mut TracePool, data: &'static ErtraceLocation)
        requires
            old(pool).wf(),
            old(self).wf(*old(pool)),
        ensures
            final(pool).wf(),
            final(self).wf(*final(pool)),
            final(self).nodes() == old(self).nodes().push(final(self).nodes().last()),
            old(pool).hands_out(*final(pool), final(self).nodes().last()),
            final(self).trace(*final(pool)) == old(self).trace(*old(pool)).push(data),
            old(pool).keeps_chains_apart_from(*final(pool), old(self).nodes()),
    {
        let ghost pre = *pool;
        let n = pool.acquire(data);
        let ghost mid = *pool;
        pool.set_next(self.tail, Some(n));
        let ghost ids = self.ids@.push(n);
        let ghost old_ids = self.ids@;
        let old_tail = self.tail;
        proof {
            assert(!old_ids.contains(n));
            assert(ids.no_duplicates());
            ids.unique_seq_to_set();
            assert(ids.to_set().subset_of(pool.live()));
            vstd::set_lib::lemma_len_subset(ids.to_set(), pool.live());
        }
        // the node count is a usize, and the chain's length is below it
        let _node_count = pool.nodes.len();
        *self = Ertrace { head: self.head, tail: n, len: self.len + 1, ids: Ghost(ids) };
        proof {
            assert(!old_ids.contains(n));
            assert forall|k: int| 0 <= k < old_ids.len() implies #[trigger] mid.nodes@[old_ids[k] as int]
                == pre.nodes@[old_ids[k] as int] by {
                assert(pre.live().contains(old_ids[k]));
            }
            assert(pool.linked(ids, None)) by {
                assert forall|k: int| 0 <= k < ids.len() - 1 implies pool.nodes@[#[trigger] ids[k] as int].next
                    == Some(ids[k + 1]) by {
                    if k < old_ids.len() - 1 {
                        assert(old_ids[k] != old_tail);
                        assert(ids[k + 1] == old_ids[k + 1]);
                    }
                }
                assert forall|k: int| 0 <= k < ids.len() implies #[trigger] ids[k] < pool.nodes@.len() by {
                }
            }
            assert(self.trace(*pool) =~= old(self).trace(pre).push(data)) by {
                assert forall|k: int| 0 <= k < old_ids.len() implies pool.location_at(old_ids[k])
                    == pre.location_at(old_ids[k]) by {
                    assert(mid.nodes@[old_ids[k] as int] == pre.nodes@[old_ids[k] as int]);
                }
            }
            assert forall|c: Ertrace| #[trigger] c.wf(pre) && c.nodes().to_set().disjoint(old_ids.to_set())
                implies c.wf(*pool) && c.trace(*pool) == c.trace(pre) by {
                assert(c.ids@.to_set().subset_of(pre.live()));
                assert(!c.ids@.to_set().contains(old_tail)) by {
                    assert(old_ids.to_set().contains(old_tail));
                }
                assert(pre.unchanged_in(*pool, c.ids@.to_set()));
                c.lemma_kept(pre, *pool);
            }
        }
    }

    /// Takes over the chain `cause`, made where the error originated or was
    /// last rewrapped, and appends `data` as its newest event.
    pub fn from_cause(cause: Ertrace, pool: &mut TracePool, data: &'static ErtraceLocation) -> (r: Ertrace)
        requires
            old(pool).wf(),
            cause.wf(*old(pool)),
        ensures
            final(pool).wf(),
            r.wf(*final(pool)),
            r.nodes() == cause.nodes().push(r.nodes().last()),
            old(pool).hands_out(*final(pool), r.nodes().last()),
            r.trace(*final(pool)) == cause.trace(*old(pool)).push(data),
            old(pool).keeps_chains_apart_from(*final(pool), cause.nodes()),
    {
        let mut r = cause;
        r.push_back(pool, data);
        r
    }

    /// The number of events in the chain.
    pub fn len(&self) -> (r: usize)
        ensures
            r == self.nodes().len(),
    {
        proof { use_type_invariant(self); }
        self.len
    }

    /// Gives all the chain's nodes back to the pool in one step, whatever
    /// the chain's length: they stand in front of the free list afterwards.
    pub fn destroy(self, pool: &mut TracePool)
        requires
            old(pool).wf(),
            self.wf(*old(pool)),
        ensures
            final(pool).wf(),
            old(pool).takes_back(*final(pool), self.nodes()),
            old(pool).keeps_chains_apart_from(*final(pool), self.nodes()),
    {
        let ghost pre = *pool;
        pool.release(self.head, self.tail, self.len, self.ids);
        proof {
            assert forall|c: Ertrace| #[trigger] c.wf(pre) && c.nodes().to_set().disjoint(self.ids@.to_set())
                implies c.wf(*pool) && c.trace(*pool) == c.trace(pre) by {
                let b = c.ids@.to_set();
                assert(b.subset_of(pre.live().difference(self.ids@.to_set())));
                assert forall|k: int| 0 <= k < c.ids@.len() implies pool.live().contains(#[trigger] c.ids@[k]) by {
                    assert(b.contains(c.ids@[k]));
                }
                c.lemma_kept(pre, *pool);
            }
        }
    }

    /// A cursor that yields the chain's locations, oldest first, starting
    /// afresh from `head` on every call.
    pub fn iter(&self) -> (r: ErtraceIter)
        ensures
            r.remaining() == self.nodes(),
            forall|p: TracePool| #[trigger] self.wf(p) ==> r.wf(p),
    {
        proof { use_type_invariant(self); }
        ErtraceIter { next_node: Some(self.head), rest: self.ids }
    }

    /// The chain's locations, oldest first.
    pub fn locations(&self, pool: &TracePool) -> (r: Vec<&'static ErtraceLocation>)
        requires
            self.wf(*pool),
        ensures
            r@ == self.trace(*pool),
    {
        let mut out: Vec<&'static ErtraceLocation> = Vec::new();
        let mut it = self.iter();
        let ghost trace = self.trace(*pool);
        loop
            invariant
                it.wf(*pool),
                out@.len() <= self.nodes().len(),
                it.remaining() == self.nodes().skip(out@.len() as int),
                out@ == trace.take(out@.len() as int),
                trace == self.trace(*pool),
            ensures
                out@ == trace,
            decreases it.remaining().len(),
        {
            let ghost k = out@.len() as int;
            match it.next(pool) {
                None => {
                    assert(trace.take(k) =~= trace);
                    break;
                },
                Some(loc) => {
                    out.push(loc);
                    assert(it.remaining() =~= self.nodes().skip(k + 1));
                    assert(out@ =~= trace.take(k + 1));
                },
            }
        }
        out
    }

    /// The rendered trace: a header line, one numbered line per event,
    /// oldest first, and a closing blank line.
    pub fn to_string(&self, pool: &TracePool) -> (r: String)
        requires
            self.wf(*pool),
        ensures
            r@ == rendered_trace(self.trace(*pool)),
    {
        render_trace(&self.locations(pool))
    }
}

/// A cursor over the locations of a chain, oldest first. It reads the pool
/// it is given at each step and never changes it.
pub struct ErtraceIter {
    next_node: Option<usize>,
    rest: Ghost<Seq<usize>>,
}

impl ErtraceIter {
    /// The nodes not yet visited, in order.
    pub closed spec fn remaining(&self) -> Seq<usize> {
        self.rest@
    }

    /// The unvisited nodes are linked in `pool` and the cursor stands on
    /// the first of them.
    pub closed spec fn wf(&self, pool: TracePool) -> bool {
        &&& pool.linked(self.rest@, None)
        &&& self.next_node == (if self.rest@.len() == 0 {
            None
        } else {
            Some(self.rest@[0])
        })
    }

    /// The location of the next unvisited node, or `None` once all have
    /// been visited.
    pub fn next(&mut self, pool: &TracePool) -> (r: Option<&'static ErtraceLocation>)
        requires
            old(self).wf(*pool),
        ensures
            final(self).wf(*pool),
            old(self).remaining().len() == 0 ==> r is None && final(self).remaining()
                == old(self).remaining(),
            old(self).remaining().len() > 0 ==> r == Some(pool.location_at(old(self).remaining()[0]))
                && final(self).remaining() == old(self).remaining().drop_first(),
    {
        match self.next_node {
            None => None,
            Some(n) => {
                let ghost rest = self.rest@;
                let node = &pool.nodes[n];
                self.next_node = node.next;
                self.rest = Ghost(rest.drop_first());
                proof {
                    if rest.len() > 1 {
                        assert(rest[0int + 1] == self.rest@[0]);
                    }
                    let r2 = self.rest@;
                    assert forall|k: int| 0 <= k < r2.len() - 1 implies pool.nodes@[#[trigger] r2[k] as int].next
                        == Some(r2[k + 1]) by {
                        assert(r2[k] == rest[k + 1]);
                        assert(r2[k + 1] == rest[k + 1 + 1]);
                    }
                    assert forall|k: int| 0 <= k < r2.len() implies #[trigger] r2[k] < pool.nodes@.len() by {
                        assert(r2[k] == rest[k + 1]);
                    }
                }
                Some(node.location)
            },
        }
    }
}


/// Free and owned nodes together are all the nodes the pool ever allocated,
/// and no node is both free and owned.
pub proof fn lemma_node_accounting(pool: TracePool)
    requires
        pool.wf(),
    ensures
        pool.free_list().len() + pool.live().len() == pool.allocated(),
        forall|i: usize| pool.live().contains(i) ==> !pool.free_list().contains(i),
{
}

/// A node that the pool hands out belongs to no chain that was well formed
/// in the pool before, so no two live chains ever share a node.
pub proof fn lemma_handed_out_node_unshared(pre: TracePool, post: TracePool, n: usize, c: Ertrace)
    requires
        pre.hands_out(post, n),
        c.wf(pre),
    ensures
        !c.nodes().contains(n),
{
    c.lemma_nodes_live(pre);
}

/// A chain started with the locations' first and then extended with the
/// others one by one, in order, has as its trace exactly those locations,
/// oldest first, one per call. `chains[i]` and `pools[i]` are the chain and
/// its pool after the `i`-th call; work on other chains may come between.
pub proof fn lemma_trace_in_append_order(
    chains: Seq<Ertrace>,
    pools: Seq<TracePool>,
    locs: Seq<&'static ErtraceLocation>,
)
    requires
        locs.len() > 0,
        chains.len() == locs.len(),
        pools.len() == locs.len(),
        chains[0].trace(pools[0]) == seq![locs[0]],
        forall|i: int|
            0 < i < locs.len() ==> #[trigger] chains[i].trace(pools[i]) == chains[i - 1].trace(
                pools[i - 1],
            ).push(locs[i]),
    ensures
        chains.last().trace(pools.last()) == locs,
        chains.last().trace(pools.last()).len() == locs.len(),
    decreases locs.len(),
{
    let n = locs.len();
    if n == 1 {
        assert(locs =~= seq![locs[0]]);
    } else {
        lemma_trace_in_append_order(chains.drop_last(), pools.drop_last(), locs.drop_last());
        assert(chains.drop_last().last() == chains[n - 2]);
        assert(pools.drop_last().last() == pools[n - 2]);
        assert(chains[n - 1].trace(pools[n - 1]) == chains[n - 2].trace(pools[n - 2]).push(locs[n - 1]));
        assert(locs =~= locs.drop_last().push(locs[n - 1]));
    }
}

/// The nodes that `destroy` gave back are the next ones handed out, in the
/// chain's order, and while they last nothing is newly allocated.
/// `pools[0]` and `pools[1]` are the pool before and after the chain `ids`
/// came back; each later pool follows one acquire, which handed out the
/// node in `taken`.
pub proof fn lemma_released_nodes_reused(pools: Seq<TracePool>, ids: Seq<usize>, taken: Seq<usize>)
    requires
        pools.len() == taken.len() + 2,
        taken.len() <= ids.len(),
        pools[0].takes_back(pools[1], ids),
        forall|i: int| 0 <= i < taken.len() ==> #[trigger] pools[i + 1].hands_out(pools[i + 2], taken[i]),
    ensures
        taken == ids.take(taken.len() as int),
        pools.last().allocated() == pools[0].allocated(),
        pools.last().free_list() == ids.skip(taken.len() as int) + pools[0].free_list(),
    decreases taken.len(),
{
    let k = taken.len() as int;
    if k == 0 {
        assert(ids.skip(0) =~= ids);
        assert(taken =~= ids.take(0));
    } else {
        let pools1 = pools.drop_last();
        let taken1 = taken.drop_last();
        assert forall|i: int| 0 <= i < taken1.len() implies #[trigger] pools1[i + 1].hands_out(pools1[i + 2], taken1[i]) by {
            assert(pools[i + 1].hands_out(pools[i + 2], taken[i]));
        }
        lemma_released_nodes_reused(pools1, ids, taken1);
        let pre = pools[k];
        assert(pre == pools1.last());
        assert(pools[(k - 1) + 1].hands_out(pools[(k - 1) + 2], taken[k - 1]));
        let rest = ids.skip(k - 1);
        assert(pre.free_list() == rest + pools[0].free_list());
        assert(pre.free_list()[0] == ids[k - 1]);
        assert(pools[k + 1].free_list() =~= ids.skip(k as int) + pools[0].free_list());
        assert(taken =~= ids.take(k as int));
    }
}

} // verus!
