use vstd::prelude::*;
use vstd::arithmetic::div_mod::lemma_add_mod_noop;
use crate::ertrace::TraceNode;
use crate::ertrace_location::ErtraceLocation;
use crate::render::{render_trace, rendered_trace};

verus! {

/// `n` is a power of two.
pub open spec fn is_power_of_two(n: u64) -> bool {
    n > 0 && n & ((n - 1) as u64) == 0
}

/// Whether `n` is a power of two, and so a valid arena capacity.
pub fn is_valid_capacity(n: u64) -> (r: bool)
    ensures
        r == is_power_of_two(n),
{
    n > 0 && n & (n - 1) == 0
}

/// A fixed-capacity ring of nodes that never reclaims. Each acquire takes
/// the slot that the counter, masked by `capacity - 1`, points at, and moves
/// the counter on by one, wrapping at the top of its range. Once every slot
/// has been used the ring reuses them, oldest first, whoever still refers
/// to them.
pub struct ArenaPool {
    nodes: Vec<TraceNode>,
    mask: u64,
    counter: u64,
}

impl ArenaPool {
    /// How many nodes the ring holds.
    pub closed spec fn capacity(&self) -> nat {
        (self.mask + 1) as nat
    }

    /// The allocation counter.
    pub closed spec fn counter(&self) -> u64 {
        self.counter
    }

    /// The slot that the next acquire takes.
    pub open spec fn next_slot(&self) -> u64 {
        self.counter() & ((self.capacity() - 1) as u64)
    }

    /// Slot `i` has been handed out at least once.
    pub closed spec fn in_use(&self, i: u64) -> bool {
        i < self.nodes@.len()
    }

    /// The location that slot `i` records, once slot `i` has been used.
    pub closed spec fn location_at(&self, i: u64) -> &'static ErtraceLocation {
        self.nodes@[i as int].location
    }

    /// The capacity is a power of two; slots are used in order until the
    /// ring is full, so before that the counter equals the number in use.
    pub closed spec fn wf(&self) -> bool {
        &&& self.mask < u64::MAX
        &&& is_power_of_two((self.mask + 1) as u64)
        &&& self.nodes@.len() <= self.mask + 1
        &&& self.nodes@.len() < self.mask + 1 ==> self.counter == self.nodes@.len()
        &&& forall|i: int|
            0 <= i < self.nodes@.len() ==> match #[trigger] self.nodes@[i].next {
                Some(j) => j < self.nodes@.len(),
                None => true,
            }
    }

    /// The slots `slots` are distinct and in use, each links to the one
    /// after it, and the last links to `end`.
    pub closed spec fn linked(&self, slots: Seq<u64>, end: Option<usize>) -> bool {
        &&& slots.no_duplicates()
        &&& forall|k: int| 0 <= k < slots.len() ==> #[trigger] slots[k] < self.nodes@.len()
        &&& forall|k: int|
            0 <= k < slots.len() - 1 ==> self.nodes@[#[trigger] slots[k] as int].next == Some(
                slots[k + 1] as usize,
            )
        &&& slots.len() > 0 ==> self.nodes@[slots.last() as int].next == end
    }

    /// Every slot in use other than `slot` holds in `post` what it held here.
    pub closed spec fn unchanged_but(&self, post: ArenaPool, slot: u64) -> bool {
        &&& self.nodes@.len() <= post.nodes@.len()
        &&& forall|i: int|
            0 <= i < self.nodes@.len() && i != slot ==> post.nodes@[i] == #[trigger] self.nodes@[i]
    }

    /// `post` is this arena after an acquire of `location` that returned
    /// `slot`: the slot the counter pointed at, which now records
    /// `location`; the counter moved on by one, wrapping.
    pub open spec fn acquires(&self, post: ArenaPool, location: &'static ErtraceLocation, slot: u64) -> bool {
        &&& slot == self.next_slot()
        &&& slot < self.capacity()
        &&& post.counter() == self.counter().wrapping_add(1)
        &&& post.capacity() == self.capacity()
        &&& post.in_use(slot)
        &&& post.location_at(slot) == location
        &&& forall|i: u64|
            #[trigger] self.in_use(i) ==> post.in_use(i) && (i != slot ==> post.location_at(i)
                == self.location_at(i))
    }

    /// An empty ring of `capacity` nodes with its counter at zero. The
    /// capacity must be a power of two.
    pub fn init(capacity: u64) -> (r: ArenaPool)
        requires
            is_power_of_two(capacity),
        ensures
            r.wf(),
            r.capacity() == capacity,
            r.counter() == 0,
            forall|i: u64| !r.in_use(i),
    {
        ArenaPool { nodes: Vec::new(), mask: capacity - 1, counter: 0 }
    }

    /// The location that slot `i` records.
    pub fn location(&self, i: u64) -> (r: &'static ErtraceLocation)
        requires
            self.in_use(i),
        ensures
            r == self.location_at(i),
    {
        // slot `i` is below the node count, a usize
        let _node_count = self.nodes.len();
        self.nodes[i as usize].location
    }

    /// Takes the slot the counter points at, overwrites it with `location`
    /// and no link, and moves the counter on. Never fails: once the ring is
    /// full the oldest slots are handed out again.
    pub fn acquire(&mut self, location: &'static ErtraceLocation) -> (r: u64)
        requires
            old(self).wf(),
        ensures
            final(self).wf(),
            old(self).acquires(*final(self), location, r),
            final(self).linked(seq![r], None),
            old(self).unchanged_but(*final(self), r),
    {
        let mask = self.mask;
        let counter = self.counter;
        let slot = counter & mask;
        assert(slot <= mask) by (bit_vector)
            requires slot == counter & mask;
        if counter <= mask {
            let ghost n: u64 = (mask + 1) as u64;
            assert(slot == counter) by (bit_vector)
                requires
                    slot == counter & mask,
                    counter <= mask,
                    n & mask == 0,
                    n == mask + 1,
            ;
        }
        // slots in use are below the node count, a usize
        let _node_count = self.nodes.len();
        self.counter = counter.wrapping_add(1);
        if (slot as usize) < self.nodes.len() {
            self.nodes.set(slot as usize, TraceNode { location, next: None });
        } else {
            self.nodes.push(TraceNode { location, next: None });
        }
        slot
    }
}

impl ArenaPool {
    /// Points slot `from` at slot `to`, keeping what it records.
    fn set_next(&mut self, from: u64, to: u64)
        requires
            old(self).wf(),
            old(self).in_use(from),
            old(self).in_use(to),
        ensures
            final(self).wf(),
            final(self).nodes@ == old(self).nodes@.update(
                from as int,
                TraceNode { location: old(self).nodes@[from as int].location, next: Some(to as usize) },
            ),
            final(self).mask == old(self).mask,
            final(self).counter == old(self).counter,
    {
        // slots in use are below the node count, a usize
        let _node_count = self.nodes.len();
        let location = self.nodes[from as usize].location;
        self.nodes.set(from as usize, TraceNode { location, next: Some(to as usize) });
    }
}

/// A trace chain whose nodes come from an arena: the locations appended to
/// it, oldest first, in the slots `head` to `tail`. Once the arena wraps it
/// may hand out a slot of a live chain again and overwrite it; the chain can
/// then no longer be read back in full. While its slots are intact, reading
/// it gives back exactly what was appended.
pub struct ArenaTrace {
    head: u64,
    tail: u64,
    len: usize,
    slots: Ghost<Seq<u64>>,
    locs: Ghost<Seq<&'static ErtraceLocation>>,
}

impl ArenaTrace {
    /// The chain has a slot for each location appended, starting at `head`
    /// and ending at `tail`, and `len` counts them.
    #[verifier::type_invariant]
    closed spec fn shape(&self) -> bool {
        &&& self.slots@.len() > 0
        &&& self.len == self.slots@.len()
        &&& self.locs@.len() == self.slots@.len()
        &&& self.head == self.slots@[0]
        &&& self.tail == self.slots@.last()
    }

    /// The slots the chain was given, oldest event first.
    pub closed spec fn slots(&self) -> Seq<u64> {
        self.slots@
    }

    /// The locations appended to the chain, oldest first.
    pub closed spec fn trace(&self) -> Seq<&'static ErtraceLocation> {
        self.locs@
    }

    /// All of the chain's slots are in use in `arena`.
    pub closed spec fn valid_in(&self, arena: ArenaPool) -> bool {
        forall|k: int| 0 <= k < self.slots@.len() ==> arena.in_use(#[trigger] self.slots@[k])
    }

    /// No slot of the chain has been overwritten in `arena`: they still link
    /// from `head` to `tail` and record the appended locations.
    pub closed spec fn intact_in(&self, arena: ArenaPool) -> bool {
        &&& arena.linked(self.slots@, None)
        &&& forall|k: int|
            0 <= k < self.slots@.len() ==> arena.location_at(#[trigger] self.slots@[k])
                == self.locs@[k]
    }

    /// Starts a chain whose one event is `data`, in the slot the arena
    /// hands out.
    pub fn new(arena: &mut ArenaPool, data: &'static ErtraceLocation) -> (r: ArenaTrace)
        requires
            old(arena).wf(),
        ensures
            final(arena).wf(),
            old(arena).acquires(*final(arena), data, r.slots()[0]),
            r.slots().len() == 1,
            r.trace() == seq![data],
            r.valid_in(*final(arena)),
            r.intact_in(*final(arena)),
    {
        let s = arena.acquire(data);
        let ghost slots = seq![s];
        let ghost locs = seq![data];
        ArenaTrace { head: s, tail: s, len: 1, slots: Ghost(slots), locs: Ghost(locs) }
    }

    /// The number of events appended to the chain.
    pub fn len(&self) -> (r: usize)
        ensures
            r == self.trace().len(),
    {
        proof { use_type_invariant(self); }
        self.len
    }

    /// Appends `data` as the newest event, in a slot the arena hands out,
    /// linked after the current tail. The chain stays intact where it was
    /// and the new slot is not one of its own.
    pub fn push_back(&mut self, arena: &mut ArenaPool, data: &'static ErtraceLocation)
        requires
            old(arena).wf(),
            old(self).valid_in(*old(arena)),
            old(self).trace().len() < usize::MAX,
        ensures
            final(arena).wf(),
            old(arena).acquires(*final(arena), data, final(self).slots().last()),
            final(self).slots() == old(self).slots().push(final(self).slots().last()),
            final(self).trace() == old(self).trace().push(data),
            final(self).valid_in(*final(arena)),
            old(self).intact_in(*old(arena)) && !old(self).slots().contains(final(self).slots().last())
                ==> final(self).intact_in(*final(arena)),
    {
        proof { use_type_invariant(&*self); }
        let ghost pre = *arena;
        let s = arena.acquire(data);
        let ghost mid = *arena;
        proof {
            assert(pre.in_use(self.tail));
        }
        arena.set_next(self.tail, s);
        let ghost slots = self.slots@.push(s);
        let ghost locs = self.locs@.push(data);
        let ghost old_slots = self.slots@;
        let ghost old_locs = self.locs@;
        let old_tail = self.tail;
        *self = ArenaTrace { head: self.head, tail: s, len: self.len + 1, slots: Ghost(slots), locs: Ghost(locs) };
        proof {
            assert forall|k: int| 0 <= k < slots.len() implies arena.in_use(#[trigger] slots[k]) by {
                if k < old_slots.len() {
                    assert(pre.in_use(old_slots[k]));
                }
            }
            if old(self).intact_in(pre) && !old_slots.contains(s) {
                assert forall|k: int| 0 <= k < old_slots.len() implies #[trigger] mid.nodes@[old_slots[k] as int]
                    == pre.nodes@[old_slots[k] as int] by {
                    assert(old_slots[k] != s);
                }
                assert(slots.no_duplicates());
                assert forall|k: int| 0 <= k < slots.len() - 1 implies arena.nodes@[#[trigger] slots[k] as int].next
                    == Some(slots[k + 1] as usize) by {
                    if k < old_slots.len() - 1 {
                        assert(old_slots[k] != old_tail);
                        assert(slots[k + 1] == old_slots[k + 1]);
                    }
                }
                assert forall|k: int| 0 <= k < slots.len() implies arena.location_at(#[trigger] slots[k])
                    == locs[k] by {
                    if k < old_slots.len() {
                        assert(old_slots[k] != s);
                        assert(mid.nodes@[old_slots[k] as int] == pre.nodes@[old_slots[k] as int]);
                    }
                }
                assert(arena.linked(slots, None));
            }
        }
    }

    /// The locations read back from the chain's slots, oldest first: at
    /// most one per event, and exactly the appended ones while the chain is
    /// intact. Reading stops at a slot that links nowhere.
    pub fn locations(&self, arena: &ArenaPool) -> (r: Vec<&'static ErtraceLocation>)
        requires
            arena.wf(),
            self.valid_in(*arena),
        ensures
            r@.len() <= self.trace().len(),
            self.intact_in(*arena) ==> r@ == self.trace(),
    {
        proof { use_type_invariant(self); }
        let ghost slots = self.slots@;
        let ghost locs = self.locs@;
        let mut out: Vec<&'static ErtraceLocation> = Vec::new();
        let mut cur: Option<u64> = Some(self.head);
        let mut i: usize = 0;
        // slots in use are below the node count, a usize
        let _node_count = arena.nodes.len();
        proof {
            assert(arena.in_use(slots[0]));
        }
        while i < self.len
            invariant
                self.len == slots.len(),
                slots == self.slots@,
                locs == self.locs@,
                locs.len() == slots.len(),
                arena.wf(),
                i <= self.len,
                out@.len() == i,
                arena.nodes@.len() <= usize::MAX,
                cur matches Some(c) ==> arena.in_use(c),
                self.intact_in(*arena) ==> out@ == locs.take(i as int) && (i < self.len ==> cur
                    == Some(slots[i as int])),
            ensures
                out@.len() <= self.len,
                self.intact_in(*arena) ==> out@ == locs,
            decreases self.len - i,
        {
            match cur {
                None => {
                    proof {
                        if self.intact_in(*arena) {
                            assert(locs.take(i as int) =~= locs);
                        }
                    }
                    break;
                },
                Some(c) => {
                    let node = &arena.nodes[c as usize];
                    out.push(node.location);
                    cur = match node.next {
                        Some(j) => Some(j as u64),
                        None => None,
                    };
                    proof {
                        assert(arena.nodes@[c as int] == *node);
                        if self.intact_in(*arena) {
                            assert(arena.location_at(slots[i as int]) == locs[i as int]);
                            assert(out@ =~= locs.take(i as int + 1));
                            if i + 1 < self.len {
                                assert(arena.nodes@[slots[i as int] as int].next == Some(slots[i + 1] as usize));
                            }
                        }
                    }
                    i = i + 1;
                },
            }
        }
        out
    }

    /// The rendered trace read back from the chain's slots; while the chain
    /// is intact, the rendering of exactly the appended locations.
    pub fn to_string(&self, arena: &ArenaPool) -> (r: String)
        requires
            arena.wf(),
            self.valid_in(*arena),
        ensures
            self.intact_in(*arena) ==> r@ == rendered_trace(self.trace()),
    {
        render_trace(&self.locations(arena))
    }
}

/// Adding a power of two `n` to a 64-bit counter, wrapping, leaves its bits
/// below `n` as they were.
proof fn lemma_wrapped_add_keeps_low_bits(c: u64, d: u64, m: u64)
    requires
        m < u64::MAX,
        is_power_of_two((m + 1) as u64),
        d as int == (c + m + 1) % 0x1_0000_0000_0000_0000,
    ensures
        d & m == c & m,
{
    let n: u64 = (m + 1) as u64;
    assert(n & m == 0);
    if c + n < 0x1_0000_0000_0000_0000 {
        assert(d == c + n);
        assert(d & m == c & m) by (bit_vector)
            requires
                d == c + n,
                n & m == 0,
                n == m + 1,
        ;
    } else {
        assert(d + 0x1_0000_0000_0000_0000 == c + n);
        assert(d & m == c & m) by (bit_vector)
            requires
                d + 0x1_0000_0000_0000_0000 == c + n,
                n & m == 0,
                n == m + 1,
        ;
    }
}

/// After `j` acquires the counter has moved on by `j`, wrapping, and the
/// capacity is unchanged.
proof fn lemma_counter_after(
    pools: Seq<ArenaPool>,
    locs: Seq<&'static ErtraceLocation>,
    slots: Seq<u64>,
    j: int,
)
    requires
        pools.len() == slots.len() + 1,
        locs.len() == slots.len(),
        forall|i: int| 0 <= i < slots.len() ==> #[trigger] pools[i].acquires(pools[i + 1], locs[i], slots[i]),
        0 <= j <= slots.len(),
    ensures
        pools[j].counter() as int == (pools[0].counter() + j) % 0x1_0000_0000_0000_0000,
        pools[j].capacity() == pools[0].capacity(),
    decreases j,
{
    if j > 0 {
        lemma_counter_after(pools, locs, slots, j - 1);
        assert(pools[(j - 1)].acquires(pools[(j - 1) + 1], locs[j - 1], slots[j - 1]));
        let c = pools[j - 1].counter();
        lemma_add_mod_noop(pools[0].counter() + j - 1, 1, 0x1_0000_0000_0000_0000);
        assert((c + 1) % 0x1_0000_0000_0000_0000 == pools[j].counter() as int);
    }
}

/// After as many acquires as the ring has slots, the next acquire takes the
/// slot the first one took once more, and overwrites what it recorded.
/// `pools[i]` is the arena before the `i`-th acquire, which recorded
/// `locs[i]` in slot `slots[i]`.
pub proof fn lemma_wraps_after_capacity(
    pools: Seq<ArenaPool>,
    locs: Seq<&'static ErtraceLocation>,
    slots: Seq<u64>,
)
    requires
        pools.len() == slots.len() + 1,
        locs.len() == slots.len(),
        pools[0].wf(),
        slots.len() == pools[0].capacity() + 1,
        forall|i: int| 0 <= i < slots.len() ==> #[trigger] pools[i].acquires(pools[i + 1], locs[i], slots[i]),
    ensures
        slots.last() == slots[0],
        pools.last().location_at(slots[0]) == locs.last(),
{
    let cap = pools[0].capacity() as int;
    lemma_counter_after(pools, locs, slots, cap);
    assert(pools[0].acquires(pools[0int + 1], locs[0], slots[0]));
    assert(pools[cap].acquires(pools[cap + 1], locs[cap], slots[cap]));
    let m = (cap - 1) as u64;
    lemma_wrapped_add_keeps_low_bits(pools[0].counter(), pools[cap].counter(), m);
}

} // verus!
