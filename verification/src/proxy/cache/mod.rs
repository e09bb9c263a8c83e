//! The proxy's cache of file entries, keyed by file descriptor.
//!
//! The entries live in a fixed array of slots. The slots in use are
//! chained into a doubly linked recency list (`head` most recent, `tail`
//! next to go) through `prev` and `next`; a hash map sends each
//! descriptor to its slot, and a queue holds the slots handed back.
//! A new entry takes the first free slot, or, when none is left, the
//! tail's slot: that entry is evicted, handed back to be written to the
//! server if it holds writes, and its descriptor is no longer cached.
//!
//! Every operation is stated exactly, field by field, over `CacheView`.
//! The invariant `well_formed` says that all stored slot numbers lie
//! within the array and that the links form one proper recency list
//! (`recency_ok`): every slot is in it or queued free, and every
//! descriptor the map holds is sent to a slot of the list that records
//! that slot and that descriptor. The laws below state what reads,
//! insertions and sweeps do to that order. A sweep looks at every stale
//! slot, free ones included: the map forgets the slot's descriptor, and a
//! slot that the map still sent that descriptor to leaves the list and is
//! queued free.
pub mod entry;
pub mod recency;

use vstd::prelude::*;
use std::collections::{HashMap, VecDeque};
use vstd::string::StringExecFns;
use self::recency::list_is;
use self::entry::{Entry, EntryView, written, write_fits, read_answer, read_fits, stale_at, fetched};

verus! {

broadcast use vstd::std_specs::hash::group_hash_axioms;

pub struct Node {
    pub fd: i32,
    pub indx: usize,
    pub value: Entry,
    pub prev: Option<usize>,
    pub next: Option<usize>,
}

/// A slot as a value.
pub struct NodeView {
    pub fd: i32,
    pub indx: usize,
    pub value: EntryView,
    pub prev: Option<usize>,
    pub next: Option<usize>,
}

impl View for Node {
    type V = NodeView;

    open spec fn view(&self) -> NodeView {
        NodeView {
            fd: self.fd,
            indx: self.indx,
            value: self.value@,
            prev: self.prev,
            next: self.next,
        }
    }
}

/// The cache as a value.
pub struct CacheView {
    pub map: Map<i32, usize>,
    pub nodes: Seq<NodeView>,
    pub free: Seq<usize>,
    pub head: Option<usize>,
    pub tail: Option<usize>,
    pub next_fd: i32,
    pub capacity: u32,
}

pub open spec fn slot_ok(o: Option<usize>, n: int) -> bool {
    o matches Some(i) ==> i < n
}

impl CacheView {
    /// All stored slot numbers lie within the array, the links chain the
    /// slots in use into one recency list (see `recency_ok`), and the
    /// descriptor counter is positive.
    pub open spec fn well_formed(self) -> bool {
        &&& self.links_ok()
        &&& exists|order: Seq<usize>| #[trigger] self.recency_ok(order)
        &&& self.next_fd >= 1
    }

    /// `order` is the recency list, front (most recent) to back: the links
    /// chain exactly its slots; every slot is either in it or queued free,
    /// never both, and no slot is queued twice; and every descriptor the
    /// map holds is sent to a slot of the list that records that slot
    /// and that descriptor.
    pub open spec fn recency_ok(self, order: Seq<usize>) -> bool {
        &&& list_is(self, order)
        &&& self.free.no_duplicates()
        &&& forall|s: usize|
            #![trigger order.contains(s)]
            #![trigger self.free.contains(s)]
            s < self.nodes.len() ==> (order.contains(s) <==> !self.free.contains(s))
        &&& forall|fd: i32|
            #[trigger] self.map.contains_key(fd) ==> {
                &&& order.contains(self.map[fd])
                &&& self.nodes[self.map[fd] as int].indx == self.map[fd]
                &&& self.nodes[self.map[fd] as int].fd == fd
            }
    }

    /// Whether the map still sends the descriptor that slot `i` holds to `i`.
    pub open spec fn holds(self, i: usize) -> bool {
        let fd = self.nodes[i as int].fd;
        self.map.contains_key(fd) && self.map[fd] == i
    }

    /// All stored slot numbers lie within the array.
    pub open spec fn links_ok(self) -> bool {
        let n = self.nodes.len() as int;
        &&& n == self.capacity
        &&& slot_ok(self.head, n)
        &&& slot_ok(self.tail, n)
        &&& forall|i: int|
            0 <= i < n ==> {
                &&& slot_ok((#[trigger] self.nodes[i]).prev, n)
                &&& slot_ok(self.nodes[i].next, n)
                &&& self.nodes[i].indx < n
            }
        &&& forall|k: int| 0 <= k < self.free.len() ==> #[trigger] self.free[k] < n
        &&& forall|fd: i32| #[trigger] self.map.contains_key(fd) ==> self.map[fd] < n
    }

    /// The slot that the map gives for `fd`.
    pub open spec fn lookup(self, fd: i32) -> Option<usize> {
        if self.map.contains_key(fd) {
            Some(self.map[fd])
        } else {
            None
        }
    }

    pub open spec fn set_prev(self, i: usize, p: Option<usize>) -> CacheView {
        CacheView { nodes: self.nodes.update(i as int, NodeView { prev: p, ..self.nodes[i as int] }), ..self }
    }

    pub open spec fn set_next(self, i: usize, n: Option<usize>) -> CacheView {
        CacheView { nodes: self.nodes.update(i as int, NodeView { next: n, ..self.nodes[i as int] }), ..self }
    }

    pub open spec fn set_value(self, i: usize, e: EntryView) -> CacheView {
        CacheView { nodes: self.nodes.update(i as int, NodeView { value: e, ..self.nodes[i as int] }), ..self }
    }

    /// Slot `i` taken out of the recency list: its neighbours (or the
    /// list's ends) point past it. Its own links are left as they were.
    pub open spec fn unlinked(self, i: usize) -> CacheView {
        let p = self.nodes[i as int].prev;
        let n = self.nodes[i as int].next;
        let v1 = match p {
            Some(pi) => self.set_next(pi, n),
            None => CacheView { head: n, ..self },
        };
        match n {
            Some(ni) => v1.set_prev(ni, p),
            None => CacheView { tail: p, ..v1 },
        }
    }

    /// Slot `i` put at the head of the recency list.
    pub open spec fn pushed_front(self, i: usize) -> CacheView {
        let old_head = self.head;
        let v1 = self.set_prev(i, None).set_next(i, old_head);
        let v2 = match old_head {
            Some(h) => v1.set_prev(h, Some(i)),
            None => v1,
        };
        let v3 = CacheView { head: Some(i), ..v2 };
        if v3.tail is None {
            CacheView { tail: Some(i), ..v3 }
        } else {
            v3
        }
    }

    /// Slot `i` moved to the head of the recency list.
    pub open spec fn touched(self, i: usize) -> CacheView {
        self.unlinked(i).pushed_front(i)
    }

    /// The slot that the next insertion takes.
    pub open spec fn insert_slot(self) -> usize {
        if self.free.len() > 0 {
            self.free[0]
        } else {
            self.tail->0
        }
    }

    /// The cache after `e` is inserted under `fd`: a free slot is taken;
    /// with none free, the tail's slot (the least recently used) is taken
    /// back: the map forgets the descriptor it held, and it leaves the
    /// list. Either way the new node goes into the slot, the slot is put
    /// at the head, and the map sends `fd` to it.
    pub open spec fn inserted(self, e: EntryView, fd: i32) -> CacheView {
        let i = self.insert_slot();
        let node = NodeView { fd, indx: i, value: e, prev: None, next: None };
        let v1 = if self.free.len() > 0 {
            CacheView { free: self.free.subrange(1, self.free.len() as int), ..self }
        } else if self.holds(i) {
            CacheView { map: self.map.remove(self.nodes[i as int].fd), ..self }.unlinked(i)
        } else {
            self.unlinked(i)
        };
        let v2 = CacheView { nodes: v1.nodes.update(i as int, node), ..v1 }.pushed_front(i);
        CacheView { map: v2.map.insert(fd, i), ..v2 }
    }

    /// The entry an insertion takes back for writing to the server: the
    /// tail's, when no slot is free.
    pub open spec fn evicted(self) -> Option<EntryView> {
        if self.free.len() > 0 {
            None
        } else {
            Some(self.nodes[self.tail->0 as int].value)
        }
    }

    /// The descriptor an insertion makes the map forget: the one the
    /// tail's slot holds, when no slot is free and the map still sends
    /// that descriptor to the tail.
    pub open spec fn evicted_fd(self) -> Option<i32> {
        if self.free.len() == 0 && self.holds(self.tail->0) {
            Some(self.nodes[self.tail->0 as int].fd)
        } else {
            None
        }
    }

    /// Whether an insertion can find a slot.
    pub open spec fn can_insert(self) -> bool {
        self.free.len() > 0 || self.tail is Some
    }

    /// Slot `i` given up by a sweep: if the map holds the slot's descriptor,
    /// the key is dropped; if it sent that descriptor to this very slot,
    /// the slot is also unlinked and queued as free. Otherwise nothing
    /// changes.
    pub open spec fn removed(self, i: usize) -> CacheView {
        let fd = self.nodes[i as int].fd;
        if self.holds(i) {
            let v1 = CacheView { map: self.map.remove(fd), ..self };
            let v2 = v1.unlinked(i);
            CacheView { free: v2.free.push(i), ..v2 }
        } else if self.map.contains_key(fd) {
            CacheView { map: self.map.remove(fd), ..self }
        } else {
            self
        }
    }

    /// The slots `idxs` given up in order.
    pub open spec fn removed_all(self, idxs: Seq<usize>) -> CacheView
        decreases idxs.len(),
    {
        if idxs.len() == 0 {
            self
        } else {
            self.removed_all(idxs.drop_last()).removed(idxs.last())
        }
    }

    /// Of the slots `idxs` given up in order, those whose descriptor the
    /// map still held when the slot's turn came.
    pub open spec fn dropped_of(self, idxs: Seq<usize>) -> Seq<usize>
        decreases idxs.len(),
    {
        if idxs.len() == 0 {
            Seq::<usize>::empty()
        } else {
            let before = self.removed_all(idxs.drop_last());
            let rest = self.dropped_of(idxs.drop_last());
            if before.map.contains_key(before.nodes[idxs.last() as int].fd) {
                rest.push(idxs.last())
            } else {
                rest
            }
        }
    }

    /// The slots among the first `k` whose entries are stale at `now`,
    /// in slot order.
    pub open spec fn stale_upto(self, now: i128, k: int) -> Seq<usize>
        decreases k,
    {
        if k <= 0 {
            Seq::<usize>::empty()
        } else if stale_at(self.nodes[k - 1].value, now) {
            self.stale_upto(now, k - 1).push((k - 1) as usize)
        } else {
            self.stale_upto(now, k - 1)
        }
    }

    pub open spec fn stale_slots(self, now: i128) -> Seq<usize> {
        self.stale_upto(now, self.nodes.len() as int)
    }
}

pub struct Cache {
    request: HashMap<i32, usize>,
    list: Vec<Node>,
    free_indx: VecDeque<usize>,
    head: Option<usize>,
    tail: Option<usize>,
    next_file_descriptor: i32,
    capacity: u32,
}

impl View for Cache {
    type V = CacheView;

    closed spec fn view(&self) -> CacheView {
        CacheView {
            map: self.request@,
            nodes: self.list@.map_values(|n: Node| n@),
            free: self.free_indx@,
            head: self.head,
            tail: self.tail,
            next_fd: self.next_file_descriptor,
            capacity: self.capacity,
        }
    }
}

/// What the cache answers to a read.
#[derive(Debug, PartialEq, Eq)]
pub enum CacheRead {
    /// The cached entry held enough bytes: here they are.
    Hit(Vec<u8>),
    /// The descriptor is cached in this slot, but its entry holds too
    /// few bytes: the entry must be fetched again.
    Refresh(usize),
    /// The descriptor is not cached.
    Miss,
}

/// What a sweep gives up.
#[derive(Debug, PartialEq, Eq)]
pub struct Sweep {
    /// The descriptors of all stale slots, in slot order, dropped or not.
    pub fds: Vec<i32>,
    /// The stale slots whose descriptor was dropped from the map, in
    /// order; their entries are to be written back to the server.
    pub dropped: Vec<usize>,
}

/// What a read does to the cache and answers.
pub open spec fn read_outcome(v: CacheView, fd: i32, read_count: u32) -> (CacheView, Option<Option<Seq<u8>>>) {
    match v.lookup(fd) {
        None => (v, None),
        Some(i) => {
            let node = v.nodes[i as int];
            (v.touched(node.indx), Some(read_answer(node.value, read_count)))
        },
    }
}

/// Whether a read can slice the cached bytes it answers from.
pub open spec fn read_safe(v: CacheView, fd: i32, read_count: u32) -> bool {
    v.lookup(fd) matches Some(i) ==> read_fits(v.nodes[i as int].value, read_count)
}

/// Whether a write can count its bytes and, on a miss, find a slot.
pub open spec fn write_safe(v: CacheView, fd: i32, len: nat, append: bool) -> bool {
    match v.lookup(fd) {
        Some(i) => write_fits(v.nodes[i as int].value, len, append),
        None => v.capacity > 0,
    }
}

impl Cache {
    /// The invariant that every operation keeps: the view is `well_formed`.
    pub open spec fn wf(&self) -> bool {
        self@.well_formed()
    }

    /// A cache of `capacity` slots, all free and holding placeholder
    /// entries; descriptors are handed out from 1.
    pub fn new(capacity: u32) -> (c: Cache)
        ensures
            c.wf(),
            c@.capacity == capacity,
            c@.map == Map::<i32, usize>::empty(),
            c@.free == Seq::new(capacity as nat, |i: int| i as usize),
            c@.nodes.len() == capacity,
            forall|i: int|
                0 <= i < capacity ==> {
                    &&& (#[trigger] c@.nodes[i]).fd == 0
                    &&& c@.nodes[i].indx == 0
                    &&& c@.nodes[i].prev is None
                    &&& c@.nodes[i].next is None
                    &&& c@.nodes[i].value.file_name == "DOESN'T EXIST"@
                    &&& !c@.nodes[i].value.dirty
                    &&& c@.nodes[i].value.read_count == 0
                    &&& c@.nodes[i].value.data.len() == 0
                },
            c@.head is None,
            c@.tail is None,
            c@.next_fd == 1,
    {
        let mut free_indx: VecDeque<usize> = VecDeque::with_capacity(capacity as usize);
        let mut i: u32 = 0;
        while i < capacity
            invariant
                i <= capacity,
                free_indx@ == Seq::new(i as nat, |k: int| k as usize),
            decreases capacity - i,
        {
            free_indx.push_back(i as usize);
            i = i + 1;
            assert(free_indx@ =~= Seq::new(i as nat, |k: int| k as usize));
        }
        let mut list: Vec<Node> = Vec::with_capacity(capacity as usize);
        let mut j: u32 = 0;
        while j < capacity
            invariant
                j <= capacity,
                list@.len() == j,
                forall|k: int|
                    0 <= k < j ==> {
                        &&& (#[trigger] list@[k]).fd == 0
                        &&& list@[k].indx == 0
                        &&& list@[k].prev is None
                        &&& list@[k].next is None
                        &&& list@[k].value@.file_name == "DOESN'T EXIST"@
                        &&& !list@[k].value@.dirty
                        &&& list@[k].value@.read_count == 0
                        &&& list@[k].value@.data.len() == 0
                    },
            decreases capacity - j,
        {
            list.push(Node::default());
            j = j + 1;
        }
        let c = Cache {
            request: HashMap::with_capacity(capacity as usize),
            list,
            head: None,
            tail: None,
            free_indx,
            next_file_descriptor: 1,
            capacity,
        };
        proof {
            let v = c@;
            recency::lemma_empty_list(v);
            let e = Seq::<usize>::empty();
            assert(v.free.no_duplicates());
            assert forall|s: usize| s < v.nodes.len() implies (#[trigger] e.contains(s) <==> !v.free.contains(s)) by {
                assert(v.free[s as int] == s);
            }
            assert(forall|s: usize| s < v.nodes.len() ==> (#[trigger] v.free.contains(s) <==> !e.contains(s)));
            assert(v.recency_ok(e));
            assert forall|i: int| 0 <= i < capacity implies {
                &&& (#[trigger] c@.nodes[i]).fd == 0
                &&& c@.nodes[i].indx == 0
                &&& c@.nodes[i].prev is None
                &&& c@.nodes[i].next is None
                &&& c@.nodes[i].value.file_name == "DOESN'T EXIST"@
                &&& !c@.nodes[i].value.dirty
                &&& c@.nodes[i].value.read_count == 0
                &&& c@.nodes[i].value.data.len() == 0
            } by {
                assert(c@.nodes[i] == list@[i]@);
            }
        }
        c
    }

    /// The next descriptor, and the counter moved on.
    pub fn generate_fd(&mut self) -> (fd: i32)
        requires
            old(self).wf(),
            old(self)@.next_fd < i32::MAX,
        ensures
            final(self).wf(),
            fd == old(self)@.next_fd % i32::MAX,
            final(self)@ == (CacheView { next_fd: (old(self)@.next_fd + 1) as i32, ..old(self)@ }),
    {
        let res = self.next_file_descriptor % i32::MAX;
        self.next_file_descriptor = self.next_file_descriptor + 1;
        proof {
            let order = choose|o: Seq<usize>| old(self)@.recency_ok(o);
            assert(self@.recency_ok(order));
        }
        res
    }

    /// The counter that `generate_fd` hands out next.
    pub fn next_fd(&self) -> (r: i32)
        ensures
            r == self@.next_fd,
    {
        self.next_file_descriptor
    }

    /// The number of slots.
    pub fn capacity(&self) -> (r: u32)
        ensures
            r == self@.capacity,
    {
        self.capacity
    }

    /// The slot that the map gives for `fd`.
    pub fn get_node(&self, fd: i32) -> (r: Option<usize>)
        ensures
            r == self@.lookup(fd),
    {
        match self.request.get(&fd) {
            Some(i) => Some(*i),
            None => None,
        }
    }

    /// The entry in slot `i`.
    pub fn entry(&self, i: usize) -> (e: &Entry)
        requires
            self.wf(),
            i < self@.nodes.len(),
        ensures
            e@ == self@.nodes[i as int].value,
    {
        &self.list[i].value
    }

    fn unlink(&mut self, idx: usize)
        requires
            old(self)@.links_ok(),
            old(self).list@.len() == old(self).capacity,
            idx < old(self)@.nodes.len(),
        ensures
            final(self)@ == old(self)@.unlinked(idx),
            final(self).list@.len() == old(self).list@.len(),
            final(self).capacity == old(self).capacity,
    {
        let prev = self.list[idx].prev;
        let next = self.list[idx].next;
        let ghost v0 = self@;
        match prev {
            Some(p) => {
                self.list[p].next = next;
                assert(self@.nodes =~= v0.set_next(p, next).nodes);
            },
            None => {
                self.head = next;
            },
        }
        let ghost v1 = self@;
        match next {
            Some(n) => {
                self.list[n].prev = prev;
                assert(self@.nodes =~= v1.set_prev(n, prev).nodes);
            },
            None => {
                self.tail = prev;
            },
        }
    }

    fn push_front(&mut self, idx: usize)
        requires
            old(self)@.links_ok(),
            old(self).list@.len() == old(self).capacity,
            idx < old(self)@.nodes.len(),
        ensures
            final(self)@ == old(self)@.pushed_front(idx),
            final(self).list@.len() == old(self).list@.len(),
            final(self).capacity == old(self).capacity,
    {
        let old_head = self.head;
        let ghost v0 = self@;
        self.list[idx].prev = None;
        self.list[idx].next = old_head;
        assert(self@.nodes =~= v0.set_prev(idx, None).set_next(idx, old_head).nodes);
        let ghost v1 = self@;
        match old_head {
            Some(h) => {
                self.list[h].prev = Some(idx);
                assert(self@.nodes =~= v1.set_prev(h, Some(idx)).nodes);
            },
            None => {},
        }
        self.head = Some(idx);
        if self.tail.is_none() {
            self.tail = Some(idx);
        }
    }

    /// Moves slot `indx`, one in the recency list (that is, not queued
    /// free), to the head of the list; the others keep their order.
    pub fn touch(&mut self, indx: usize)
        requires
            old(self).wf(),
            indx < old(self)@.nodes.len(),
            !old(self)@.free.contains(indx),
        ensures
            final(self).wf(),
            final(self)@ == old(self)@.touched(indx),
            forall|order: Seq<usize>|
                #[trigger] old(self)@.recency_ok(order) ==> final(self)@.recency_ok(
                    seq![indx] + order.remove(order.index_of(indx)),
                ),
    {
        self.unlink(indx);
        proof { lemma_unlinked_wf(old(self)@, indx); }
        self.push_front(indx);
        proof {
            let v = old(self)@;
            lemma_pushed_front_wf(v.unlinked(indx), indx);
            assert forall|order: Seq<usize>| #[trigger] v.recency_ok(order) implies self@.recency_ok(
                seq![indx] + order.remove(order.index_of(indx)),
            ) by {
                assert(order.contains(indx));
                recency::lemma_touch_recency(v, order, order.index_of(indx));
            }
            let order = choose|o: Seq<usize>| v.recency_ok(o);
            assert(self@.recency_ok(seq![indx] + order.remove(order.index_of(indx))));
        }
    }
}

/// A fresh entry for `name`, read at `t`, after `write_data(data, append)`.
pub open spec fn fresh_written(name: Seq<char>, t: i128, data: Seq<u8>, append: bool) -> EntryView {
    written(
        EntryView { file_name: name, last_requested: t, dirty: false, read_count: 0, data: Seq::<u8>::empty() },
        data,
        append,
    )
}

/// The cache after a client's write under `fd`: into the cached entry,
/// or into a fresh entry for `name` (read at `t`) that is inserted.
pub open spec fn after_write(v: CacheView, fd: i32, data: Seq<u8>, append: bool, name: Seq<char>, t: i128) -> CacheView {
    match v.lookup(fd) {
        Some(i) => v.set_value(i, written(v.nodes[i as int].value, data, append)),
        None => v.inserted(fresh_written(name, t, data, append), fd),
    }
}

/// An insertion maps `fd` to the slot it takes, which holds the entry;
/// the descriptor it evicts, if any, is no longer cached, and every other
/// descriptor keeps its slot.
pub proof fn lemma_insert_then_lookup(v: CacheView, e: EntryView, fd: i32)
    requires
        v.well_formed(),
        v.capacity > 0,
    ensures
        v.inserted(e, fd).lookup(fd) == Some(v.insert_slot()),
        v.inserted(e, fd).nodes[v.insert_slot() as int].value == e,
        v.inserted(e, fd).nodes[v.insert_slot() as int].fd == fd,
        v.inserted(e, fd).well_formed(),
        v.evicted_fd() is Some && v.evicted_fd()->0 != fd ==> v.inserted(e, fd).lookup(v.evicted_fd()->0) is None,
        forall|g: i32|
            g != fd && v.evicted_fd() != Some(g) ==> #[trigger] v.inserted(e, fd).lookup(g) == v.lookup(g),
{
    let order = choose|o: Seq<usize>| v.recency_ok(o);
    recency::lemma_inserted_recency(v, order, e, fd);
    let w = v.inserted(e, fd);
    assert(w.recency_ok(recency::order_after_insert(v, order)));
    if v.free.len() == 0 {
        recency::lemma_full_listed(v, order);
    } else {
        assert(v.free[0] < v.nodes.len());
    }
    lemma_inserted_facts(v, e, fd);
}

/// What an insertion leaves of the map and the nodes, slot by slot.
proof fn lemma_inserted_facts(v: CacheView, e: EntryView, fd: i32)
    requires
        v.well_formed(),
        v.capacity > 0,
    ensures
        v.inserted(e, fd).nodes[v.insert_slot() as int].value == e,
        v.inserted(e, fd).nodes[v.insert_slot() as int].fd == fd,
        v.inserted(e, fd).map == (if v.evicted_fd() is Some { v.map.remove(v.evicted_fd()->0) } else { v.map }).insert(
            fd,
            v.insert_slot(),
        ),
        v.inserted(e, fd).next_fd == v.next_fd,
        v.inserted(e, fd).capacity == v.capacity,
{
    let order = choose|o: Seq<usize>| v.recency_ok(o);
    if v.free.len() == 0 {
        recency::lemma_full_listed(v, order);
    }
    let i = v.insert_slot();
    let node = NodeView { fd, indx: i, value: e, prev: None, next: None };
    if v.free.len() > 0 {
        assert(v.free[0] < v.nodes.len());
        let v1 = CacheView { free: v.free.subrange(1, v.free.len() as int), ..v };
        let v1n = CacheView { nodes: v1.nodes.update(i as int, node), ..v1 };
        assert(v1n.links_ok()) by {
            assert forall|k: int| 0 <= k < v1n.free.len() implies #[trigger] v1n.free[k] < v1n.nodes.len() by {
                assert(v1n.free[k] == v.free[k + 1]);
            }
        }
        lemma_pushed_front_wf(v1n, i);
    } else {
        let w0 = if v.holds(i) { CacheView { map: v.map.remove(v.nodes[i as int].fd), ..v } } else { v };
        assert(w0.links_ok());
        lemma_unlinked_wf(w0, i);
        let v1 = w0.unlinked(i);
        let v1n = CacheView { nodes: v1.nodes.update(i as int, node), ..v1 };
        assert(v1n.links_ok());
        lemma_pushed_front_wf(v1n, i);
    }
}

/// A read of a cached descriptor makes its slot the most recent: the
/// slot goes to the front of the recency order, the other slots keep
/// their order, and no entry, descriptor or free slot changes.
pub proof fn lemma_read_recency(v: CacheView, order: Seq<usize>, fd: i32, n: u32)
    requires
        v.well_formed(),
        v.recency_ok(order),
        v.lookup(fd) is Some,
    ensures
        ({
            let i = v.lookup(fd)->0;
            let w = read_outcome(v, fd, n).0;
            &&& v.nodes[i as int].indx == i
            &&& order.contains(i)
            &&& w.recency_ok(seq![i] + order.remove(order.index_of(i)))
            &&& w.head == Some(i)
            &&& w.well_formed()
            &&& w.map == v.map
            &&& w.free == v.free
            &&& forall|k: int| 0 <= k < v.nodes.len() ==> (#[trigger] w.nodes[k]).value == v.nodes[k].value
                && w.nodes[k].fd == v.nodes[k].fd
        }),
{
    let i = v.lookup(fd)->0;
    assert(v.map.contains_key(fd));
    assert(order.contains(i));
    let k = order.index_of(i);
    recency::lemma_touch_recency(v, order, k);
    lemma_unlinked_wf(v, i);
    lemma_pushed_front_wf(v.unlinked(i), i);
    let w = read_outcome(v, fd, n).0;
    assert(w == v.touched(i));
    assert(w.recency_ok(seq![i] + order.remove(k)));
}

/// A sweep that gives up a slot the map still sends its descriptor to
/// leaves that descriptor uncached, queues the slot free at the back,
/// drops it from the recency order (the others keep theirs), keeps the
/// invariant, and leaves the slot's entry in place to be written back.
pub proof fn lemma_remove_recency(v: CacheView, order: Seq<usize>, i: usize)
    requires
        v.well_formed(),
        v.recency_ok(order),
        i < v.nodes.len(),
        v.holds(i),
    ensures
        ({
            let w = v.removed(i);
            &&& order.contains(i)
            &&& w.lookup(v.nodes[i as int].fd) is None
            &&& forall|g: i32| g != v.nodes[i as int].fd ==> #[trigger] w.lookup(g) == v.lookup(g)
            &&& w.free == v.free.push(i)
            &&& w.recency_ok(order.remove(order.index_of(i)))
            &&& w.well_formed()
            &&& w.nodes[i as int].value == v.nodes[i as int].value
        }),
{
    recency::lemma_removed_recency(v, order, i);
    let v1 = CacheView { map: v.map.remove(v.nodes[i as int].fd), ..v };
    assert(v1.links_ok());
    lemma_unlinked_wf(v1, i);
    let w = v.removed(i);
    assert(w.recency_ok(order.remove(order.index_of(i))));
}

/// A sweep that reaches a slot whose descriptor the map sends to another
/// slot drops that descriptor from the map and changes nothing else; the
/// invariant holds with the same recency order.
pub proof fn lemma_remove_moved(v: CacheView, order: Seq<usize>, i: usize)
    requires
        v.well_formed(),
        v.recency_ok(order),
        i < v.nodes.len(),
        v.map.contains_key(v.nodes[i as int].fd),
        !v.holds(i),
    ensures
        v.removed(i) == (CacheView { map: v.map.remove(v.nodes[i as int].fd), ..v }),
        v.removed(i).recency_ok(order),
        v.removed(i).well_formed(),
{
    let w = v.removed(i);
    assert forall|g: i32| #[trigger] w.map.contains_key(g) implies {
        &&& order.contains(w.map[g])
        &&& w.nodes[w.map[g] as int].indx == w.map[g]
        &&& w.nodes[w.map[g] as int].fd == g
    } by {
        assert(v.map.contains_key(g));
    }
    assert(w.recency_ok(order));
}

/// The slots a sweep at `now` gives up among the first `k` are exactly
/// those whose entry is stale at `now`, each slot's fate independent of
/// the others', in increasing slot order.
pub proof fn lemma_stale_upto(v: CacheView, now: i128, k: int)
    requires
        0 <= k <= v.nodes.len() <= usize::MAX,
    ensures
        forall|i: usize|
            #[trigger] v.stale_upto(now, k).contains(i) <==> (i < k && stale_at(v.nodes[i as int].value, now)),
        forall|a: int, b: int|
            0 <= a < b < v.stale_upto(now, k).len() ==> v.stale_upto(now, k)[a] < v.stale_upto(now, k)[b],
        forall|a: int| 0 <= a < v.stale_upto(now, k).len() ==> #[trigger] v.stale_upto(now, k)[a] < k,
    decreases k,
{
    if k > 0 {
        lemma_stale_upto(v, now, k - 1);
        let p = v.stale_upto(now, k - 1);
        let q = v.stale_upto(now, k);
        let last = (k - 1) as usize;
        if stale_at(v.nodes[k - 1].value, now) {
            assert(q == p.push(last));
            assert forall|i: usize| #[trigger] q.contains(i) <==> (i < k && stale_at(v.nodes[i as int].value, now)) by {
                if q.contains(i) {
                    let j = choose|j: int| 0 <= j < q.len() && q[j] == i;
                    if j < p.len() {
                        assert(p[j] == i);
                        assert(p.contains(i));
                    }
                }
                if i < k && stale_at(v.nodes[i as int].value, now) {
                    if i == last {
                        assert(q[p.len() as int] == i);
                    } else {
                        assert(p.contains(i));
                        let j = choose|j: int| 0 <= j < p.len() && p[j] == i;
                        assert(q[j] == i);
                    }
                }
            }
            assert forall|a: int| 0 <= a < q.len() implies #[trigger] q[a] < k by {
                if a < p.len() {
                    assert(q[a] == p[a]);
                }
            }
        } else {
            assert(q == p);
            assert forall|i: usize| #[trigger] q.contains(i) <==> (i < k && stale_at(v.nodes[i as int].value, now)) by {
                if i == last {
                    if q.contains(i) {
                        let j = choose|j: int| 0 <= j < q.len() && q[j] == i;
                        assert(p[j] < k - 1);
                    }
                }
            }
        }
    }
}

/// A sweep at `now` gives up exactly the slots whose entry is stale at
/// `now`, in increasing slot order, whatever the staleness of the others.
pub proof fn lemma_stale_slots(v: CacheView, now: i128)
    requires
        v.well_formed(),
    ensures
        forall|i: usize|
            i < v.nodes.len() ==> (#[trigger] v.stale_slots(now).contains(i) <==> stale_at(
                v.nodes[i as int].value,
                now,
            )),
        forall|a: int, b: int|
            0 <= a < b < v.stale_slots(now).len() ==> v.stale_slots(now)[a] < v.stale_slots(now)[b],
        forall|a: int| 0 <= a < v.stale_slots(now).len() ==> #[trigger] v.stale_slots(now)[a] < v.nodes.len(),
{
    lemma_stale_upto(v, now, v.nodes.len() as int);
}

/// Giving up slots keeps the invariant and every slot's descriptor, only
/// ever drops descriptors from the map, and leaves none of the given-up
/// slots' descriptors cached.
pub proof fn lemma_removed_all_drops(v: CacheView, idxs: Seq<usize>)
    requires
        v.well_formed(),
        forall|m: int| 0 <= m < idxs.len() ==> #[trigger] idxs[m] < v.nodes.len(),
    ensures
        v.removed_all(idxs).well_formed(),
        v.removed_all(idxs).nodes.len() == v.nodes.len(),
        forall|k: int| 0 <= k < v.nodes.len() ==> (#[trigger] v.removed_all(idxs).nodes[k]).fd == v.nodes[k].fd,
        forall|g: i32| #[trigger] v.removed_all(idxs).map.contains_key(g) ==> v.map.contains_key(g),
        forall|m: int|
            0 <= m < idxs.len() ==> !v.removed_all(idxs).map.contains_key(v.nodes[#[trigger] idxs[m] as int].fd),
    decreases idxs.len(),
{
    if idxs.len() > 0 {
        let p = idxs.drop_last();
        let i = idxs.last();
        assert(forall|m: int| 0 <= m < p.len() ==> #[trigger] p[m] == idxs[m]);
        lemma_removed_all_drops(v, p);
        let u = v.removed_all(p);
        let w = u.removed(i);
        assert(w == v.removed_all(idxs));
        let order = choose|o: Seq<usize>| u.recency_ok(o);
        let f = u.nodes[i as int].fd;
        if u.holds(i) {
            lemma_remove_recency(u, order, i);
            let u1 = CacheView { map: u.map.remove(f), ..u };
            assert(u1.links_ok());
            lemma_unlinked_wf(u1, i);
        } else if u.map.contains_key(f) {
            lemma_remove_moved(u, order, i);
        }
        assert forall|m: int| 0 <= m < idxs.len() implies !w.map.contains_key(v.nodes[#[trigger] idxs[m] as int].fd) by {
            if m < p.len() {
                assert(!u.map.contains_key(v.nodes[p[m] as int].fd));
            }
        }
    }
}

/// With no slot free, an insertion takes the least recently used slot,
/// hands out the entry it held, makes the map forget that slot's
/// descriptor, and leaves the new slot at the front of the order with
/// the others behind it in their order.
pub proof fn lemma_evict(v: CacheView, order: Seq<usize>, e: EntryView, fd: i32)
    requires
        v.well_formed(),
        v.recency_ok(order),
        v.capacity > 0,
        v.free.len() == 0,
    ensures
        order.len() > 0,
        v.insert_slot() == order.last(),
        v.evicted() == Some(v.nodes[order.last() as int].value),
        v.inserted(e, fd).recency_ok(seq![order.last()] + order.drop_last()),
        v.inserted(e, fd).well_formed(),
        v.holds(order.last()) ==> v.evicted_fd() == Some(v.nodes[order.last() as int].fd),
        v.evicted_fd() is Some && v.evicted_fd()->0 != fd ==> v.inserted(e, fd).lookup(v.evicted_fd()->0) is None,
{
    recency::lemma_full_listed(v, order);
    recency::lemma_inserted_recency(v, order, e, fd);
    lemma_insert_then_lookup(v, e, fd);
}

/// A read after a write under the same descriptor answers with the
/// written bytes, whether the write hit the cache or inserted an entry.
pub proof fn lemma_write_then_read(v: CacheView, fd: i32, data: Seq<u8>, name: Seq<char>, t: i128, n: u32)
    requires
        v.well_formed(),
        write_safe(v, fd, data.len(), false),
        n <= data.len() <= u32::MAX,
    ensures
        read_safe(after_write(v, fd, data, false, name, t), fd, n),
        read_outcome(after_write(v, fd, data, false, name, t), fd, n).1 == Some(Some(data.subrange(0, n as int))),
{
    let w = after_write(v, fd, data, false, name, t);
    match v.lookup(fd) {
        Some(i) => {
            entry::lemma_write_then_read(v.nodes[i as int].value, data, n);
            assert(w.lookup(fd) == Some(i));
        },
        None => {
            let e = fresh_written(name, t, data, false);
            lemma_insert_then_lookup(v, e, fd);
            entry::lemma_write_then_read(
                EntryView { file_name: name, last_requested: t, dirty: false, read_count: 0, data: Seq::<u8>::empty() },
                data,
                n,
            );
        },
    }
}

/// Descriptors are handed out in order: the counter itself, then one more.
pub proof fn lemma_fd_sequence(v: CacheView)
    requires
        v.well_formed(),
        v.next_fd < i32::MAX - 1,
    ensures
        v.next_fd % i32::MAX == v.next_fd,
        (v.next_fd + 1) % (i32::MAX as int) == v.next_fd + 1,
{
}

impl Cache {
    /// Puts `entry` under `fd`: into the first free slot, or, with none
    /// free, into the tail's slot, the least recently used; either way
    /// the slot moves to the head. The entry that the tail's slot held is
    /// handed back, so that its writes can be sent to the server.
    #[verifier::rlimit(40)]
    pub fn insert(&mut self, entry: Entry, fd: i32) -> (evicted: Option<Entry>)
        requires
            old(self).wf(),
            old(self)@.capacity > 0,
        ensures
            final(self).wf(),
            final(self)@ == old(self)@.inserted(entry@, fd),
            evicted is None <==> old(self)@.evicted() is None,
            evicted is Some ==> old(self)@.evicted() == Some(evicted->0@),
            forall|order: Seq<usize>|
                #[trigger] old(self)@.recency_ok(order) ==> final(self)@.recency_ok(
                    recency::order_after_insert(old(self)@, order),
                ),
    {
        let ghost v0 = self@;
        let ghost e = entry@;
        proof {
            let order = choose|o: Seq<usize>| v0.recency_ok(o);
            if v0.free.len() == 0 {
                recency::lemma_full_listed(v0, order);
            }
        }
        let mut node = Node { fd, indx: 0, value: entry, prev: None, next: None };
        let evicted = match self.free_indx.pop_front() {
            Some(indx) => {
                node.indx = indx;
                assert(v0.free.len() > 0 && indx == v0.free[0]);
                let ghost v1 = self@;
                assert(v1 == CacheView { free: v0.free.subrange(1, v0.free.len() as int), ..v0 });
                self.list.set(indx, node);
                assert(self@.nodes =~= v1.nodes.update(indx as int, NodeView { fd, indx, value: e, prev: None, next: None }));
                assert(self@.links_ok()) by {
                    assert forall|k: int| 0 <= k < self@.free.len() implies #[trigger] self@.free[k] < self@.nodes.len() by {
                        assert(self@.free[k] == v0.free[k + 1]);
                    }
                }
                self.push_front(indx);
                self.request.insert(fd, indx);
                None
            },
            None => {
                let tail = match self.tail {
                    Some(t) => t,
                    None => { assert(false); 0 },
                };
                node.indx = tail;
                let old_fd = self.list[tail].fd;
                let held = match self.request.get(&old_fd) {
                    Some(s) => *s == tail,
                    None => false,
                };
                if held {
                    self.request.remove(&old_fd);
                }
                let ghost w0 = self@;
                assert(w0 == (if v0.holds(tail) { CacheView { map: v0.map.remove(v0.nodes[tail as int].fd), ..v0 } } else { v0 }));
                assert(w0.links_ok());
                self.unlink(tail);
                proof { lemma_unlinked_wf(w0, tail); }
                let ghost v1 = self@;
                let ghost taken = self.list@[tail as int];
                assert(v1.nodes[tail as int] == taken@);
                assert(taken@.value == v0.nodes[tail as int].value);
                self.list.set_and_swap(tail, &mut node);
                assert(node == taken);
                assert(self@.nodes =~= v1.nodes.update(tail as int, NodeView { fd, indx: tail, value: e, prev: None, next: None }));
                assert(self@.links_ok());
                self.push_front(tail);
                self.request.insert(fd, tail);
                Some(node.value)
            },
        };
        proof {
            lemma_inserted_facts(v0, e, fd);
            assert(self@ =~= v0.inserted(e, fd));
            assert forall|order: Seq<usize>| #[trigger] v0.recency_ok(order) implies self@.recency_ok(
                recency::order_after_insert(v0, order),
            ) by {
                recency::lemma_inserted_recency(v0, order, e, fd);
            }
            let order = choose|o: Seq<usize>| v0.recency_ok(o);
            assert(self@.recency_ok(recency::order_after_insert(v0, order)));
        }
        evicted
    }

    /// Whether a read of `read_count` bytes under `fd` can slice the
    /// cached bytes; `read_file` is not defined otherwise.
    pub fn read_fits(&self, fd: i32, read_count: u32) -> (r: bool)
        requires
            self.wf(),
        ensures
            r == read_safe(self@, fd, read_count),
    {
        match self.get_node(fd) {
            None => true,
            Some(i) => {
                let e = &self.list[i].value;
                read_count > e.read_count() || (read_count as usize) <= e.data().len()
            },
        }
    }

    /// Answers a read of `read_count` bytes under `fd` from the cache.
    /// A cached descriptor's slot (as its node records it) moves to the
    /// head, whether or not its entry holds enough bytes.
    pub fn read_file(&mut self, fd: i32, read_count: u32) -> (r: CacheRead)
        requires
            old(self).wf(),
            read_safe(old(self)@, fd, read_count),
        ensures
            final(self).wf(),
            match old(self)@.lookup(fd) {
                None => r is Miss && final(self)@ == old(self)@,
                Some(i) => {
                    let node = old(self)@.nodes[i as int];
                    &&& final(self)@ == old(self)@.touched(node.indx)
                    &&& match read_answer(node.value, read_count) {
                        Some(b) => r matches CacheRead::Hit(v) && v@ == b,
                        None => r matches CacheRead::Refresh(j) && j == node.indx,
                    }
                },
            },
            old(self)@.lookup(fd) matches Some(i) ==> {
                &&& old(self)@.nodes[i as int].indx == i
                &&& forall|order: Seq<usize>|
                    #[trigger] old(self)@.recency_ok(order) ==> final(self)@.recency_ok(
                        seq![i] + order.remove(order.index_of(i)),
                    )
            },
    {
        match self.get_node(fd) {
            Some(i) => {
                let indx = self.list[i].indx;
                let result = self.list[i].value.read_data(read_count);
                proof {
                    let v = self@;
                    let order = choose|o: Seq<usize>| v.recency_ok(o);
                    assert(v.map.contains_key(fd));
                    assert(indx == i);
                    assert(order.contains(i));
                }
                self.touch(indx);
                match result {
                    Some(val) => CacheRead::Hit(val),
                    None => CacheRead::Refresh(indx),
                }
            },
            None => CacheRead::Miss,
        }
    }

    /// Keeps the server's reply to a read in slot `i`'s entry and answers
    /// with the bytes kept.
    pub fn store_read_reply(&mut self, i: usize, reply: Vec<u8>, now: i128) -> (r: Vec<u8>)
        requires
            old(self).wf(),
            i < old(self)@.nodes.len(),
            reply@.len() >= 1,
        ensures
            final(self).wf(),
            final(self)@ == old(self)@.set_value(i, fetched(old(self)@.nodes[i as int].value, reply@, now)),
            r@ == final(self)@.nodes[i as int].value.data,
    {
        let ghost v0 = self@;
        let r = self.list[i].value.store_read_reply(reply, now);
        assert(self@.nodes =~= v0.set_value(i, fetched(v0.nodes[i as int].value, reply@, now)).nodes);
        assert(self@ =~= v0.set_value(i, fetched(v0.nodes[i as int].value, reply@, now)));
        proof {
            let order = choose|o: Seq<usize>| v0.recency_ok(o);
            recency::lemma_set_value_recency(v0, order, i, fetched(v0.nodes[i as int].value, reply@, now));
        }
        r
    }

    /// Records that slot `i`'s entry has been written back.
    pub fn mark_clean(&mut self, i: usize)
        requires
            old(self).wf(),
            i < old(self)@.nodes.len(),
        ensures
            final(self).wf(),
            final(self)@ == old(self)@.set_value(i, EntryView { dirty: false, ..old(self)@.nodes[i as int].value }),
    {
        let ghost v0 = self@;
        self.list[i].value.mark_clean();
        assert(self@.nodes =~= v0.set_value(i, EntryView { dirty: false, ..v0.nodes[i as int].value }).nodes);
        assert(self@ =~= v0.set_value(i, EntryView { dirty: false, ..v0.nodes[i as int].value }));
        proof {
            let order = choose|o: Seq<usize>| v0.recency_ok(o);
            recency::lemma_set_value_recency(v0, order, i, EntryView { dirty: false, ..v0.nodes[i as int].value });
        }
    }

    /// Takes a client's write under `fd`: into the cached entry, or into
    /// a new entry for `file_name` that is inserted. What the insertion
    /// evicts is handed back, as `insert` does.
    pub fn write_file(&mut self, fd: i32, data: Vec<u8>, append: bool, file_name: String) -> (evicted: Option<Entry>)
        requires
            old(self).wf(),
            write_safe(old(self)@, fd, data@.len(), append),
        ensures
            final(self).wf(),
            match old(self)@.lookup(fd) {
                Some(i) => {
                    &&& final(self)@ == old(self)@.set_value(i, written(old(self)@.nodes[i as int].value, data@, append))
                    &&& evicted is None
                },
                None => {
                    let slot = old(self)@.insert_slot();
                    &&& final(self)@ == old(self)@.inserted(
                        fresh_written(file_name@, final(self)@.nodes[slot as int].value.last_requested, data@, append),
                        fd,
                    )
                    &&& (evicted is None <==> old(self)@.evicted() is None)
                    &&& (evicted is Some ==> old(self)@.evicted() == Some(evicted->0@))
                },
            },
            final(self)@ == after_write(old(self)@, fd, data@, append, file_name@,
                final(self)@.nodes[old(self)@.insert_slot() as int].value.last_requested),
    {
        let ghost v0 = self@;
        let ghost d = data@;
        match self.get_node(fd) {
            Some(i) => {
                self.list[i].value.write_data(data, append);
                assert(self@.nodes =~= v0.set_value(i, written(v0.nodes[i as int].value, d, append)).nodes);
                assert(self@ =~= v0.set_value(i, written(v0.nodes[i as int].value, d, append)));
                proof {
                    let order = choose|o: Seq<usize>| v0.recency_ok(o);
                    recency::lemma_set_value_recency(v0, order, i, written(v0.nodes[i as int].value, d, append));
                }
                None
            },
            None => {
                let mut entry = Entry::new(file_name);
                let ghost t = entry@.last_requested;
                assert(entry@.data =~= Seq::<u8>::empty());
                entry.write_data(data, append);
                let ghost e = entry@;
                assert(e == fresh_written(file_name@, t, d, append));
                let evicted = self.insert(entry, fd);
                proof {
                    lemma_inserted_facts(v0, e, fd);
                    assert(self@.nodes[v0.insert_slot() as int].value == e);
                }
                evicted
            },
        }
    }


    /// Gives up slot `indx`: if the map holds the slot's descriptor, drops
    /// it, and if the map sent it to this slot, unlinks the slot and queues
    /// it free. Says whether the descriptor was dropped, in which case the
    /// slot's entry is to be written back.
    pub fn remove_node(&mut self, indx: usize) -> (r: bool)
        requires
            old(self).wf(),
            indx < old(self)@.nodes.len(),
        ensures
            final(self).wf(),
            final(self)@ == old(self)@.removed(indx),
            r == old(self)@.map.contains_key(old(self)@.nodes[indx as int].fd),
    {
        let ghost v0 = self@;
        let fd = self.list[indx].fd;
        let slot = match self.request.get(&fd) {
            Some(s) => *s,
            None => {
                return false;
            },
        };
        self.request.remove(&fd);
        let ghost v1 = self@;
        assert(v1 == CacheView { map: v0.map.remove(fd), ..v0 });
        assert(v1.links_ok());
        if slot == indx {
            self.unlink(indx);
            self.free_indx.push_back(indx);
            proof {
                let order = choose|o: Seq<usize>| v0.recency_ok(o);
                lemma_remove_recency(v0, order, indx);
                assert(self@ =~= v0.removed(indx));
            }
        } else {
            proof {
                let order = choose|o: Seq<usize>| v0.recency_ok(o);
                lemma_remove_moved(v0, order, indx);
            }
        }
        true
    }

    /// Gives up every slot whose entry is stale by the clock; as
    /// `sweep_cache_at` does at the clock's reading, which is not known.
    pub fn sweep_cache(&mut self) -> (s: Sweep)
        requires
            old(self).wf(),
        ensures
            final(self).wf(),
            exists|now: i128|
                {
                    &&& s.fds@ == old(self)@.stale_slots(now).map_values(|i: usize| old(self)@.nodes[i as int].fd)
                    &&& final(self)@ == old(self)@.removed_all(old(self)@.stale_slots(now))
                    &&& s.dropped@ == old(self)@.dropped_of(old(self)@.stale_slots(now))
                    &&& forall|i: int|
                        0 <= i < old(self)@.nodes.len() && stale_at(old(self)@.nodes[i].value, now)
                            ==> !final(self)@.map.contains_key(#[trigger] old(self)@.nodes[i].fd)
                },
            forall|g: i32| #[trigger] final(self)@.map.contains_key(g) ==> old(self)@.map.contains_key(g),
    {
        let now = entry::clock_now();
        self.sweep_cache_at(now)
    }

    /// Gives up, in slot order, every slot whose entry is stale at `now`
    /// (free slots and placeholders included): answers the descriptors of
    /// all of them and the slots whose descriptor was dropped.
    pub fn sweep_cache_at(&mut self, now: i128) -> (s: Sweep)
        requires
            old(self).wf(),
        ensures
            final(self).wf(),
            s.fds@ == old(self)@.stale_slots(now).map_values(|i: usize| old(self)@.nodes[i as int].fd),
            final(self)@ == old(self)@.removed_all(old(self)@.stale_slots(now)),
            s.dropped@ == old(self)@.dropped_of(old(self)@.stale_slots(now)),
            forall|i: int|
                0 <= i < old(self)@.nodes.len() && stale_at(old(self)@.nodes[i].value, now)
                    ==> !final(self)@.map.contains_key(#[trigger] old(self)@.nodes[i].fd),
            forall|g: i32| #[trigger] final(self)@.map.contains_key(g) ==> old(self)@.map.contains_key(g),
    {
        let ghost v0 = self@;
        let mut for_removal: Vec<usize> = Vec::new();
        let mut fd_removed: Vec<i32> = Vec::new();
        let mut i: usize = 0;
        while i < self.list.len()
            invariant
                self@ == v0,
                self.wf(),
                i <= self.list@.len(),
                for_removal@ == v0.stale_upto(now, i as int),
                fd_removed@ == for_removal@.map_values(|j: usize| v0.nodes[j as int].fd),
                forall|k: int| 0 <= k < for_removal@.len() ==> #[trigger] for_removal@[k] < i,
            decreases self.list@.len() - i,
        {
            assert(self.list@[i as int]@ == v0.nodes[i as int]);
            if self.list[i].value.is_stale_at(now) {
                for_removal.push(i);
                fd_removed.push(self.list[i].fd);
            }
            i = i + 1;
            assert(fd_removed@ =~= for_removal@.map_values(|j: usize| v0.nodes[j as int].fd));
        }
        let ghost stale = for_removal@;
        let mut dropped: Vec<usize> = Vec::new();
        let mut k: usize = 0;
        while k < for_removal.len()
            invariant
                stale == for_removal@,
                forall|m: int| 0 <= m < stale.len() ==> #[trigger] stale[m] < v0.nodes.len(),
                k <= stale.len(),
                self.wf(),
                self@.nodes.len() == v0.nodes.len(),
                self@ == v0.removed_all(stale.subrange(0, k as int)),
                dropped@ == v0.dropped_of(stale.subrange(0, k as int)),
            decreases stale.len() - k,
        {
            let idx = for_removal[k];
            let done = self.remove_node(idx);
            proof {
                let pre = stale.subrange(0, k as int);
                let post = stale.subrange(0, k + 1);
                assert(post.drop_last() =~= pre);
                assert(post.last() == idx);
            }
            if done {
                dropped.push(idx);
            }
            k = k + 1;
        }
        proof {
            assert(stale.subrange(0, stale.len() as int) =~= stale);
            lemma_stale_slots(v0, now);
            lemma_removed_all_drops(v0, stale);
            assert forall|i: int|
                0 <= i < v0.nodes.len() && stale_at(v0.nodes[i].value, now) implies !self@.map.contains_key(
                #[trigger] v0.nodes[i].fd,
            ) by {
                let iu = i as usize;
                assert(stale.contains(iu));
                let m = choose|m: int| 0 <= m < stale.len() && stale[m] == iu;
                assert(!self@.map.contains_key(v0.nodes[stale[m] as int].fd));
            }
        }
        Sweep { fds: fd_removed, dropped }
    }
}

impl Default for Node {
    /// A slot that holds no file yet.
    fn default() -> (n: Node)
        ensures
            n.fd == 0,
            n.indx == 0,
            n.prev is None,
            n.next is None,
            n.value@.file_name == "DOESN'T EXIST"@,
            !n.value@.dirty,
            n.value@.read_count == 0,
            n.value@.data.len() == 0,
    {
        Node {
            fd: 0,
            indx: 0,
            value: Entry::new(String::from_str("DOESN'T EXIST")),
            prev: None,
            next: None,
        }
    }
}

pub proof fn lemma_unlinked_wf(v: CacheView, i: usize)
    requires
        v.links_ok(),
        i < v.nodes.len(),
    ensures
        v.unlinked(i).nodes.len() == v.nodes.len(),
        v.unlinked(i).free == v.free,
        v.unlinked(i).map == v.map,
        v.unlinked(i).capacity == v.capacity,
        v.unlinked(i).next_fd == v.next_fd,
        v.unlinked(i).links_ok(),
        forall|k: int| 0 <= k < v.nodes.len() ==> (#[trigger] v.unlinked(i).nodes[k]).fd == v.nodes[k].fd
            && v.unlinked(i).nodes[k].indx == v.nodes[k].indx
            && v.unlinked(i).nodes[k].value == v.nodes[k].value,
        slot_ok(v.unlinked(i).head, v.nodes.len() as int),
        slot_ok(v.unlinked(i).tail, v.nodes.len() as int),
        forall|k: int|
            0 <= k < v.nodes.len() ==> slot_ok((#[trigger] v.unlinked(i).nodes[k]).prev, v.nodes.len() as int)
                && slot_ok(v.unlinked(i).nodes[k].next, v.nodes.len() as int),
{
}

pub proof fn lemma_pushed_front_wf(v: CacheView, i: usize)
    requires
        v.links_ok(),
        i < v.nodes.len(),
    ensures
        v.pushed_front(i).links_ok(),
        v.pushed_front(i).tail is Some,
        v.pushed_front(i).nodes.len() == v.nodes.len(),
        v.pushed_front(i).free == v.free,
        v.pushed_front(i).map == v.map,
        v.pushed_front(i).next_fd == v.next_fd,
        forall|k: int| 0 <= k < v.nodes.len() ==> (#[trigger] v.pushed_front(i).nodes[k]).fd == v.nodes[k].fd
            && v.pushed_front(i).nodes[k].indx == v.nodes[k].indx
            && v.pushed_front(i).nodes[k].value == v.nodes[k].value,
{
}

} // verus!
