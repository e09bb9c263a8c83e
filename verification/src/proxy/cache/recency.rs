//! The recency list as an order of slots: a read moves its slot to the
//! front, an insertion into a free slot adds it at the front, an
//! insertion into a full cache takes the last slot, the least recently
//! used, and puts it at the front, and giving up a slot drops it from
//! the order. Each keeps the cache's invariant `recency_ok`.
use vstd::prelude::*;
use super::{CacheView, NodeView};
use super::entry::EntryView;

verus! {

/// The links of `v` chain exactly the slots of `order`, front to back.
pub open spec fn list_is(v: CacheView, order: Seq<usize>) -> bool {
    &&& order.no_duplicates()
    &&& forall|k: int| 0 <= k < order.len() ==> #[trigger] order[k] < v.nodes.len()
    &&& v.head == (if order.len() == 0 { None::<usize> } else { Some(order[0]) })
    &&& v.tail == (if order.len() == 0 { None::<usize> } else { Some(order.last()) })
    &&& forall|k: int|
        0 <= k < order.len() ==> (#[trigger] v.nodes[order[k] as int]).prev == (if k == 0 {
            None::<usize>
        } else {
            Some(order[k - 1])
        })
    &&& forall|k: int|
        0 <= k < order.len() ==> v.nodes[order[k] as int].next == (if k == order.len() - 1 {
            None::<usize>
        } else {
            Some(order[k + 1])
        })
}

/// A cache with no head and no tail has an empty recency list.
pub proof fn lemma_empty_list(v: CacheView)
    requires
        v.head is None,
        v.tail is None,
    ensures
        list_is(v, Seq::<usize>::empty()),
{
}

/// With no free slot, an insertion takes the least recently used slot.
pub proof fn lemma_full_insert_takes_last(v: CacheView, order: Seq<usize>)
    requires
        list_is(v, order),
        v.free.len() == 0,
        order.len() > 0,
    ensures
        v.insert_slot() == order.last(),
{
}

/// Unlinking a slot of the list drops it from the order.
pub proof fn lemma_unlink_listed(v: CacheView, order: Seq<usize>, k: int)
    requires
        list_is(v, order),
        0 <= k < order.len(),
    ensures
        list_is(v.unlinked(order[k]), order.remove(k)),
        v.unlinked(order[k]).nodes.len() == v.nodes.len(),
{
    let i = order[k];
    let u = v.unlinked(i);
    let o = order.remove(k);
    let n = order.len();
    assert(forall|a: int, b: int| 0 <= a < n && 0 <= b < n && a != b ==> order[a] != order[b]);
    assert(forall|j: int| 0 <= j < o.len() ==> #[trigger] o[j] == if j < k { order[j] } else { order[j + 1] });
    assert(o.no_duplicates()) by {
        assert forall|a: int, b: int| 0 <= a < o.len() && 0 <= b < o.len() && a != b implies o[a] != o[b] by {
            let a2 = if a < k { a } else { a + 1 };
            let b2 = if b < k { b } else { b + 1 };
            assert(o[a] == order[a2] && o[b] == order[b2]);
        }
    }
    assert forall|j: int| 0 <= j < o.len() implies {
        &&& (#[trigger] u.nodes[o[j] as int]).prev == (if j == 0 { None::<usize> } else { Some(o[j - 1]) })
        &&& u.nodes[o[j] as int].next == (if j == o.len() - 1 { None::<usize> } else { Some(o[j + 1]) })
    } by {
        let j2 = if j < k { j } else { j + 1 };
        assert(o[j] == order[j2]);
        assert(order[j2] != i);
        if k > 0 {
            assert(order[k - 1] != i);
        }
        if k < n - 1 {
            assert(order[k + 1] != i);
        }
        if j > 0 {
            let p2 = if j - 1 < k { j - 1 } else { j };
            assert(o[j - 1] == order[p2]);
        }
        if j < o.len() - 1 {
            let q2 = if j + 1 < k { j + 1 } else { j + 2 };
            assert(o[j + 1] == order[q2]);
        }
        if k > 0 && order[k - 1] == o[j] {
            assert(j2 == k - 1);
        }
        if k < n - 1 && order[k + 1] == o[j] {
            assert(j2 == k + 1);
        }
    }
    if o.len() > 0 {
        if k == 0 {
            assert(o[0] == order[1]);
        }
        if k == n - 1 {
            assert(o.last() == order[n - 2]);
        } else {
            assert(o.last() == order[n - 1]);
        }
    }
}

/// Putting at the front a slot that is not in the list adds it there.
pub proof fn lemma_push_unlisted(v: CacheView, order: Seq<usize>, i: usize)
    requires
        list_is(v, order),
        !order.contains(i),
        i < v.nodes.len(),
    ensures
        list_is(v.pushed_front(i), seq![i] + order),
{
    let w = v.pushed_front(i);
    let o = seq![i] + order;
    assert(forall|j: int| 0 <= j < order.len() ==> #[trigger] order[j] != i);
    assert(o.no_duplicates()) by {
        assert forall|a: int, b: int| 0 <= a < o.len() && 0 <= b < o.len() && a != b implies o[a] != o[b] by {
            if a > 0 && b > 0 {
                assert(o[a] == order[a - 1] && o[b] == order[b - 1]);
            } else if a == 0 {
                assert(o[b] == order[b - 1]);
            } else {
                assert(o[a] == order[a - 1]);
            }
        }
    }
    assert forall|j: int| 0 <= j < o.len() implies {
        &&& (#[trigger] w.nodes[o[j] as int]).prev == (if j == 0 { None::<usize> } else { Some(o[j - 1]) })
        &&& w.nodes[o[j] as int].next == (if j == o.len() - 1 { None::<usize> } else { Some(o[j + 1]) })
    } by {
        if j > 0 {
            assert(o[j] == order[j - 1]);
            assert(o[j - 1] == if j == 1 { i } else { order[j - 2] });
            if j < o.len() - 1 {
                assert(o[j + 1] == order[j]);
            }
        } else if o.len() > 1 {
            assert(o[1] == order[0]);
        }
    }
    assert forall|k: int| 0 <= k < o.len() implies #[trigger] o[k] < w.nodes.len() by {
        if k > 0 {
            assert(o[k] == order[k - 1]);
        }
    }
    if order.len() > 0 {
        assert(o.last() == order.last());
    }
}

/// A read of a listed slot moves it to the front of the list.
pub proof fn lemma_touch_listed(v: CacheView, order: Seq<usize>, k: int)
    requires
        list_is(v, order),
        0 <= k < order.len(),
    ensures
        list_is(v.touched(order[k]), seq![order[k]] + order.remove(k)),
{
    let i = order[k];
    lemma_unlink_listed(v, order, k);
    let o = order.remove(k);
    assert(!o.contains(i)) by {
        if o.contains(i) {
            let j = choose|j: int| 0 <= j < o.len() && o[j] == i;
            let j2 = if j < k { j } else { j + 1 };
            assert(o[j] == order[j2]);
        }
    }
    lemma_push_unlisted(v.unlinked(i), o, i);
}

/// Dropping the `k`-th slot of a list without repeats leaves the others.
pub proof fn lemma_remove_contains(order: Seq<usize>, k: int)
    requires
        order.no_duplicates(),
        0 <= k < order.len(),
    ensures
        forall|s: usize| #[trigger] order.remove(k).contains(s) <==> (order.contains(s) && s != order[k]),
{
    let o = order.remove(k);
    assert forall|s: usize| #[trigger] o.contains(s) <==> (order.contains(s) && s != order[k]) by {
        if o.contains(s) {
            let j = choose|j: int| 0 <= j < o.len() && o[j] == s;
            let j2 = if j < k { j } else { j + 1 };
            assert(o[j] == order[j2]);
        }
        if order.contains(s) && s != order[k] {
            let j = choose|j: int| 0 <= j < order.len() && order[j] == s;
            let j2 = if j < k { j } else { j - 1 };
            assert(o[j2] == s);
        }
    }
}

/// A slot put in front of a list joins the slots it holds.
pub proof fn lemma_cons_contains(x: usize, o: Seq<usize>)
    ensures
        forall|s: usize| #[trigger] (seq![x] + o).contains(s) <==> (s == x || o.contains(s)),
{
    let c = seq![x] + o;
    assert forall|s: usize| #[trigger] c.contains(s) <==> (s == x || o.contains(s)) by {
        if c.contains(s) {
            let j = choose|j: int| 0 <= j < c.len() && c[j] == s;
            if j > 0 {
                assert(o[j - 1] == s);
            }
        }
        if s == x {
            assert(c[0] == x);
        }
        if o.contains(s) {
            let j = choose|j: int| 0 <= j < o.len() && o[j] == s;
            assert(c[j + 1] == s);
        }
    }
}

/// Overwriting the node of a slot that is not in the list keeps the list.
pub proof fn lemma_update_unlisted(v: CacheView, order: Seq<usize>, i: usize, node: NodeView)
    requires
        list_is(v, order),
        !order.contains(i),
        i < v.nodes.len(),
    ensures
        list_is(CacheView { nodes: v.nodes.update(i as int, node), ..v }, order),
{
    let w = CacheView { nodes: v.nodes.update(i as int, node), ..v };
    assert(forall|j: int| 0 <= j < order.len() ==> #[trigger] order[j] != i);
    assert forall|k: int| 0 <= k < order.len() implies {
        &&& (#[trigger] w.nodes[order[k] as int]).prev == (if k == 0 { None::<usize> } else { Some(order[k - 1]) })
        &&& w.nodes[order[k] as int].next == (if k == order.len() - 1 { None::<usize> } else { Some(order[k + 1]) })
    } by {
        assert(order[k] != i);
    }
}

/// A cache with slots but none free has them all in the list, so the
/// list has a last slot, the tail.
pub proof fn lemma_full_listed(v: CacheView, order: Seq<usize>)
    requires
        v.recency_ok(order),
        v.nodes.len() > 0,
        v.free.len() == 0,
    ensures
        order.len() > 0,
        v.tail == Some(order.last()),
        v.insert_slot() == order.last(),
{
    assert(!v.free.contains(0usize));
    assert(order.contains(0usize));
}

/// A read of a listed slot moves it to the front and keeps the invariant.
pub proof fn lemma_touch_recency(v: CacheView, order: Seq<usize>, k: int)
    requires
        v.links_ok(),
        v.recency_ok(order),
        0 <= k < order.len(),
    ensures
        v.touched(order[k]).recency_ok(seq![order[k]] + order.remove(k)),
{
    let i = order[k];
    let w = v.touched(i);
    let o = seq![i] + order.remove(k);
    lemma_touch_listed(v, order, k);
    lemma_remove_contains(order, k);
    lemma_cons_contains(i, order.remove(k));
    super::lemma_unlinked_wf(v, i);
    super::lemma_pushed_front_wf(v.unlinked(i), i);
    assert(forall|s: usize| #[trigger] o.contains(s) <==> order.contains(s));
    assert forall|fd: i32| #[trigger] w.map.contains_key(fd) implies {
        &&& o.contains(w.map[fd])
        &&& w.nodes[w.map[fd] as int].indx == w.map[fd]
        &&& w.nodes[w.map[fd] as int].fd == fd
    } by {
        assert(v.map.contains_key(fd));
        assert(order.contains(v.map[fd]));
    }
}

/// Changing a slot's entry keeps the invariant.
pub proof fn lemma_set_value_recency(v: CacheView, order: Seq<usize>, i: usize, e: EntryView)
    requires
        v.recency_ok(order),
        i < v.nodes.len(),
    ensures
        v.set_value(i, e).recency_ok(order),
{
    let w = v.set_value(i, e);
    assert forall|k: int| 0 <= k < order.len() implies {
        &&& (#[trigger] w.nodes[order[k] as int]).prev == (if k == 0 { None::<usize> } else { Some(order[k - 1]) })
        &&& w.nodes[order[k] as int].next == (if k == order.len() - 1 { None::<usize> } else { Some(order[k + 1]) })
    } by {
        assert(v.nodes[order[k] as int].prev == (if k == 0 { None::<usize> } else { Some(order[k - 1]) }));
    }
    assert forall|fd: i32| #[trigger] w.map.contains_key(fd) implies {
        &&& order.contains(w.map[fd])
        &&& w.nodes[w.map[fd] as int].indx == w.map[fd]
        &&& w.nodes[w.map[fd] as int].fd == fd
    } by {
        assert(v.map.contains_key(fd));
    }
}

/// The order an insertion leaves: the slot it takes goes to the front;
/// with no slot free, that is the last one, which leaves the back.
pub open spec fn order_after_insert(v: CacheView, order: Seq<usize>) -> Seq<usize> {
    if v.free.len() > 0 {
        seq![v.free[0]] + order
    } else {
        seq![order.last()] + order.drop_last()
    }
}

/// An insertion keeps the invariant, with the order it leaves.
pub proof fn lemma_inserted_recency(v: CacheView, order: Seq<usize>, e: EntryView, fd: i32)
    requires
        v.links_ok(),
        v.recency_ok(order),
        v.nodes.len() > 0,
    ensures
        v.inserted(e, fd).recency_ok(order_after_insert(v, order)),
        v.inserted(e, fd).links_ok(),
{
    let n = v.nodes.len();
    let i = v.insert_slot();
    let node = NodeView { fd, indx: i, value: e, prev: None, next: None };
    let o2 = order_after_insert(v, order);
    if v.free.len() > 0 {
        assert(v.free.contains(i));
        assert(!order.contains(i));
        let v1 = CacheView { free: v.free.subrange(1, v.free.len() as int), ..v };
        assert(list_is(v1, order));
        let v1n = CacheView { nodes: v1.nodes.update(i as int, node), ..v1 };
        lemma_update_unlisted(v1, order, i, node);
        assert(v1n.links_ok()) by {
            assert forall|k: int| 0 <= k < v1n.free.len() implies #[trigger] v1n.free[k] < n by {
                assert(v1n.free[k] == v.free[k + 1]);
            }
        }
        lemma_push_unlisted(v1n, order, i);
        super::lemma_pushed_front_wf(v1n, i);
        let v2 = v1n.pushed_front(i);
        let w = v.inserted(e, fd);
        assert(w == CacheView { map: v2.map.insert(fd, i), ..v2 });
        lemma_cons_contains(i, order);
        let f1 = v1.free;
        assert(f1.no_duplicates()) by {
            assert forall|a: int, b: int| 0 <= a < f1.len() && 0 <= b < f1.len() && a != b implies f1[a] != f1[b] by {
                assert(f1[a] == v.free[a + 1] && f1[b] == v.free[b + 1]);
            }
        }
        assert forall|s: usize| #[trigger] f1.contains(s) <==> (v.free.contains(s) && s != i) by {
            if f1.contains(s) {
                let j = choose|j: int| 0 <= j < f1.len() && f1[j] == s;
                assert(v.free[j + 1] == s);
                assert(v.free[0] != v.free[j + 1]);
            }
            if v.free.contains(s) && s != i {
                let j = choose|j: int| 0 <= j < v.free.len() && v.free[j] == s;
                assert(j != 0);
                assert(f1[j - 1] == s);
            }
        }
        assert forall|s: usize| s < w.nodes.len() implies (#[trigger] o2.contains(s) <==> !w.free.contains(s)) by {
            if s != i {
                assert(order.contains(s) <==> !v.free.contains(s));
            }
        }
        assert(forall|s: usize| s < w.nodes.len() ==> (#[trigger] w.free.contains(s) <==> !o2.contains(s)));
        assert forall|g: i32| #[trigger] w.map.contains_key(g) implies {
            &&& o2.contains(w.map[g])
            &&& w.nodes[w.map[g] as int].indx == w.map[g]
            &&& w.nodes[w.map[g] as int].fd == g
        } by {
            if g != fd {
                assert(v.map.contains_key(g));
                assert(order.contains(v.map[g]));
                assert(v.map[g] != i);
            }
        }
    } else {
        lemma_full_listed(v, order);
        let last = (order.len() - 1) as int;
        assert(i == order[last]);
        let w0 = if v.holds(i) { CacheView { map: v.map.remove(v.nodes[i as int].fd), ..v } } else { v };
        assert(list_is(w0, order));
        assert(w0.links_ok());
        lemma_unlink_listed(w0, order, last);
        super::lemma_unlinked_wf(w0, i);
        let v1 = w0.unlinked(i);
        let o1 = order.remove(last);
        assert(o1 =~= order.drop_last());
        lemma_remove_contains(order, last);
        assert(!o1.contains(i));
        let v1n = CacheView { nodes: v1.nodes.update(i as int, node), ..v1 };
        lemma_update_unlisted(v1, o1, i, node);
        assert(v1n.links_ok());
        lemma_push_unlisted(v1n, o1, i);
        super::lemma_pushed_front_wf(v1n, i);
        let v2 = v1n.pushed_front(i);
        let w = v.inserted(e, fd);
        assert(w == CacheView { map: v2.map.insert(fd, i), ..v2 });
        lemma_cons_contains(i, o1);
        assert(forall|s: usize| #[trigger] o2.contains(s) <==> order.contains(s));
        assert forall|s: usize| s < w.nodes.len() implies (#[trigger] o2.contains(s) <==> !w.free.contains(s)) by {
            assert(order.contains(s) <==> !v.free.contains(s));
        }
        assert(forall|s: usize| s < w.nodes.len() ==> (#[trigger] w.free.contains(s) <==> !o2.contains(s)));
        assert forall|g: i32| #[trigger] w.map.contains_key(g) implies {
            &&& o2.contains(w.map[g])
            &&& w.nodes[w.map[g] as int].indx == w.map[g]
            &&& w.nodes[w.map[g] as int].fd == g
        } by {
            if g != fd {
                assert(w0.map.contains_key(g));
                assert(v.map.contains_key(g));
                assert(order.contains(v.map[g]));
                if v.map[g] == i {
                    assert(v.nodes[i as int].fd == g);
                    assert(v.holds(i));
                }
                assert(v.map[g] != i);
            }
        }
    }
}

/// Giving up a slot that the map still sends its descriptor to drops it
/// from the order and queues it free, keeping the invariant.
pub proof fn lemma_removed_recency(v: CacheView, order: Seq<usize>, i: usize)
    requires
        v.links_ok(),
        v.recency_ok(order),
        i < v.nodes.len(),
        v.holds(i),
    ensures
        0 <= order.index_of(i) < order.len(),
        order[order.index_of(i)] == i,
        v.removed(i).recency_ok(order.remove(order.index_of(i))),
        v.removed(i).links_ok(),
{
    let f = v.nodes[i as int].fd;
    assert(v.map.contains_key(f));
    assert(order.contains(i));
    let k = order.index_of(i);
    let v1 = CacheView { map: v.map.remove(f), ..v };
    assert(list_is(v1, order));
    assert(v1.links_ok());
    lemma_unlink_listed(v1, order, k);
    super::lemma_unlinked_wf(v1, i);
    lemma_remove_contains(order, k);
    let o2 = order.remove(k);
    let w = v.removed(i);
    let v2 = v1.unlinked(i);
    assert(w == CacheView { free: v2.free.push(i), ..v2 });
    assert(!v.free.contains(i));
    assert forall|s: usize| #[trigger] w.free.contains(s) <==> (v.free.contains(s) || s == i) by {
        if w.free.contains(s) {
            let j = choose|j: int| 0 <= j < w.free.len() && w.free[j] == s;
            if j < v.free.len() {
                assert(v.free[j] == s);
            }
        }
        if v.free.contains(s) {
            let j = choose|j: int| 0 <= j < v.free.len() && v.free[j] == s;
            assert(w.free[j] == s);
        }
        if s == i {
            assert(w.free[v.free.len() as int] == i);
        }
    }
    assert(w.free.no_duplicates()) by {
        assert forall|a: int, b: int| 0 <= a < w.free.len() && 0 <= b < w.free.len() && a != b implies w.free[a] != w.free[b] by {
            if a < v.free.len() && b < v.free.len() {
            } else if a < v.free.len() {
                assert(v.free.contains(w.free[a]));
            } else if b < v.free.len() {
                assert(v.free.contains(w.free[b]));
            }
        }
    }
    assert forall|s: usize| s < w.nodes.len() implies (#[trigger] o2.contains(s) <==> !w.free.contains(s)) by {
        assert(order.contains(s) <==> !v.free.contains(s));
    }
    assert(forall|s: usize| s < w.nodes.len() ==> (#[trigger] w.free.contains(s) <==> !o2.contains(s)));
    assert forall|k2: int| 0 <= k2 < w.free.len() implies #[trigger] w.free[k2] < w.nodes.len() by {
        if k2 < v.free.len() {
            assert(w.free[k2] == v.free[k2]);
        }
    }
    assert forall|g: i32| #[trigger] w.map.contains_key(g) implies {
        &&& o2.contains(w.map[g])
        &&& w.nodes[w.map[g] as int].indx == w.map[g]
        &&& w.nodes[w.map[g] as int].fd == g
    } by {
        assert(v.map.contains_key(g) && g != f);
        assert(order.contains(v.map[g]));
        if v.map[g] == i {
            assert(v.nodes[i as int].fd == g);
        }
    }
}

} // verus!
