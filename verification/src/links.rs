//! The nodes of a skip list and what it means for them to be linked
//! consistently: every link leads to the next node that is tall enough and
//! counts the steps there.

use vstd::prelude::*;

verus! {

/// The link that leads nowhere.
pub const NIL: usize = usize::MAX;

/// One element of the list with its links, or the head when `value` is
/// `None`. `next`, `prev` and `links` hold arena slots; `links_len[i]` is the
/// number of elements that `links[i]` advances by, 0 where it is `NIL`.
pub struct Node<V> {
    pub value: Option<V>,
    pub next: usize,
    pub prev: usize,
    pub links: Vec<usize>,
    pub links_len: Vec<usize>,
}

impl<V> Node<V> {
    /// A node of `levels` levels that is linked to nothing.
    pub fn new(value: Option<V>, levels: usize) -> (node: Self)
        ensures
            node.value == value,
            node.next == NIL,
            node.prev == NIL,
            node.links@ == Seq::new(levels as nat, |i: int| NIL),
            node.links_len@ == Seq::new(levels as nat, |i: int| 0usize),
    {
        let mut links: Vec<usize> = Vec::new();
        let mut links_len: Vec<usize> = Vec::new();
        let mut i: usize = 0;
        while i < levels
            invariant
                i <= levels,
                links@ == Seq::new(i as nat, |j: int| NIL),
                links_len@ == Seq::new(i as nat, |j: int| 0usize),
            decreases levels - i,
        {
            links.push(NIL);
            links_len.push(0);
            i += 1;
            assert(links@ =~= Seq::new(i as nat, |j: int| NIL));
            assert(links_len@ =~= Seq::new(i as nat, |j: int| 0usize));
        }
        Node { value, next: NIL, prev: NIL, links, links_len }
    }

    /// Adds one level on top, linked to nothing.
    pub fn increase_level(&mut self)
        ensures
            final(self).links@ == old(self).links@.push(NIL),
            final(self).links_len@ == old(self).links_len@.push(0usize),
            final(self).value == old(self).value,
            final(self).next == old(self).next,
            final(self).prev == old(self).prev,
    {
        self.links.push(NIL);
        self.links_len.push(0);
    }

    /// Puts `value` in the node and hands back what it held.
    pub fn replace(&mut self, value: V) -> (previous: Option<V>)
        ensures
            previous == old(self).value,
            final(self).value == Some(value),
            final(self).next == old(self).next,
            final(self).prev == old(self).prev,
            final(self).links == old(self).links,
            final(self).links_len == old(self).links_len,
    {
        let previous = self.value.take();
        self.value = Some(value);
        previous
    }
}

/// The number of levels of the node in `slot`.
pub open spec fn height<V>(nodes: Seq<Node<V>>, slot: int) -> int {
    nodes[slot].links@.len() as int
}

/// The number of levels of the node at position `p` of `order`.
pub open spec fn height_at<V>(nodes: Seq<Node<V>>, order: Seq<usize>, p: int) -> int {
    height(nodes, order[p] as int)
}

/// The link at level `l` of the node at position `p` leads to the next
/// position whose node has more than `l` levels, and counts the steps there.
pub open spec fn link_ok<V>(nodes: Seq<Node<V>>, order: Seq<usize>, p: int, l: int) -> bool {
    let node = nodes[order[p] as int];
    let d = node.links_len@[l] as int;
    let t = node.links@[l];
    if t == NIL {
        &&& d == 0
        &&& forall|q: int| p < q < order.len() ==> #[trigger] height_at(nodes, order, q) <= l
    } else {
        &&& d >= 1
        &&& p + d < order.len()
        &&& t == order[p + d]
        &&& height_at(nodes, order, p + d) > l
        &&& forall|q: int| p < q < p + d ==> #[trigger] height_at(nodes, order, q) <= l
    }
}

/// Every link at level `l` is as `link_ok` says.
pub open spec fn level_ok<V>(nodes: Seq<Node<V>>, order: Seq<usize>, l: int) -> bool {
    forall|p: int|
        0 <= p < order.len() && height_at(nodes, order, p) > l ==> #[trigger] link_ok(
            nodes,
            order,
            p,
            l,
        )
}

/// Every level up to the head's height is linked as `link_ok` says.
pub open spec fn levels_ok<V>(nodes: Seq<Node<V>>, order: Seq<usize>) -> bool {
    forall|l: int| 0 <= l < height(nodes, 0) ==> #[trigger] level_ok(nodes, order, l)
}

/// `order` lists distinct slots starting with the head's, `free` lists the
/// others, each once.
pub open spec fn slots_ok(len: int, order: Seq<usize>, free: Seq<usize>) -> bool {
    &&& order.len() >= 1
    &&& order[0] == 0
    &&& order.len() + free.len() == len
    &&& forall|p: int| 0 <= p < order.len() ==> #[trigger] order[p] < len
    &&& forall|p: int, q: int| 0 <= p < q < order.len() ==> #[trigger] order[p] != #[trigger] order[q]
    &&& forall|j: int| 0 <= j < free.len() ==> #[trigger] free[j] < len
    &&& forall|j: int, k: int| 0 <= j < k < free.len() ==> #[trigger] free[j] != #[trigger] free[k]
    &&& forall|p: int, j: int|
        0 <= p < order.len() && 0 <= j < free.len() ==> #[trigger] order[p] != #[trigger] free[j]
}

/// The node at position `p` holds a value unless it is the head, is no taller
/// than the head, and is chained to its neighbours.
pub open spec fn node_ok<V>(nodes: Seq<Node<V>>, order: Seq<usize>, p: int) -> bool {
    let node = nodes[order[p] as int];
    &&& node.links@.len() == node.links_len@.len()
    &&& node.links@.len() <= height(nodes, 0)
    &&& (p == 0 ==> node.value is None && node.prev == NIL)
    &&& (p > 0 ==> node.value is Some && node.links@.len() >= 1 && node.prev == order[p - 1])
    &&& (p + 1 < order.len() ==> node.next == order[p + 1])
    &&& (p + 1 >= order.len() ==> node.next == NIL)
}

/// Every node along `order` is as `node_ok` says.
pub open spec fn shape_ok<V>(nodes: Seq<Node<V>>, order: Seq<usize>) -> bool {
    forall|p: int| 0 <= p < order.len() ==> #[trigger] node_ok(nodes, order, p)
}

/// The values of the nodes at positions 1 and up.
pub open spec fn values_of<V>(nodes: Seq<Node<V>>, order: Seq<usize>) -> Seq<V> {
    Seq::new((order.len() - 1) as nat, |i: int| nodes[order[i + 1] as int].value.unwrap())
}

/// `pos` is the last position before `k` whose node has more than `l` levels,
/// and `slot` is its slot.
pub open spec fn pred_ok<V>(
    nodes: Seq<Node<V>>,
    order: Seq<usize>,
    k: int,
    l: int,
    slot: usize,
    pos: int,
) -> bool {
    &&& 0 <= pos < k
    &&& slot == order[pos]
    &&& height_at(nodes, order, pos) > l
    &&& forall|q: int| pos < q < k ==> #[trigger] height_at(nodes, order, q) <= l
}

/// `slots` and `positions` give, level by level, the node after which
/// position `k` is reached.
pub open spec fn preds_ok<V>(
    nodes: Seq<Node<V>>,
    order: Seq<usize>,
    k: int,
    slots: Seq<usize>,
    positions: Seq<usize>,
) -> bool {
    &&& slots.len() == height(nodes, 0)
    &&& positions.len() == slots.len()
    &&& forall|l: int|
        0 <= l < slots.len() ==> #[trigger] pred_ok(
            nodes,
            order,
            k,
            l,
            slots[l],
            positions[l] as int,
        )
}

/// `order` with `s` put at position `k`.
pub open spec fn inserted(order: Seq<usize>, k: int, s: usize) -> Seq<usize> {
    Seq::new(
        order.len() + 1,
        |q: int|
            if q < k {
                order[q]
            } else if q == k {
                s
            } else {
                order[q - 1]
            },
    )
}

/// `order` without the `c` positions from `k` on.
pub open spec fn removed(order: Seq<usize>, k: int, c: int) -> Seq<usize> {
    Seq::new(
        (order.len() - c) as nat,
        |q: int|
            if q < k {
                order[q]
            } else {
                order[q + c]
            },
    )
}

/// `b` is `a` but for the link at level `l` of the node in `slot`.
pub open spec fn link_set<V>(
    a: Seq<Node<V>>,
    b: Seq<Node<V>>,
    slot: int,
    l: int,
    t: usize,
    d: usize,
) -> bool {
    &&& b.len() == a.len()
    &&& forall|i: int| 0 <= i < a.len() && i != slot ==> #[trigger] b[i] == a[i]
    &&& b[slot].value == a[slot].value
    &&& b[slot].next == a[slot].next
    &&& b[slot].prev == a[slot].prev
    &&& b[slot].links@ == a[slot].links@.update(l, t)
    &&& b[slot].links_len@ == a[slot].links_len@.update(l, d)
}

/// On the positions of `order`, `b` has the heights of `a` and its links at
/// level `l`.
pub open spec fn same_links_on<V>(
    a: Seq<Node<V>>,
    b: Seq<Node<V>>,
    order: Seq<usize>,
    l: int,
) -> bool {
    forall|p: int|
        0 <= p < order.len() ==> {
            &&& #[trigger] height_at(b, order, p) == height_at(a, order, p)
            &&& b[order[p] as int].links@[l] == a[order[p] as int].links@[l]
            &&& b[order[p] as int].links_len@[l] == a[order[p] as int].links_len@[l]
        }
}

pub proof fn lemma_level_frame<V>(a: Seq<Node<V>>, b: Seq<Node<V>>, order: Seq<usize>, l: int)
    requires
        same_links_on(a, b, order, l),
        level_ok(a, order, l),
    ensures
        level_ok(b, order, l),
{
    assert forall|p: int| 0 <= p < order.len() && height_at(b, order, p) > l implies #[trigger] link_ok(
        b,
        order,
        p,
        l,
    ) by {
        assert(height_at(a, order, p) == height_at(b, order, p));
        assert(link_ok(a, order, p, l));
        let d = a[order[p] as int].links_len@[l] as int;
        if a[order[p] as int].links@[l] != NIL {
            assert(height_at(b, order, p + d) == height_at(a, order, p + d));
        }
    }
}

/// Where `b` holds the nodes of `a` at every position of `order`, what holds
/// of `a` along `order` holds of `b`.
pub proof fn lemma_frame_all<V>(a: Seq<Node<V>>, b: Seq<Node<V>>, order: Seq<usize>)
    requires
        order.len() >= 1,
        order[0] == 0,
        forall|p: int| 0 <= p < order.len() ==> b[#[trigger] order[p] as int] == a[order[p] as int],
        shape_ok(a, order),
        levels_ok(a, order),
    ensures
        shape_ok(b, order),
        levels_ok(b, order),
        values_of(b, order) == values_of(a, order),
{
    assert(b[order[0] as int] == a[order[0] as int]);
    assert forall|p: int| 0 <= p < order.len() implies #[trigger] node_ok(b, order, p) by {
        assert(node_ok(a, order, p));
        assert(b[order[p] as int] == a[order[p] as int]);
    }
    assert forall|l: int| 0 <= l < height(b, 0) implies #[trigger] level_ok(b, order, l) by {
        assert(level_ok(a, order, l));
        assert forall|p: int| 0 <= p < order.len() implies {
            &&& #[trigger] height_at(b, order, p) == height_at(a, order, p)
            &&& b[order[p] as int].links@[l] == a[order[p] as int].links@[l]
            &&& b[order[p] as int].links_len@[l] == a[order[p] as int].links_len@[l]
        } by {
            assert(b[order[p] as int] == a[order[p] as int]);
        }
        lemma_level_frame(a, b, order, l);
    }
    assert(values_of(b, order) =~= values_of(a, order)) by {
        assert forall|i: int| 0 <= i < order.len() - 1 implies values_of(b, order)[i] == values_of(
            a,
            order,
        )[i] by {
            assert(b[order[i + 1] as int] == a[order[i + 1] as int]);
        }
    }
}

/// A new level on the head, linked to nothing, leaves the list as it was.
pub proof fn lemma_raise<V>(a: Seq<Node<V>>, b: Seq<Node<V>>, order: Seq<usize>, len: int, free: Seq<usize>)
    requires
        slots_ok(len, order, free),
        len == a.len(),
        shape_ok(a, order),
        levels_ok(a, order),
        b.len() == a.len(),
        forall|i: int| 0 < i < a.len() ==> #[trigger] b[i] == a[i],
        b[0].value == a[0].value,
        b[0].next == a[0].next,
        b[0].prev == a[0].prev,
        b[0].links@ == a[0].links@.push(NIL),
        b[0].links_len@ == a[0].links_len@.push(0usize),
    ensures
        shape_ok(b, order),
        levels_ok(b, order),
        values_of(b, order) == values_of(a, order),
{
    let top = height(a, 0);
    assert(node_ok(a, order, 0));
    assert forall|p: int| 0 <= p < order.len() implies #[trigger] node_ok(b, order, p) by {
        assert(node_ok(a, order, p));
        if p > 0 {
            assert(order[p] != order[0]);
            assert(b[order[p] as int] == a[order[p] as int]);
        }
    }
    assert forall|p: int| 0 <= p < order.len() implies #[trigger] height_at(b, order, p) == (if p
        == 0 {
        top + 1
    } else {
        height_at(a, order, p)
    }) by {
        if p > 0 {
            assert(order[p] != order[0]);
            assert(b[order[p] as int] == a[order[p] as int]);
        }
    }
    assert forall|l: int| 0 <= l < height(b, 0) implies #[trigger] level_ok(b, order, l) by {
        if l < top {
            assert(level_ok(a, order, l));
            assert forall|p: int|
                0 <= p < order.len() && height_at(b, order, p) > l implies #[trigger] link_ok(
                b,
                order,
                p,
                l,
            ) by {
                assert(link_ok(a, order, p, l));
                if p > 0 {
                    assert(order[p] != order[0]);
                    assert(b[order[p] as int] == a[order[p] as int]);
                }
                let d = a[order[p] as int].links_len@[l] as int;
                if a[order[p] as int].links@[l] != NIL {
                    assert(height_at(b, order, p + d) > l);
                }
            }
        } else {
            assert forall|p: int|
                0 <= p < order.len() && height_at(b, order, p) > l implies #[trigger] link_ok(
                b,
                order,
                p,
                l,
            ) by {
                assert(node_ok(a, order, p));
                assert(p == 0);
                assert forall|q: int| 0 < q < order.len() implies #[trigger] height_at(
                    b,
                    order,
                    q,
                ) <= l by {
                    assert(node_ok(a, order, q));
                }
            }
        }
    }
    assert(values_of(b, order) =~= values_of(a, order)) by {
        assert forall|i: int| 0 <= i < order.len() - 1 implies values_of(b, order)[i] == values_of(
            a,
            order,
        )[i] by {
            assert(order[i + 1] != order[0]);
            assert(b[order[i + 1] as int] == a[order[i + 1] as int]);
        }
    }
}

/// On the way down to where the values that are not below a bound begin,
/// the node at `pos` was the last one visited on level `l`: the next node
/// with more than `l` levels lies at `stop`, if there is one, and holds a
/// value that is not below the bound.
pub open spec fn stopped_at<V>(
    nodes: Seq<Node<V>>,
    order: Seq<usize>,
    not_below: spec_fn(int) -> bool,
    l: int,
    slot: usize,
    pos: int,
    stop: int,
) -> bool {
    &&& 0 <= pos < stop <= order.len()
    &&& slot == order[pos]
    &&& height_at(nodes, order, pos) > l
    &&& (stop < order.len() ==> not_below(stop))
    &&& forall|q: int| pos < q < stop ==> #[trigger] height_at(nodes, order, q) <= l
}

} // verus!
