//! How the links of one level change when a node enters the list or a run of
//! nodes leaves it.

use crate::links::{
    height, height_at, inserted, level_ok, levels_ok, link_ok, node_ok, pred_ok, preds_ok,
    removed, shape_ok, slots_ok, values_of, Node, NIL,
};
use vstd::prelude::*;

verus! {

/// `b` has the nodes of `a` with the same values, chaining and heights.
pub open spec fn same_shape<V>(a: Seq<Node<V>>, b: Seq<Node<V>>) -> bool {
    &&& b.len() == a.len()
    &&& forall|i: int|
        0 <= i < a.len() ==> {
            &&& #[trigger] height(b, i) == height(a, i)
            &&& b[i].links_len@.len() == a[i].links_len@.len()
            &&& b[i].value == a[i].value
            &&& b[i].next == a[i].next
            &&& b[i].prev == a[i].prev
        }
}

/// `b` has the links of `a` at every level but `l`.
pub open spec fn same_links_off<V>(a: Seq<Node<V>>, b: Seq<Node<V>>, l: int) -> bool {
    &&& b.len() == a.len()
    &&& forall|i: int, j: int|
        0 <= i < a.len() && 0 <= j < a[i].links@.len() && j != l ==> #[trigger] b[i].links@[j]
            == a[i].links@[j]
    &&& forall|i: int, j: int|
        0 <= i < a.len() && 0 <= j < a[i].links_len@.len() && j != l
            ==> #[trigger] b[i].links_len@[j] == a[i].links_len@[j]
}

/// A change of links at level `l` leaves the other levels as they were.
pub proof fn lemma_frame_other<V>(
    a: Seq<Node<V>>,
    b: Seq<Node<V>>,
    order: Seq<usize>,
    l: int,
    j: int,
)
    requires
        same_shape(a, b),
        same_links_off(a, b, l),
        j != l,
        0 <= j,
        forall|p: int| 0 <= p < order.len() ==> #[trigger] order[p] < a.len(),
        forall|p: int|
            0 <= p < order.len() ==> a[#[trigger] order[p] as int].links@.len() == a[order[p] as int].links_len@.len(),
        level_ok(a, order, j),
    ensures
        level_ok(b, order, j),
{
    assert forall|p: int| 0 <= p < order.len() implies #[trigger] height_at(b, order, p)
        == height_at(a, order, p) by {
        assert(order[p] < a.len());
        assert(height(b, order[p] as int) == height(a, order[p] as int));
    }
    assert forall|p: int| 0 <= p < order.len() && height_at(b, order, p) > j implies #[trigger] link_ok(
        b,
        order,
        p,
        j,
    ) by {
        assert(order[p] < a.len());
        assert(height_at(a, order, p) > j);
        assert(link_ok(a, order, p, j));
        let i = order[p] as int;
        assert(b[i].links@[j] == a[i].links@[j]);
        assert(b[i].links_len@[j] == a[i].links_len@[j]);
    }
}

/// The links of level `l` after the node in slot `s`, of `top` levels, was
/// linked in at position `k` behind the node at `ppos`.
pub proof fn lemma_splice_level<V>(
    a: Seq<Node<V>>,
    b: Seq<Node<V>>,
    order: Seq<usize>,
    k: int,
    s: usize,
    l: int,
    pslot: usize,
    ppos: int,
    top: int,
)
    requires
        0 < k <= order.len(),
        a.len() == b.len(),
        forall|p: int| 0 <= p < order.len() ==> #[trigger] order[p] < a.len(),
        forall|p: int, q: int|
            0 <= p < q < order.len() ==> #[trigger] order[p] != #[trigger] order[q],
        s < a.len(),
        s != NIL,
        forall|p: int| 0 <= p < order.len() ==> #[trigger] order[p] != s,
        forall|i: int| 0 <= i < a.len() ==> #[trigger] height(b, i) == height(a, i),
        height(a, s as int) == top,
        0 <= l,
        level_ok(a, order, l),
        pred_ok(a, order, k, l, pslot, ppos),
        forall|i: int|
            0 <= i < a.len() && i != pslot && i != s ==> (#[trigger] b[i]).links@[l]
                == a[i].links@[l] && b[i].links_len@[l] == a[i].links_len@[l],
        l < top ==> {
            &&& b[pslot as int].links@[l] == s
            &&& b[pslot as int].links_len@[l] == k - ppos
            &&& b[s as int].links@[l] == a[pslot as int].links@[l]
            &&& b[s as int].links_len@[l] == (if a[pslot as int].links@[l] == NIL {
                0
            } else {
                ppos + a[pslot as int].links_len@[l] + 1 - k
            })
        },
        l >= top ==> {
            &&& b[pslot as int].links@[l] == a[pslot as int].links@[l]
            &&& b[pslot as int].links_len@[l] == (if a[pslot as int].links@[l] == NIL {
                0
            } else {
                a[pslot as int].links_len@[l] + 1
            })
        },
    ensures
        level_ok(b, inserted(order, k, s), l),
{
    let o2 = inserted(order, k, s);
    assert(link_ok(a, order, ppos, l));
    let t = a[pslot as int].links@[l];
    let d = a[pslot as int].links_len@[l] as int;
    assert forall|q: int| 0 <= q < o2.len() implies #[trigger] height_at(b, o2, q) == (if q < k {
        height_at(a, order, q)
    } else if q == k {
        top
    } else {
        height_at(a, order, q - 1)
    }) by {
        if q < k {
            assert(order[q] < a.len());
        } else if q > k {
            assert(order[q - 1] < a.len());
        }
    }
    if t != NIL {
        // the target of the predecessor lies at or behind `k`
        if ppos + d < k {
            assert(height_at(a, order, ppos + d) <= l);
        }
        assert(ppos + d >= k);
    }
    assert forall|p: int| 0 <= p < o2.len() && height_at(b, o2, p) > l implies #[trigger] link_ok(
        b,
        o2,
        p,
        l,
    ) by {
        if p < k {
            assert(height_at(a, order, p) > l);
            assert(link_ok(a, order, p, l));
            if p == ppos {
                if l < top {
                    assert(o2[p + (k - ppos)] == s);
                    assert(height_at(b, o2, k) == top);
                } else {
                    if t != NIL {
                        assert(o2[p + d + 1] == order[p + d]);
                        assert(height_at(b, o2, p + d + 1) == height_at(a, order, p + d));
                    }
                }
            } else if p < ppos {
                assert(order[p] != order[ppos]);
                assert(order[p] != s);
                let i = order[p] as int;
                assert(b[i].links@[l] == a[i].links@[l]);
                assert(b[i].links_len@[l] == a[i].links_len@[l]);
                let dp = a[i].links_len@[l] as int;
                if a[i].links@[l] == NIL {
                    assert(height_at(a, order, ppos) <= l);
                } else {
                    if p + dp > ppos {
                        assert(height_at(a, order, ppos) <= l);
                    }
                    assert(o2[p + dp] == order[p + dp]);
                    assert(height_at(b, o2, p + dp) == height_at(a, order, p + dp));
                }
            } else {
                assert(height_at(a, order, p) <= l);
            }
        } else if p == k {
            assert(height_at(b, o2, k) == top);
            if t != NIL {
                assert(o2[k + (ppos + d + 1 - k)] == order[ppos + d]);
                assert(height_at(b, o2, ppos + d + 1) == height_at(a, order, ppos + d));
            }
        } else {
            let p0 = p - 1;
            assert(height_at(a, order, p0) > l);
            assert(link_ok(a, order, p0, l));
            assert(order[p0] != order[ppos]);
            assert(order[p0] != s);
            let i = order[p0] as int;
            assert(b[i].links@[l] == a[i].links@[l]);
            assert(b[i].links_len@[l] == a[i].links_len@[l]);
            let dp = a[i].links_len@[l] as int;
            if a[i].links@[l] != NIL {
                assert(o2[p + dp] == order[p0 + dp]);
                assert(height_at(b, o2, p + dp) == height_at(a, order, p0 + dp));
            }
        }
    }
}

/// A slot that was spare takes position `k`.
pub proof fn lemma_slots_inserted(len: int, order: Seq<usize>, free: Seq<usize>, k: int, s: usize)
    requires
        slots_ok(len, order, free.push(s)),
        0 < k <= order.len(),
    ensures
        slots_ok(len, inserted(order, k, s), free),
        forall|p: int| 0 <= p < order.len() ==> #[trigger] order[p] != s,
        s < len,
{
    let f2 = free.push(s);
    let o2 = inserted(order, k, s);
    assert(f2[free.len() as int] == s);
    assert forall|p: int| 0 <= p < order.len() implies #[trigger] order[p] != s by {
        assert(order[p] != f2[free.len() as int]);
    }
    assert forall|j: int| 0 <= j < free.len() implies #[trigger] free[j] < len by {
        assert(f2[j] == free[j]);
    }
    assert forall|j: int, i: int| 0 <= j < i < free.len() implies #[trigger] free[j]
        != #[trigger] free[i] by {
        assert(f2[j] == free[j]);
        assert(f2[i] == free[i]);
    }
    assert forall|j: int| 0 <= j < free.len() implies #[trigger] free[j] != s by {
        assert(f2[j] == free[j]);
        assert(f2[j] != f2[free.len() as int]);
    }
    assert forall|p: int| 0 <= p < o2.len() implies #[trigger] o2[p] < len by {
        if p < k {
            assert(order[p] < len);
        } else if p > k {
            assert(order[p - 1] < len);
        }
    }
    assert forall|p: int, q: int| 0 <= p < q < o2.len() implies #[trigger] o2[p] != #[trigger] o2[q] by {
        let p0 = if p < k { p } else { p - 1 };
        let q0 = if q < k { q } else { q - 1 };
        if p != k && q != k {
            assert(order[p0] != order[q0]);
        } else if p == k {
            assert(order[q0] != s);
        } else {
            assert(order[p0] != s);
        }
    }
    assert forall|p: int, j: int| 0 <= p < o2.len() && 0 <= j < free.len() implies #[trigger] o2[p]
        != #[trigger] free[j] by {
        assert(f2[j] == free[j]);
        if p < k {
            assert(order[p] != f2[j]);
        } else if p > k {
            assert(order[p - 1] != f2[j]);
        } else {
            assert(free[j] != s);
        }
    }
}

/// The chain and the values after the node in slot `s` was chained in at
/// position `k`.
pub proof fn lemma_chain_inserted<V>(
    a: Seq<Node<V>>,
    b: Seq<Node<V>>,
    order: Seq<usize>,
    k: int,
    s: usize,
)
    requires
        0 < k <= order.len(),
        order[0] == 0,
        a.len() == b.len(),
        forall|p: int| 0 <= p < order.len() ==> #[trigger] order[p] < a.len(),
        forall|p: int, q: int|
            0 <= p < q < order.len() ==> #[trigger] order[p] != #[trigger] order[q],
        s < a.len(),
        forall|p: int| 0 <= p < order.len() ==> #[trigger] order[p] != s,
        shape_ok(a, order),
        forall|i: int|
            0 <= i < a.len() ==> {
                &&& #[trigger] height(b, i) == height(a, i)
                &&& b[i].links_len@.len() == a[i].links_len@.len()
                &&& b[i].value == a[i].value
            },
        1 <= height(a, s as int) <= height(a, 0),
        a[s as int].links_len@.len() == height(a, s as int),
        a[s as int].value is Some,
        forall|p: int|
            0 <= p < order.len() && p != k - 1 && p != k ==> (#[trigger] b[order[p] as int]).next
                == a[order[p] as int].next && b[order[p] as int].prev == a[order[p] as int].prev,
        b[order[k - 1] as int].next == s,
        b[order[k - 1] as int].prev == a[order[k - 1] as int].prev,
        b[s as int].prev == order[k - 1],
        b[s as int].next == a[order[k - 1] as int].next,
        k < order.len() ==> b[order[k] as int].prev == s && b[order[k] as int].next
            == a[order[k] as int].next,
    ensures
        shape_ok(b, inserted(order, k, s)),
        values_of(b, inserted(order, k, s)) == values_of(a, order).insert(
            k - 1,
            a[s as int].value.unwrap(),
        ),
{
    let o2 = inserted(order, k, s);
    assert(node_ok(a, order, k - 1));
    assert(node_ok(a, order, 0));
    assert(order[0] < a.len());
    assert(height(b, 0) == height(a, 0));
    assert forall|p: int| 0 <= p < o2.len() implies #[trigger] node_ok(b, o2, p) by {
        assert(height(b, o2[p] as int) == height(a, o2[p] as int));
        if p < k {
            assert(node_ok(a, order, p));
            if p > 0 {
                assert(o2[p - 1] == order[p - 1]);
            }
            if p < k - 1 {
                assert(o2[p + 1] == order[p + 1]);
            }
        } else if p == k {
            if k < order.len() {
                assert(o2[k + 1] == order[k]);
            }
        } else {
            assert(node_ok(a, order, p - 1));
            assert(o2[p] == order[p - 1]);
            if p - 1 > k {
                assert(o2[p - 1] == order[p - 2]);
            }
            if p + 1 < o2.len() {
                assert(o2[p + 1] == order[p]);
            }
        }
    }
    let va = values_of(a, order);
    let vb = values_of(b, o2);
    let x = a[s as int].value.unwrap();
    assert(vb =~= va.insert(k - 1, x)) by {
        assert(vb.len() == va.len() + 1);
        assert forall|i: int| 0 <= i < vb.len() implies vb[i] == va.insert(k - 1, x)[i] by {
            let p = i + 1;
            if p < k {
                assert(order[p] < a.len());
            } else if p > k {
                assert(order[p - 1] < a.len());
            }
            assert(height(b, o2[p] as int) == height(a, o2[p] as int));
            assert(b[o2[p] as int].value == a[o2[p] as int].value);
            if p < k {
                assert(o2[p] == order[p]);
            } else if p > k {
                assert(o2[p] == order[p - 1]);
            }
        }
    }
}

/// `same_shape` is transitive.
pub proof fn lemma_same_shape_trans<V>(a: Seq<Node<V>>, b: Seq<Node<V>>, c: Seq<Node<V>>)
    requires
        same_shape(a, b),
        same_shape(b, c),
    ensures
        same_shape(a, c),
{
    assert forall|i: int| 0 <= i < a.len() implies {
        &&& #[trigger] height(c, i) == height(a, i)
        &&& c[i].links_len@.len() == a[i].links_len@.len()
        &&& c[i].value == a[i].value
        &&& c[i].next == a[i].next
        &&& c[i].prev == a[i].prev
    } by {
        assert(height(b, i) == height(a, i));
    }
}

/// A predecessor stays one where the heights stay.
pub proof fn lemma_pred_frame<V>(
    a: Seq<Node<V>>,
    b: Seq<Node<V>>,
    order: Seq<usize>,
    k: int,
    l: int,
    slot: usize,
    pos: int,
)
    requires
        same_shape(a, b),
        k <= order.len(),
        forall|p: int| 0 <= p < order.len() ==> #[trigger] order[p] < a.len(),
        pred_ok(a, order, k, l, slot, pos),
    ensures
        pred_ok(b, order, k, l, slot, pos),
{
    assert forall|q: int| 0 <= q < order.len() implies #[trigger] height_at(b, order, q)
        == height_at(a, order, q) by {
        assert(order[q] < a.len());
        assert(height(b, order[q] as int) == height(a, order[q] as int));
    }
}

/// Predecessors stay predecessors where the nodes along `order` stay.
pub proof fn lemma_preds_frame<V>(
    a: Seq<Node<V>>,
    b: Seq<Node<V>>,
    order: Seq<usize>,
    k: int,
    slots: Seq<usize>,
    positions: Seq<usize>,
)
    requires
        order.len() >= 1,
        order[0] == 0,
        k <= order.len(),
        forall|p: int| 0 <= p < order.len() ==> b[#[trigger] order[p] as int] == a[order[p] as int],
        preds_ok(a, order, k, slots, positions),
    ensures
        preds_ok(b, order, k, slots, positions),
{
    assert(b[order[0] as int] == a[order[0] as int]);
    assert forall|q: int| 0 <= q < order.len() implies #[trigger] height_at(b, order, q)
        == height_at(a, order, q) by {
        assert(b[order[q] as int] == a[order[q] as int]);
    }
    assert forall|l: int| 0 <= l < slots.len() implies #[trigger] pred_ok(
        b,
        order,
        k,
        l,
        slots[l],
        positions[l] as int,
    ) by {
        assert(pred_ok(a, order, k, l, slots[l], positions[l] as int));
    }
}

/// The chain facts stay where values, chaining and heights stay.
pub proof fn lemma_shape_frame<V>(a: Seq<Node<V>>, b: Seq<Node<V>>, order: Seq<usize>)
    requires
        same_shape(a, b),
        order.len() >= 1,
        order[0] == 0,
        forall|p: int| 0 <= p < order.len() ==> #[trigger] order[p] < a.len(),
        shape_ok(a, order),
    ensures
        shape_ok(b, order),
{
    assert(order[0] < a.len());
    assert(height(b, 0) == height(a, 0));
    assert forall|p: int| 0 <= p < order.len() implies #[trigger] node_ok(b, order, p) by {
        assert(node_ok(a, order, p));
        assert(order[p] < a.len());
        assert(height(b, order[p] as int) == height(a, order[p] as int));
    }
}

/// The values stay where values, chaining and heights stay.
pub proof fn lemma_values_frame<V>(a: Seq<Node<V>>, b: Seq<Node<V>>, order: Seq<usize>)
    requires
        same_shape(a, b),
        order.len() >= 1,
        forall|p: int| 0 <= p < order.len() ==> #[trigger] order[p] < a.len(),
    ensures
        values_of(b, order) == values_of(a, order),
{
    assert(values_of(b, order) =~= values_of(a, order)) by {
        assert forall|i: int| 0 <= i < order.len() - 1 implies values_of(b, order)[i] == values_of(
            a,
            order,
        )[i] by {
            assert(order[i + 1] < a.len());
            assert(height(b, order[i + 1] as int) == height(a, order[i + 1] as int));
        }
    }
}

/// Along `order` and in slot `s`, every node of `b` has as many counts as
/// links.
pub proof fn lemma_lens_ok<V>(a: Seq<Node<V>>, b: Seq<Node<V>>, order: Seq<usize>, k: int, s: usize)
    requires
        same_shape(a, b),
        0 < k <= order.len(),
        s < a.len(),
        forall|p: int| 0 <= p < order.len() ==> #[trigger] order[p] < a.len(),
        shape_ok(a, order),
        a[s as int].links_len@.len() == height(a, s as int),
    ensures
        forall|p: int|
            0 <= p < order.len() ==> b[#[trigger] order[p] as int].links@.len() == b[order[p] as int].links_len@.len(),
        forall|p: int|
            0 <= p < inserted(order, k, s).len() ==> b[#[trigger] inserted(
                order,
                k,
                s,
            )[p] as int].links@.len() == b[inserted(order, k, s)[p] as int].links_len@.len(),
{
    let o2 = inserted(order, k, s);
    assert forall|p: int| 0 <= p < order.len() implies b[#[trigger] order[p] as int].links@.len()
        == b[order[p] as int].links_len@.len() by {
        assert(node_ok(a, order, p));
        assert(order[p] < a.len());
        assert(height(b, order[p] as int) == height(a, order[p] as int));
    }
    assert forall|p: int| 0 <= p < o2.len() implies b[#[trigger] o2[p] as int].links@.len()
        == b[o2[p] as int].links_len@.len() by {
        if p < k {
            assert(o2[p] == order[p]);
            assert(b[order[p] as int].links@.len() == b[order[p] as int].links_len@.len());
        } else if p > k {
            assert(o2[p] == order[p - 1]);
            assert(b[order[p - 1] as int].links@.len() == b[order[p - 1] as int].links_len@.len());
        } else {
            assert(height(b, s as int) == height(a, s as int));
        }
    }
}

/// A level stays linked where no link changes.
pub proof fn lemma_links_unchanged<V>(a: Seq<Node<V>>, b: Seq<Node<V>>, order: Seq<usize>, l: int)
    requires
        a.len() == b.len(),
        forall|i: int|
            0 <= i < a.len() ==> (#[trigger] b[i]).links == a[i].links && b[i].links_len
                == a[i].links_len,
        forall|p: int| 0 <= p < order.len() ==> #[trigger] order[p] < a.len(),
        level_ok(a, order, l),
    ensures
        level_ok(b, order, l),
{
    assert forall|p: int| 0 <= p < order.len() implies #[trigger] height_at(b, order, p)
        == height_at(a, order, p) by {
        assert(order[p] < a.len());
        assert(b[order[p] as int].links == a[order[p] as int].links);
    }
    assert forall|p: int| 0 <= p < order.len() && height_at(b, order, p) > l implies #[trigger] link_ok(
        b,
        order,
        p,
        l,
    ) by {
        assert(order[p] < a.len());
        assert(b[order[p] as int].links == a[order[p] as int].links);
        assert(height_at(a, order, p) > l);
        assert(link_ok(a, order, p, l));
    }
}

/// The links of level `l` after the `c` nodes from position `k` on were
/// passed over: the node at `ppos` now leads to the one at `tpos`, the first
/// behind the run with more than `l` levels, if there is one.
pub proof fn lemma_cut_level<V>(
    a: Seq<Node<V>>,
    b: Seq<Node<V>>,
    order: Seq<usize>,
    k: int,
    c: int,
    l: int,
    pslot: usize,
    ppos: int,
    tpos: int,
)
    requires
        1 <= k,
        1 <= c,
        k + c <= order.len(),
        a.len() == b.len(),
        forall|p: int| 0 <= p < order.len() ==> #[trigger] order[p] < a.len(),
        forall|p: int| 0 <= p < order.len() ==> #[trigger] order[p] != NIL,
        forall|p: int, q: int|
            0 <= p < q < order.len() ==> #[trigger] order[p] != #[trigger] order[q],
        forall|i: int| 0 <= i < a.len() ==> #[trigger] height(b, i) == height(a, i),
        0 <= l,
        level_ok(a, order, l),
        pred_ok(a, order, k, l, pslot, ppos),
        k + c <= tpos <= order.len(),
        tpos < order.len() ==> height_at(a, order, tpos) > l,
        forall|q: int| k + c <= q < tpos ==> #[trigger] height_at(a, order, q) <= l,
        forall|i: int|
            0 <= i < a.len() && i != pslot ==> (#[trigger] b[i]).links@[l] == a[i].links@[l]
                && b[i].links_len@[l] == a[i].links_len@[l],
        b[pslot as int].links@[l] == (if tpos < order.len() {
            order[tpos]
        } else {
            NIL
        }),
        b[pslot as int].links_len@[l] == (if tpos < order.len() {
            tpos - ppos - c
        } else {
            0
        }),
    ensures
        level_ok(b, removed(order, k, c), l),
{
    let o2 = removed(order, k, c);
    assert forall|q: int| 0 <= q < o2.len() implies #[trigger] height_at(b, o2, q) == (if q < k {
        height_at(a, order, q)
    } else {
        height_at(a, order, q + c)
    }) by {
        if q < k {
            assert(order[q] < a.len());
        } else {
            assert(order[q + c] < a.len());
        }
    }
    assert forall|p: int| 0 <= p < o2.len() && height_at(b, o2, p) > l implies #[trigger] link_ok(
        b,
        o2,
        p,
        l,
    ) by {
        if p < k {
            assert(height_at(a, order, p) > l);
            assert(link_ok(a, order, p, l));
            if p == ppos {
                if tpos < order.len() {
                    assert(order[tpos] != NIL);
                    assert(o2[tpos - c] == order[tpos]);
                    assert(height_at(b, o2, tpos - c) == height_at(a, order, tpos));
                    assert forall|q: int| p < q < tpos - c implies #[trigger] height_at(
                        b,
                        o2,
                        q,
                    ) <= l by {
                        if q >= k {
                            assert(height_at(a, order, q + c) <= l);
                        }
                    }
                } else {
                    assert forall|q: int| p < q < o2.len() implies #[trigger] height_at(
                        b,
                        o2,
                        q,
                    ) <= l by {
                        if q >= k {
                            assert(height_at(a, order, q + c) <= l);
                        }
                    }
                }
            } else if p < ppos {
                assert(order[p] != order[ppos]);
                let i = order[p] as int;
                assert(b[i].links@[l] == a[i].links@[l]);
                assert(b[i].links_len@[l] == a[i].links_len@[l]);
                let dp = a[i].links_len@[l] as int;
                if a[i].links@[l] == NIL {
                    assert(height_at(a, order, ppos) <= l);
                } else {
                    if p + dp > ppos {
                        assert(height_at(a, order, ppos) <= l);
                    }
                    assert(o2[p + dp] == order[p + dp]);
                    assert(height_at(b, o2, p + dp) == height_at(a, order, p + dp));
                }
            } else {
                assert(height_at(a, order, p) <= l);
            }
        } else {
            let p0 = p + c;
            assert(height_at(a, order, p0) > l);
            assert(link_ok(a, order, p0, l));
            assert(order[ppos] != order[p0]);
            let i = order[p0] as int;
            assert(b[i].links@[l] == a[i].links@[l]);
            assert(b[i].links_len@[l] == a[i].links_len@[l]);
            let dp = a[i].links_len@[l] as int;
            if a[i].links@[l] != NIL {
                assert(o2[p + dp] == order[p0 + dp]);
                assert(height_at(b, o2, p + dp) == height_at(a, order, p0 + dp));
                assert forall|q: int| p < q < p + dp implies #[trigger] height_at(b, o2, q)
                    <= l by {
                    assert(height_at(a, order, q + c) <= l);
                }
            } else {
                assert forall|q: int| p < q < o2.len() implies #[trigger] height_at(b, o2, q)
                    <= l by {
                    assert(height_at(a, order, q + c) <= l);
                }
            }
        }
    }
}

/// The slots of a run that left the list are spare.
pub proof fn lemma_slots_removed(len: int, order: Seq<usize>, free: Seq<usize>, k: int, c: int)
    requires
        slots_ok(len, order, free),
        1 <= k,
        0 <= c,
        k + c <= order.len(),
    ensures
        slots_ok(len, removed(order, k, c), free + order.subrange(k, k + c)),
{
    let o2 = removed(order, k, c);
    let run = order.subrange(k, k + c);
    let f2 = free + run;
    assert forall|p: int| 0 <= p < o2.len() implies #[trigger] o2[p] < len by {
        if p < k {
            assert(order[p] < len);
        } else {
            assert(order[p + c] < len);
        }
    }
    assert forall|p: int, q: int| 0 <= p < q < o2.len() implies #[trigger] o2[p] != #[trigger] o2[q] by {
        let p0 = if p < k { p } else { p + c };
        let q0 = if q < k { q } else { q + c };
        assert(order[p0] != order[q0]);
    }
    assert forall|j: int| 0 <= j < f2.len() implies #[trigger] f2[j] < len by {
        if j < free.len() {
            assert(free[j] < len);
        } else {
            assert(order[k + (j - free.len())] < len);
        }
    }
    assert forall|j: int, i: int| 0 <= j < i < f2.len() implies #[trigger] f2[j] != #[trigger] f2[i] by {
        if i < free.len() {
            assert(free[j] != free[i]);
        } else if j < free.len() {
            assert(order[k + (i - free.len())] != free[j]);
        } else {
            assert(order[k + (j - free.len())] != order[k + (i - free.len())]);
        }
    }
    assert forall|p: int, j: int| 0 <= p < o2.len() && 0 <= j < f2.len() implies #[trigger] o2[p]
        != #[trigger] f2[j] by {
        let p0 = if p < k { p } else { p + c };
        if j < free.len() {
            assert(order[p0] != free[j]);
        } else {
            let q0 = k + (j - free.len());
            if p0 < q0 {
                assert(order[p0] != order[q0]);
            } else {
                assert(order[q0] != order[p0]);
            }
        }
    }
}

/// The chain and the values after the `c` nodes from position `k` on were
/// taken out of the chain.
pub proof fn lemma_chain_removed<V>(
    a: Seq<Node<V>>,
    b: Seq<Node<V>>,
    order: Seq<usize>,
    k: int,
    c: int,
)
    requires
        1 <= k,
        1 <= c,
        k + c <= order.len(),
        order[0] == 0,
        a.len() == b.len(),
        forall|p: int| 0 <= p < order.len() ==> #[trigger] order[p] < a.len(),
        shape_ok(a, order),
        forall|p: int|
            0 <= p < order.len() && !(k <= p < k + c) ==> {
                &&& height_at(b, order, p) == height_at(a, order, p)
                &&& (#[trigger] b[order[p] as int]).links_len@.len() == a[order[p] as int].links_len@.len()
                &&& b[order[p] as int].value == a[order[p] as int].value
            },
        forall|p: int|
            0 <= p < order.len() && !(k - 1 <= p <= k + c) ==> (#[trigger] b[order[p] as int]).next
                == a[order[p] as int].next && b[order[p] as int].prev == a[order[p] as int].prev,
        b[order[k - 1] as int].next == (if k + c < order.len() {
            order[k + c]
        } else {
            NIL
        }),
        b[order[k - 1] as int].prev == a[order[k - 1] as int].prev,
        k + c < order.len() ==> b[order[k + c] as int].prev == order[k - 1] && b[order[k
            + c] as int].next == a[order[k + c] as int].next,
    ensures
        shape_ok(b, removed(order, k, c)),
        values_of(b, removed(order, k, c)) == values_of(a, order).subrange(0, k - 1) + values_of(
            a,
            order,
        ).subrange(k - 1 + c, order.len() - 1),
{
    let o2 = removed(order, k, c);
    assert(node_ok(a, order, 0));
    assert(height_at(b, order, 0) == height_at(a, order, 0));
    assert forall|p: int| 0 <= p < o2.len() implies #[trigger] node_ok(b, o2, p) by {
        if p < k {
            assert(node_ok(a, order, p));
            assert(height_at(b, order, p) == height_at(a, order, p));
            assert(b[order[p] as int].value == a[order[p] as int].value);
            if p > 0 {
                assert(o2[p - 1] == order[p - 1]);
            }
            if p < k - 1 {
                assert(o2[p + 1] == order[p + 1]);
            } else if p + 1 < o2.len() {
                assert(o2[p + 1] == order[k + c]);
            }
        } else {
            assert(node_ok(a, order, p + c));
            assert(o2[p] == order[p + c]);
            assert(height_at(b, order, p + c) == height_at(a, order, p + c));
            assert(b[order[p + c] as int].value == a[order[p + c] as int].value);
            if p > k {
                assert(o2[p - 1] == order[p + c - 1]);
            } else {
                assert(o2[p - 1] == order[k - 1]);
            }
            if p + 1 < o2.len() {
                assert(o2[p + 1] == order[p + c + 1]);
            }
        }
    }
    let va = values_of(a, order);
    let vb = values_of(b, o2);
    let want = va.subrange(0, k - 1) + va.subrange(k - 1 + c, order.len() - 1);
    assert(vb =~= want) by {
        assert(vb.len() == want.len());
        assert forall|i: int| 0 <= i < vb.len() implies vb[i] == want[i] by {
            let p = i + 1;
            if p < k {
                assert(o2[p] == order[p]);
                assert(b[order[p] as int].value == a[order[p] as int].value);
            } else {
                assert(o2[p] == order[p + c]);
                assert(b[order[p + c] as int].value == a[order[p + c] as int].value);
            }
        }
    }
}

/// Along `order` and what is left of it without a run, every node of `b`
/// has as many counts as links.
pub proof fn lemma_lens_removed<V>(
    a: Seq<Node<V>>,
    b: Seq<Node<V>>,
    order: Seq<usize>,
    k: int,
    c: int,
)
    requires
        same_shape(a, b),
        1 <= k,
        0 <= c,
        k + c <= order.len(),
        forall|p: int| 0 <= p < order.len() ==> #[trigger] order[p] < a.len(),
        shape_ok(a, order),
    ensures
        forall|p: int|
            0 <= p < order.len() ==> b[#[trigger] order[p] as int].links@.len() == b[order[p] as int].links_len@.len(),
        forall|p: int|
            0 <= p < removed(order, k, c).len() ==> b[#[trigger] removed(
                order,
                k,
                c,
            )[p] as int].links@.len() == b[removed(order, k, c)[p] as int].links_len@.len(),
{
    let o2 = removed(order, k, c);
    assert forall|p: int| 0 <= p < order.len() implies b[#[trigger] order[p] as int].links@.len()
        == b[order[p] as int].links_len@.len() by {
        assert(node_ok(a, order, p));
        assert(order[p] < a.len());
        assert(height(b, order[p] as int) == height(a, order[p] as int));
    }
    assert forall|p: int| 0 <= p < o2.len() implies b[#[trigger] o2[p] as int].links@.len()
        == b[o2[p] as int].links_len@.len() by {
        if p < k {
            assert(o2[p] == order[p]);
            assert(b[order[p] as int].links@.len() == b[order[p] as int].links_len@.len());
        } else {
            assert(o2[p] == order[p + c]);
            assert(b[order[p + c] as int].links@.len() == b[order[p + c] as int].links_len@.len());
        }
    }
}

/// `b` is `a` but for the value of the node at position `p`, which is still
/// one.
pub open spec fn value_set<V>(a: Seq<Node<V>>, b: Seq<Node<V>>, order: Seq<usize>, p: int) -> bool {
    &&& a.len() == b.len()
    &&& forall|i: int| 0 <= i < a.len() && i != order[p] ==> #[trigger] b[i] == a[i]
    &&& b[order[p] as int].links == a[order[p] as int].links
    &&& b[order[p] as int].links_len == a[order[p] as int].links_len
    &&& b[order[p] as int].next == a[order[p] as int].next
    &&& b[order[p] as int].prev == a[order[p] as int].prev
    &&& b[order[p] as int].value is Some
}

/// A new value in a node changes that one value of the list and nothing
/// else.
pub proof fn lemma_value_set<V>(a: Seq<Node<V>>, b: Seq<Node<V>>, order: Seq<usize>, p: int)
    requires
        1 <= p < order.len(),
        order[0] == 0,
        forall|q: int| 0 <= q < order.len() ==> #[trigger] order[q] < a.len(),
        forall|q: int, r: int|
            0 <= q < r < order.len() ==> #[trigger] order[q] != #[trigger] order[r],
        value_set(a, b, order, p),
        shape_ok(a, order),
        levels_ok(a, order),
    ensures
        shape_ok(b, order),
        levels_ok(b, order),
        values_of(b, order) == values_of(a, order).update(p - 1, b[order[p] as int].value.unwrap()),
{
    assert(order[0] != order[p]);
    assert(order[0] < a.len());
    assert(b[0] == a[0]);
    assert forall|i: int| 0 <= i < a.len() implies (#[trigger] b[i]).links == a[i].links
        && b[i].links_len == a[i].links_len by {}
    assert forall|q: int| 0 <= q < order.len() implies #[trigger] node_ok(b, order, q) by {
        assert(node_ok(a, order, q));
        assert(order[q] < a.len());
    }
    assert forall|l: int| 0 <= l < height(b, 0) implies #[trigger] level_ok(b, order, l) by {
        assert(level_ok(a, order, l));
        lemma_links_unchanged(a, b, order, l);
    }
    let va = values_of(a, order);
    let vb = values_of(b, order);
    assert(vb =~= va.update(p - 1, b[order[p] as int].value.unwrap())) by {
        assert forall|i: int| 0 <= i < vb.len() implies vb[i] == va.update(
            p - 1,
            b[order[p] as int].value.unwrap(),
        )[i] by {
            assert(order[i + 1] < a.len());
            if i + 1 < p {
                assert(order[i + 1] != order[p]);
            } else if i + 1 > p {
                assert(order[p] != order[i + 1]);
            }
        }
    }
}

/// Whatever value the node at position `p` is given, the list stays linked
/// and its other values stay.
pub proof fn lemma_any_value<V>(a: Seq<Node<V>>, order: Seq<usize>, p: int)
    requires
        1 <= p < order.len(),
        order[0] == 0,
        forall|q: int| 0 <= q < order.len() ==> #[trigger] order[q] < a.len(),
        forall|q: int, r: int|
            0 <= q < r < order.len() ==> #[trigger] order[q] != #[trigger] order[r],
        shape_ok(a, order),
        levels_ok(a, order),
    ensures
        forall|b: Seq<Node<V>>|
            #![trigger shape_ok(b, order)]
            #![trigger levels_ok(b, order)]
            #![trigger values_of(b, order)]
            value_set(a, b, order, p) ==> shape_ok(b, order) && levels_ok(b, order) && values_of(
                b,
                order,
            ) == values_of(a, order).update(p - 1, b[order[p] as int].value.unwrap()),
{
    assert forall|b: Seq<Node<V>>|
        #![trigger shape_ok(b, order)]
        #![trigger levels_ok(b, order)]
        #![trigger values_of(b, order)]
        value_set(a, b, order, p) implies shape_ok(b, order) && levels_ok(b, order) && values_of(
        b,
        order,
    ) == values_of(a, order).update(p - 1, b[order[p] as int].value.unwrap()) by {
        lemma_value_set(a, b, order, p);
    }
}

/// From level `l` up, `node` is linked to nothing.
pub open spec fn unlinked_from<V>(node: Node<V>, l: int) -> bool {
    forall|j: int|
        l <= j < node.links@.len() ==> #[trigger] node.links@[j] == NIL && node.links_len@[j] == 0
}

/// A node that a change at level `l` may have linked is still unlinked above
/// that level.
pub proof fn lemma_unlinked_step<V>(a: Seq<Node<V>>, b: Seq<Node<V>>, s: int, l: int)
    requires
        same_shape(a, b),
        same_links_off(a, b, l),
        0 <= s < a.len(),
        0 <= l,
        a[s].links_len@.len() == a[s].links@.len(),
        unlinked_from(a[s], l),
    ensures
        unlinked_from(b[s], l + 1),
{
    assert(height(b, s) == height(a, s));
    assert forall|j: int| l + 1 <= j < b[s].links@.len() implies #[trigger] b[s].links@[j] == NIL
        && b[s].links_len@[j] == 0 by {
        assert(a[s].links@[j] == NIL);
        assert(a[s].links_len@[j] == 0);
        assert(b[s].links@[j] == a[s].links@[j]);
        assert(b[s].links_len@[j] == a[s].links_len@[j]);
    }
}

} // verus!
