//! The indexed skip list: nodes in an arena, linked at several levels, each
//! link carrying the number of elements it advances by.

use crate::explain::{
    diagram, header, ladder, ladder_line, texts, too_wide, write_arrow, write_cell, write_header,
    write_values, MAX_SPAN,
};
use crate::level_generator::LevelGenerator;
use crate::links::{
    height, height_at, inserted, lemma_frame_all, lemma_level_frame, lemma_raise, level_ok,
    levels_ok, link_ok, link_set, node_ok, pred_ok, preds_ok, removed, shape_ok, slots_ok,
    stopped_at, values_of,
};
pub use crate::links::{Node, NIL};
use crate::order::{compare, equiv, lemma_trichotomy, sorted, total_order, Relation};
use crate::sorted::{below, lemma_below_down, lemma_rank_split, rank};
use crate::splice::{
    lemma_any_value, lemma_chain_inserted, lemma_chain_removed, lemma_cut_level,
    lemma_frame_other, lemma_lens_ok, lemma_lens_removed, lemma_links_unchanged,
    lemma_pred_frame, lemma_preds_frame, lemma_same_shape_trans, lemma_shape_frame,
    lemma_slots_inserted, lemma_slots_removed, lemma_splice_level, lemma_unlinked_step,
    lemma_value_set, lemma_values_frame, same_links_off, same_shape, unlinked_from, value_set,
};
use vstd::prelude::*;
use vstd::string::*;

verus! {

/// One end of a range of indices or of values.
pub enum Bound<T> {
    Included(T),
    Excluded(T),
    Unbounded,
}

/// The first index of a range that starts at `start`.
pub open spec fn range_start(start: Bound<usize>) -> int {
    match start {
        Bound::Included(i) => i as int,
        Bound::Excluded(i) => i + 1,
        Bound::Unbounded => 0,
    }
}

/// The index behind the last of a range that ends at `end`, in a list of
/// `len` values: no further than `len`.
pub open spec fn range_end(end: Bound<usize>, len: int) -> int {
    let raw = match end {
        Bound::Included(i) => i + 1,
        Bound::Excluded(i) => i as int,
        Bound::Unbounded => len,
    };
    if raw > len {
        len
    } else {
        raw
    }
}

/// `s` without each value that compares as equal to the one kept before it.
pub open spec fn dedup_seq<V: Ord>(s: Seq<V>) -> Seq<V>
    decreases s.len(),
{
    if s.len() == 0 {
        s
    } else {
        let rest = dedup_seq(s.drop_last());
        if rest.len() > 0 && equiv(rest.last(), s.last()) {
            rest
        } else {
            rest.push(s.last())
        }
    }
}

/// Two sequences with equal tails have equal tails one further on.
pub proof fn lemma_tail_shift<V>(a: Seq<V>, i: int, b: Seq<V>, j: int)
    requires
        0 <= i < a.len(),
        0 <= j <= b.len(),
        a.subrange(i, a.len() as int) == b.subrange(j, b.len() as int),
    ensures
        j < b.len(),
        a[i] == b[j],
        a.subrange(i + 1, a.len() as int) == b.subrange(j + 1, b.len() as int),
{
    let ta = a.subrange(i, a.len() as int);
    let tb = b.subrange(j, b.len() as int);
    assert(ta.len() == tb.len());
    assert(ta[0] == tb[0]);
    assert(a.subrange(i + 1, a.len() as int) =~= ta.subrange(1, ta.len() as int));
    assert(b.subrange(j + 1, b.len() as int) =~= tb.subrange(1, tb.len() as int));
}

/// A list of values that is reached by position. Its view is the sequence of
/// its values, front first.
pub struct SkipList<V> {
    pub(crate) nodes: Vec<Node<V>>,
    pub(crate) free: Vec<usize>,
    pub(crate) length: usize,
    pub(crate) level_generator: LevelGenerator,
    pub(crate) order: Ghost<Seq<usize>>,
}

impl<V> View for SkipList<V> {
    type V = Seq<V>;

    closed spec fn view(&self) -> Seq<V> {
        values_of(self.nodes@, self.order@)
    }
}

impl<V> SkipList<V> {
    /// The links and counts of the list are consistent with its values.
    pub closed spec fn wf(&self) -> bool {
        &&& self.order@.len() == self.length + 1
        &&& slots_ok(self.nodes@.len() as int, self.order@, self.free@)
        &&& shape_ok(self.nodes@, self.order@)
        &&& levels_ok(self.nodes@, self.order@)
    }

    /// The number of levels in use.
    pub closed spec fn spec_levels(&self) -> nat {
        self.nodes@[0].links@.len()
    }

    /// An empty list with the default level generator.
    pub fn new() -> (list: Self)
        ensures
            list.wf(),
            list@ == Seq::<V>::empty(),
    {
        Self::with_level_generator(LevelGenerator::new())
    }

    /// The generator that the list takes the levels of its nodes from.
    pub closed spec fn level_generator(&self) -> LevelGenerator {
        self.level_generator
    }

    /// An empty list that takes its levels from `lg`.
    pub fn with_level_generator(lg: LevelGenerator) -> (list: Self)
        ensures
            list.wf(),
            list@ == Seq::<V>::empty(),
            list.level_generator() == lg,
    {
        let mut nodes: Vec<Node<V>> = Vec::new();
        nodes.push(Node::new(None, 0));
        let order: Ghost<Seq<usize>> = Ghost(Seq::empty().push(0usize));
        let list = SkipList { nodes, free: Vec::new(), length: 0, level_generator: lg, order };
        proof {
            assert(node_ok(list.nodes@, list.order@, 0));
            assert(list@ =~= Seq::<V>::empty());
        }
        list
    }

    /// The number of values in the list.
    pub fn len(&self) -> (n: usize)
        requires
            self.wf(),
        ensures
            n == self@.len(),
    {
        self.length
    }

    /// The slot of the node that holds the value at `index`.
    fn slot_at(&self, index: usize) -> (slot: usize)
        requires
            self.wf(),
            index < self.length,
        ensures
            slot == self.order@[index + 1],
            slot < self.nodes@.len(),
    {
        let target: usize = index + 1;
        let mut cur: usize = 0;
        let mut cur_pos: usize = 0;
        proof {
            assert(node_ok(self.nodes@, self.order@, 1));
            assert(node_ok(self.nodes@, self.order@, 0));
        }
        let mut level: usize = self.nodes[0].links.len() - 1;
        while cur_pos != target
            invariant
                self.wf(),
                target == index + 1,
                index < self.length,
                cur_pos <= target,
                cur == self.order@[cur_pos as int],
                cur < self.nodes@.len(),
                level < height_at(self.nodes@, self.order@, cur_pos as int),
            decreases target - cur_pos, level,
        {
            proof {
                let p = cur_pos as int;
                assert(node_ok(self.nodes@, self.order@, p));
                assert(node_ok(self.nodes@, self.order@, p + 1));
                assert(level_ok(self.nodes@, self.order@, level as int));
                assert(link_ok(self.nodes@, self.order@, p, level as int));
                if level == 0 {
                    assert(height_at(self.nodes@, self.order@, p + 1) >= 1);
                }
            }
            let d = self.nodes[cur].links_len[level];
            if d != 0 && cur_pos + d <= target {
                cur = self.nodes[cur].links[level];
                cur_pos = cur_pos + d;
            } else {
                level = level - 1;
            }
        }
        cur
    }

    /// Sets the link at `level` of the node in `slot`.
    fn set_link(nodes: &mut Vec<Node<V>>, slot: usize, level: usize, target: usize, len: usize)
        requires
            slot < old(nodes)@.len(),
            level < old(nodes)@[slot as int].links@.len(),
            level < old(nodes)@[slot as int].links_len@.len(),
        ensures
            link_set(old(nodes)@, final(nodes)@, slot as int, level as int, target, len),
    {
        nodes[slot].links[level] = target;
        nodes[slot].links_len[level] = len;
    }

    /// Sets the neighbours of the node in `slot`.
    fn set_chain(nodes: &mut Vec<Node<V>>, slot: usize, next: usize, prev: usize)
        requires
            slot < old(nodes)@.len(),
        ensures
            final(nodes)@.len() == old(nodes)@.len(),
            forall|i: int|
                0 <= i < old(nodes)@.len() && i != slot ==> #[trigger] final(nodes)@[i] == old(
                    nodes,
                )@[i],
            final(nodes)@[slot as int].value == old(nodes)@[slot as int].value,
            final(nodes)@[slot as int].links == old(nodes)@[slot as int].links,
            final(nodes)@[slot as int].links_len == old(nodes)@[slot as int].links_len,
            final(nodes)@[slot as int].next == next,
            final(nodes)@[slot as int].prev == prev,
    {
        nodes[slot].next = next;
        nodes[slot].prev = prev;
    }

    /// Gives the head levels until it has more than `level` of them.
    fn raise_head(&mut self, level: usize)
        requires
            old(self).wf(),
        ensures
            final(self).wf(),
            final(self)@ == old(self)@,
            final(self).order@ == old(self).order@,
            final(self).level_generator == old(self).level_generator,
            height(final(self).nodes@, 0) > level,
    {
        while level >= self.nodes[0].links.len()
            invariant
                self.wf(),
                self@ == old(self)@,
                self.order@ == old(self).order@,
                self.level_generator == old(self).level_generator,
            decreases level + 1 - height(self.nodes@, 0),
        {
            let ghost before = self.nodes@;
            self.nodes[0].increase_level();
            proof {
                lemma_raise(
                    before,
                    self.nodes@,
                    self.order@,
                    before.len() as int,
                    self.free@,
                );
            }
        }
    }

    /// For each level, the node after which position `k` is reached.
    fn locate(&self, k: usize) -> (r: (Vec<usize>, Vec<usize>))
        requires
            self.wf(),
            1 <= k <= self.length + 1,
            height(self.nodes@, 0) >= 1,
        ensures
            preds_ok(self.nodes@, self.order@, k as int, r.0@, r.1@),
    {
        let h: usize = self.nodes[0].links.len();
        let mut slots: Vec<usize> = Vec::new();
        let mut positions: Vec<usize> = Vec::new();
        let mut i: usize = 0;
        while i < h
            invariant
                i <= h,
                slots@.len() == i,
                positions@.len() == i,
            decreases h - i,
        {
            slots.push(NIL);
            positions.push(0);
            i += 1;
        }
        let mut cur: usize = 0;
        let mut cur_pos: usize = 0;
        let mut level: usize = h - 1;
        loop
            invariant_except_break
                forall|l: int|
                    level < l < h ==> #[trigger] pred_ok(
                        self.nodes@,
                        self.order@,
                        k as int,
                        l,
                        slots@[l],
                        positions@[l] as int,
                    ),
            invariant
                self.wf(),
                h == height(self.nodes@, 0),
                1 <= k <= self.length + 1,
                slots@.len() == h,
                positions@.len() == h,
                level < h,
                cur_pos < k,
                cur == self.order@[cur_pos as int],
                cur < self.nodes@.len(),
                height_at(self.nodes@, self.order@, cur_pos as int) > level,
            ensures
                forall|l: int|
                    0 <= l < h ==> #[trigger] pred_ok(
                        self.nodes@,
                        self.order@,
                        k as int,
                        l,
                        slots@[l],
                        positions@[l] as int,
                    ),
            decreases level, k - cur_pos,
        {
            proof {
                let p = cur_pos as int;
                assert(node_ok(self.nodes@, self.order@, p));
                assert(level_ok(self.nodes@, self.order@, level as int));
                assert(link_ok(self.nodes@, self.order@, p, level as int));
            }
            let next = self.nodes[cur].links[level];
            let d = self.nodes[cur].links_len[level];
            if next != NIL && cur_pos + d < k {
                cur = next;
                cur_pos = cur_pos + d;
            } else {
                slots[level] = cur;
                positions[level] = cur_pos;
                assert(pred_ok(
                    self.nodes@,
                    self.order@,
                    k as int,
                    level as int,
                    slots@[level as int],
                    positions@[level as int] as int,
                ));
                if level == 0 {
                    break ;
                }
                level = level - 1;
            }
        }
        (slots, positions)
    }

    /// Takes a slot for `node` without linking it in.
    fn take_slot(&mut self, node: Node<V>) -> (s: usize)
        requires
            old(self).wf(),
        ensures
            final(self).order@ == old(self).order@,
            final(self).length == old(self).length,
            final(self).level_generator == old(self).level_generator,
            s < final(self).nodes@.len(),
            s != NIL,
            final(self).nodes@[s as int] == node,
            slots_ok(
                final(self).nodes@.len() as int,
                final(self).order@,
                final(self).free@.push(s),
            ),
            shape_ok(final(self).nodes@, final(self).order@),
            levels_ok(final(self).nodes@, final(self).order@),
            values_of(final(self).nodes@, final(self).order@) == old(self)@,
            forall|p: int|
                0 <= p < old(self).order@.len() ==> final(self).nodes@[#[trigger] old(
                    self,
                ).order@[p] as int] == old(self).nodes@[old(self).order@[p] as int],
    {
        let ghost before = self.nodes@;
        let ghost free0 = self.free@;
        let in_use: usize = self.nodes.len();
        let popped = self.free.pop();
        let s: usize = match popped {
            Some(f) => {
                assert(f == free0[free0.len() - 1]);
                self.nodes[f] = node;
                f
            },
            None => {
                self.nodes.push(node);
                self.nodes.len() - 1
            },
        };
        proof {
            if free0.len() > 0 {
                assert(self.free@.push(s) =~= free0);
                assert forall|p: int| 0 <= p < self.order@.len() implies self.nodes@[#[trigger] self.order@[p] as int]
                    == before[self.order@[p] as int] by {
                    assert(self.order@[p] != free0[free0.len() - 1]);
                }
            } else {
                assert(self.free@.push(s) =~= seq![s]);
            }
            lemma_frame_all(before, self.nodes@, self.order@);
        }
        s
    }

    /// Sets the links at level `l` for a new node in slot `s` that enters at
    /// position `k`, behind the node in slot `p` at position `pp`.
    fn link_level(
        nodes: &mut Vec<Node<V>>,
        s: usize,
        p: usize,
        pp: usize,
        k: usize,
        l: usize,
        level: usize,
        Ghost(order): Ghost<Seq<usize>>,
    )
        requires
            0 < k <= order.len(),
            order.len() < old(nodes)@.len(),
            forall|q: int| 0 <= q < order.len() ==> #[trigger] order[q] < old(nodes)@.len(),
            forall|q: int, r: int|
                0 <= q < r < order.len() ==> #[trigger] order[q] != #[trigger] order[r],
            s < old(nodes)@.len(),
            forall|q: int| 0 <= q < order.len() ==> #[trigger] order[q] != s,
            height(old(nodes)@, s as int) == level + 1,
            old(nodes)@[s as int].links_len@.len() == level + 1,
            old(nodes)@[p as int].links_len@.len() == old(nodes)@[p as int].links@.len(),
            level_ok(old(nodes)@, order, l as int),
            pred_ok(old(nodes)@, order, k as int, l as int, p, pp as int),
            l <= level ==> old(nodes)@[s as int].links@[l as int] == NIL && old(
                nodes,
            )@[s as int].links_len@[l as int] == 0,
        ensures
            same_shape(old(nodes)@, final(nodes)@),
            same_links_off(old(nodes)@, final(nodes)@, l as int),
            level_ok(final(nodes)@, inserted(order, k as int, s), l as int),
    {
        let ghost a = nodes@;
        let slot_count: usize = nodes.len();
        proof {
            assert(link_ok(a, order, pp as int, l as int));
            assert(order[pp as int] != s);
        }
        let t = nodes[p].links[l];
        let d = nodes[p].links_len[l];
        if l <= level {
            if t != NIL {
                Self::set_link(nodes, s, l, t, pp + d + 1 - k);
            }
            let ghost m = nodes@;
            assert(m[s as int].links@[l as int] == t);
            assert(m[p as int] == a[p as int]);
            Self::set_link(nodes, p, l, s, k - pp);
            assert(nodes@[s as int] == m[s as int]);
        } else if t != NIL {
            Self::set_link(nodes, p, l, t, d + 1);
        }
        proof {
            let b = nodes@;
            assert forall|i: int| 0 <= i < a.len() implies {
                &&& #[trigger] height(b, i) == height(a, i)
                &&& b[i].links_len@.len() == a[i].links_len@.len()
                &&& b[i].value == a[i].value
                &&& b[i].next == a[i].next
                &&& b[i].prev == a[i].prev
            } by {}
            lemma_splice_level(a, b, order, k as int, s, l as int, p, pp as int, level + 1);
        }
    }

    /// Chains the node in slot `s` in at position `k`, behind the node in
    /// slot `p0`.
    fn chain_in(
        nodes: &mut Vec<Node<V>>,
        s: usize,
        p0: usize,
        k: usize,
        Ghost(order): Ghost<Seq<usize>>,
    )
        requires
            0 < k <= order.len(),
            order[0] == 0,
            p0 == order[k - 1],
            forall|q: int| 0 <= q < order.len() ==> #[trigger] order[q] < old(nodes)@.len(),
            forall|q: int, r: int|
                0 <= q < r < order.len() ==> #[trigger] order[q] != #[trigger] order[r],
            s < old(nodes)@.len(),
            forall|q: int| 0 <= q < order.len() ==> #[trigger] order[q] != s,
            shape_ok(old(nodes)@, order),
            1 <= height(old(nodes)@, s as int) <= height(old(nodes)@, 0),
            old(nodes)@[s as int].links_len@.len() == height(old(nodes)@, s as int),
            old(nodes)@[s as int].value is Some,
        ensures
            final(nodes)@.len() == old(nodes)@.len(),
            forall|i: int|
                0 <= i < old(nodes)@.len() ==> (#[trigger] final(nodes)@[i]).links == old(
                    nodes,
                )@[i].links && final(nodes)@[i].links_len == old(nodes)@[i].links_len,
            shape_ok(final(nodes)@, inserted(order, k as int, s)),
            values_of(final(nodes)@, inserted(order, k as int, s)) == values_of(
                old(nodes)@,
                order,
            ).insert(k - 1, old(nodes)@[s as int].value.unwrap()),
    {
        let ghost a = nodes@;
        let slot_count: usize = nodes.len();
        proof {
            assert(node_ok(a, order, k - 1));
            assert(order[k - 1] != s);
            if k < order.len() {
                assert(order[k as int] < slot_count);
            }
        }
        let nx = nodes[p0].next;
        let before_p0 = nodes[p0].prev;
        Self::set_chain(nodes, s, nx, p0);
        Self::set_chain(nodes, p0, s, before_p0);
        if nx != NIL {
            proof {
                assert(nx == order[k as int]);
                assert(order[k as int] != s);
                assert(order[k - 1] != order[k as int]);
                assert(order[k as int] < a.len());
            }
            let after_nx = nodes[nx].next;
            Self::set_chain(nodes, nx, after_nx, s);
        }
        proof {
            let b = nodes@;
            assert forall|i: int| 0 <= i < a.len() implies {
                &&& #[trigger] height(b, i) == height(a, i)
                &&& b[i].links_len@.len() == a[i].links_len@.len()
                &&& b[i].value == a[i].value
            } by {}
            assert forall|q: int| 0 <= q < order.len() && q != k - 1 && q != k implies (#[trigger] b[order[q] as int]).next
                == a[order[q] as int].next && b[order[q] as int].prev == a[order[q] as int].prev by {
                assert(order[q] != s);
                if q < k - 1 {
                    assert(order[q] != order[k - 1]);
                } else {
                    assert(order[k - 1] != order[q]);
                }
                if k < order.len() {
                    if q < k {
                        assert(order[q] != order[k as int]);
                    } else {
                        assert(order[k as int] != order[q]);
                    }
                }
            }
            lemma_chain_inserted(a, b, order, k as int, s);
        }
    }

    /// Links a new node of `level + 1` levels that holds `value` in at
    /// position `k`, behind the nodes that `slots` and `positions` name.
    fn splice(
        &mut self,
        slots: &Vec<usize>,
        positions: &Vec<usize>,
        k: usize,
        level: usize,
        value: V,
    )
        requires
            old(self).wf(),
            1 <= k <= old(self).length + 1,
            level < height(old(self).nodes@, 0),
            preds_ok(old(self).nodes@, old(self).order@, k as int, slots@, positions@),
        ensures
            final(self).wf(),
            final(self)@ == old(self)@.insert(k - 1, value),
            final(self).level_generator == old(self).level_generator,
    {
        let ghost order0 = self.order@;
        let ghost nodes0 = self.nodes@;
        let h: usize = self.nodes[0].links.len();
        let node = Node::new(Some(value), level + 1);
        let s = self.take_slot(node);
        let slot_count: usize = self.nodes.len();
        let ghost n0 = self.nodes@;
        let ghost o2 = inserted(order0, k as int, s);
        let ghost free1 = self.free@;
        proof {
            lemma_slots_inserted(n0.len() as int, order0, free1, k as int, s);
            assert(n0[order0[0] as int] == nodes0[order0[0] as int]);
            lemma_preds_frame(nodes0, n0, order0, k as int, slots@, positions@);
        }
        let mut l: usize = 0;
        while l < h
            invariant
                l <= h,
                h == height(n0, 0),
                1 <= k <= order0.len(),
                level < h,
                self.order@ == order0,
                self.free@ == free1,
                self.level_generator == old(self).level_generator,
                self.length + 1 == order0.len(),
                o2 == inserted(order0, k as int, s),
                s < n0.len(),
                slots_ok(n0.len() as int, order0, free1.push(s)),
                slots_ok(n0.len() as int, o2, free1),
                forall|p: int| 0 <= p < order0.len() ==> #[trigger] order0[p] != s,
                shape_ok(n0, order0),
                height(n0, s as int) == level + 1,
                n0[s as int].links_len@.len() == level + 1,
                preds_ok(n0, order0, k as int, slots@, positions@),
                same_shape(n0, self.nodes@),
                forall|j: int| 0 <= j < l ==> #[trigger] level_ok(self.nodes@, o2, j),
                forall|j: int| l <= j < h ==> #[trigger] level_ok(self.nodes@, order0, j),
                unlinked_from(self.nodes@[s as int], l as int),
            decreases h - l,
        {
            let p = slots[l];
            let pp = positions[l];
            let ghost a = self.nodes@;
            proof {
                assert(pred_ok(n0, order0, k as int, l as int, p, pp as int));
                assert(node_ok(n0, order0, pp as int));
                lemma_pred_frame(n0, a, order0, k as int, l as int, p, pp as int);
                assert(height(a, p as int) == height(n0, p as int));
                assert(height(a, s as int) == height(n0, s as int));
                assert(level_ok(a, order0, l as int));
                if l <= level {
                    assert(a[s as int].links@[l as int] == NIL);
                }
            }
            Self::link_level(&mut self.nodes, s, p, pp, k, l, level, Ghost(order0));
            proof {
                let b = self.nodes@;
                lemma_same_shape_trans(n0, a, b);
                lemma_lens_ok(n0, a, order0, k as int, s);
                assert forall|j: int| 0 <= j < l + 1 implies #[trigger] level_ok(b, o2, j) by {
                    if j < l {
                        assert(level_ok(a, o2, j));
                        lemma_frame_other(a, b, o2, l as int, j);
                    }
                }
                assert forall|j: int| l + 1 <= j < h implies #[trigger] level_ok(b, order0, j) by {
                    assert(level_ok(a, order0, j));
                    lemma_frame_other(a, b, order0, l as int, j);
                }
                lemma_unlinked_step(a, b, s as int, l as int);
            }
            l = l + 1;
        }
        let p0 = slots[0];
        let ghost a = self.nodes@;
        proof {
            assert(pred_ok(n0, order0, k as int, 0, p0, positions@[0] as int));
            let pos0 = positions@[0] as int;
            if pos0 < k - 1 {
                assert(node_ok(n0, order0, k - 1));
                assert(height_at(n0, order0, k - 1) <= 0);
            }
            assert(node_ok(n0, order0, 0));
            lemma_shape_frame(n0, a, order0);
            assert(height(a, s as int) == height(n0, s as int));
            assert(height(a, 0) == height(n0, 0));
        }
        Self::chain_in(&mut self.nodes, s, p0, k, Ghost(order0));
        self.order = Ghost(o2);
        self.length = self.length + 1;
        proof {
            let b = self.nodes@;
            assert(b[0].links == a[0].links);
            assert forall|j: int| 0 <= j < height(b, 0) implies #[trigger] level_ok(b, o2, j) by {
                assert(level_ok(a, o2, j));
                lemma_links_unchanged(a, b, o2, j);
            }
            lemma_values_frame(n0, a, order0);
        }
    }

    /// Puts `value` at `index`, moving what was there and what follows one
    /// place back.
    pub fn insert(&mut self, index: usize, value: V)
        requires
            old(self).wf(),
            index <= old(self)@.len(),
        ensures
            final(self).wf(),
            final(self)@ == old(self)@.insert(index as int, value),
            final(self).level_generator().probability() == old(
                self,
            ).level_generator().probability(),
            final(self).level_generator().max_levels() == old(
                self,
            ).level_generator().max_levels(),
            old(self).level_generator().limit() <= final(self).level_generator().limit() <= old(
                self,
            ).level_generator().limit() + 1,
    {
        let slot_count: usize = self.nodes.len();
        let level = self.level_generator.choose_level();
        self.raise_head(level);
        let (slots, positions) = self.locate(index + 1);
        self.splice(&slots, &positions, index + 1, level, value);
    }

    /// Leads level `l` of the node in slot `p`, at position `pp`, past the
    /// `c` nodes from position `k` on.
    fn relink_level(
        nodes: &mut Vec<Node<V>>,
        p: usize,
        pp: usize,
        k: usize,
        c: usize,
        l: usize,
        Ghost(order): Ghost<Seq<usize>>,
    )
        requires
            1 <= k,
            1 <= c,
            k + c <= order.len(),
            order.len() <= old(nodes)@.len(),
            forall|q: int| 0 <= q < order.len() ==> #[trigger] order[q] < old(nodes)@.len(),
            forall|q: int, r: int|
                0 <= q < r < order.len() ==> #[trigger] order[q] != #[trigger] order[r],
            forall|q: int|
                0 <= q < order.len() ==> old(nodes)@[#[trigger] order[q] as int].links@.len() == old(
                    nodes,
                )@[order[q] as int].links_len@.len(),
            level_ok(old(nodes)@, order, l as int),
            pred_ok(old(nodes)@, order, k as int, l as int, p, pp as int),
        ensures
            same_shape(old(nodes)@, final(nodes)@),
            same_links_off(old(nodes)@, final(nodes)@, l as int),
            level_ok(final(nodes)@, removed(order, k as int, c as int), l as int),
    {
        let ghost a = nodes@;
        let slot_count: usize = nodes.len();
        let mut u: usize = p;
        let mut upos: usize = pp;
        let mut target: usize = NIL;
        let mut span: usize = 0;
        loop
            invariant_except_break
                pp <= upos < k + c,
                u == order[upos as int],
                height_at(a, order, upos as int) > l,
            invariant
                nodes@ == a,
                slot_count == a.len(),
                1 <= k,
                1 <= c,
                k + c <= order.len(),
                pp < k,
                order.len() <= a.len(),
                forall|q: int| 0 <= q < order.len() ==> #[trigger] order[q] < a.len(),
                forall|q: int|
                    0 <= q < order.len() ==> a[#[trigger] order[q] as int].links@.len()
                        == a[order[q] as int].links_len@.len(),
                level_ok(a, order, l as int),
            ensures
                target == NIL ==> span == 0 && forall|q: int|
                    k + c <= q < order.len() ==> #[trigger] height_at(a, order, q) <= l,
                target != NIL ==> {
                    &&& k + c <= pp + span + c < order.len()
                    &&& target == order[pp + span + c]
                    &&& height_at(a, order, pp + span + c) > l
                    &&& forall|q: int|
                        k + c <= q < pp + span + c ==> #[trigger] height_at(a, order, q) <= l
                },
            decreases k + c - upos,
        {
            proof {
                assert(order[upos as int] < a.len());
                assert(link_ok(a, order, upos as int, l as int));
            }
            let t = nodes[u].links[l];
            if t == NIL {
                target = NIL;
                span = 0;
                break ;
            }
            let d = nodes[u].links_len[l];
            let tpos: usize = upos + d;
            if tpos < k + c {
                u = t;
                upos = tpos;
            } else {
                target = t;
                span = tpos - pp - c;
                break ;
            }
        }
        proof {
            assert(order[pp as int] < a.len());
        }
        Self::set_link(nodes, p, l, target, span);
        proof {
            let b = nodes@;
            assert forall|i: int| 0 <= i < a.len() implies {
                &&& #[trigger] height(b, i) == height(a, i)
                &&& b[i].links_len@.len() == a[i].links_len@.len()
                &&& b[i].value == a[i].value
                &&& b[i].next == a[i].next
                &&& b[i].prev == a[i].prev
            } by {}
            let tpos: int = if target == NIL {
                order.len() as int
            } else {
                pp + span + c
            };
            assert forall|q: int| 0 <= q < order.len() implies #[trigger] order[q] != NIL by {
                assert(order[q] < a.len());
            }
            lemma_cut_level(a, b, order, k as int, c as int, l as int, p, pp as int, tpos);
        }
    }

    /// Takes the value out of the node in `slot` and reads its successor.
    fn release(nodes: &mut Vec<Node<V>>, slot: usize) -> (r: (Option<V>, usize))
        requires
            slot < old(nodes)@.len(),
        ensures
            r.0 == old(nodes)@[slot as int].value,
            r.1 == old(nodes)@[slot as int].next,
            final(nodes)@.len() == old(nodes)@.len(),
            forall|i: int|
                0 <= i < old(nodes)@.len() && i != slot ==> #[trigger] final(nodes)@[i] == old(
                    nodes,
                )@[i],
            final(nodes)@[slot as int].links == old(nodes)@[slot as int].links,
            final(nodes)@[slot as int].links_len == old(nodes)@[slot as int].links_len,
    {
        let value = nodes[slot].value.take();
        let next = nodes[slot].next;
        (value, next)
    }

    /// Takes the `c` nodes from position `k` on out of the chain, behind the
    /// node in slot `p0`, and hands back the value of the first.
    fn release_run(&mut self, p0: usize, k: usize, c: usize) -> (first: V)
        requires
            old(self).order@.len() == old(self).length + 1,
            slots_ok(old(self).nodes@.len() as int, old(self).order@, old(self).free@),
            shape_ok(old(self).nodes@, old(self).order@),
            1 <= k,
            1 <= c,
            k + c <= old(self).order@.len(),
            p0 == old(self).order@[k - 1],
        ensures
            final(self).order@ == removed(old(self).order@, k as int, c as int),
            final(self).length == old(self).length - c,
            final(self).nodes@.len() == old(self).nodes@.len(),
            slots_ok(final(self).nodes@.len() as int, final(self).order@, final(self).free@),
            shape_ok(final(self).nodes@, final(self).order@),
            values_of(final(self).nodes@, final(self).order@) == values_of(
                old(self).nodes@,
                old(self).order@,
            ).subrange(0, k - 1) + values_of(old(self).nodes@, old(self).order@).subrange(
                k - 1 + c,
                old(self).order@.len() - 1,
            ),
            first == values_of(old(self).nodes@, old(self).order@)[k - 1],
            forall|i: int|
                0 <= i < old(self).nodes@.len() ==> (#[trigger] final(self).nodes@[i]).links == old(
                    self,
                ).nodes@[i].links && final(self).nodes@[i].links_len == old(
                    self,
                ).nodes@[i].links_len,
    {
        let ghost a = self.nodes@;
        let ghost order = self.order@;
        let ghost free0 = self.free@;
        let slot_count: usize = self.nodes.len();
        proof {
            assert(node_ok(a, order, k - 1));
            assert(order[k - 1] < a.len());
            assert(order[k as int] < a.len());
        }
        let mut cur: usize = self.nodes[p0].next;
        let mut first: Option<V> = None;
        let mut i: usize = 0;
        while i < c
            invariant
                i <= c,
                1 <= k,
                k + c <= order.len(),
                self.order@ == order,
                self.length == old(self).length,
                self.nodes@.len() == a.len(),
                slot_count == a.len(),
                slots_ok(a.len() as int, order, free0),
                shape_ok(a, order),
                cur == (if k + i < order.len() {
                    order[k + i]
                } else {
                    NIL
                }),
                self.free@ == free0 + order.subrange(k as int, k + i),
                forall|q: int|
                    0 <= q < order.len() && !(k <= q < k + i) ==> self.nodes@[#[trigger] order[q] as int]
                        == a[order[q] as int],
                forall|j: int|
                    0 <= j < a.len() ==> (#[trigger] self.nodes@[j]).links == a[j].links
                        && self.nodes@[j].links_len == a[j].links_len,
                i >= 1 ==> first == a[order[k as int] as int].value,
            decreases c - i,
        {
            let ghost before = self.nodes@;
            proof {
                assert(order[k + i] < a.len());
                assert(node_ok(a, order, k + i));
                assert(self.nodes@[order[k + i] as int] == a[order[k + i] as int]);
            }
            let (value, next) = Self::release(&mut self.nodes, cur);
            if i == 0 {
                first = value;
            }
            self.free.push(cur);
            proof {
                assert(self.free@ =~= free0 + order.subrange(k as int, k + i + 1));
                assert forall|q: int|
                    0 <= q < order.len() && !(k <= q < k + i + 1) implies self.nodes@[#[trigger] order[q] as int]
                    == a[order[q] as int] by {
                    if q < k + i {
                        assert(order[q] != order[k + i]);
                    } else {
                        assert(order[k + i] != order[q]);
                    }
                    assert(before[order[q] as int] == a[order[q] as int]);
                }
            }
            cur = next;
            i = i + 1;
        }
        let ghost m = self.nodes@;
        proof {
            assert(m[order[k - 1] as int] == a[order[k - 1] as int]);
            if k + c < order.len() {
                assert(order[k + c] < a.len());
                assert(order[k - 1] != order[k + c]);
                assert(m[order[k + c] as int] == a[order[k + c] as int]);
            }
        }
        let before_p0 = self.nodes[p0].prev;
        Self::set_chain(&mut self.nodes, p0, cur, before_p0);
        if cur != NIL {
            let after = self.nodes[cur].next;
            Self::set_chain(&mut self.nodes, cur, after, p0);
        }
        self.order = Ghost(removed(order, k as int, c as int));
        self.length = self.length - c;
        proof {
            let b = self.nodes@;
            assert forall|q: int| 0 <= q < order.len() && !(k <= q < k + c) implies {
                &&& height_at(b, order, q) == height_at(a, order, q)
                &&& (#[trigger] b[order[q] as int]).links_len@.len() == a[order[q] as int].links_len@.len()
                &&& b[order[q] as int].value == a[order[q] as int].value
            } by {
                assert(order[q] < a.len());
                assert(m[order[q] as int] == a[order[q] as int]);
                assert(b[order[q] as int].links == a[order[q] as int].links);
            }
            assert forall|q: int| 0 <= q < order.len() && !(k - 1 <= q <= k + c) implies (#[trigger] b[order[q] as int]).next
                == a[order[q] as int].next && b[order[q] as int].prev == a[order[q] as int].prev by {
                assert(order[q] < a.len());
                assert(m[order[q] as int] == a[order[q] as int]);
                if q < k - 1 {
                    assert(order[q] != order[k - 1]);
                } else {
                    assert(order[k - 1] != order[q]);
                }
                if k + c < order.len() {
                    if q < k + c {
                        assert(order[q] != order[k + c]);
                    } else {
                        assert(order[k + c] != order[q]);
                    }
                }
            }
            lemma_chain_removed(a, b, order, k as int, c as int);
            lemma_slots_removed(a.len() as int, order, free0, k as int, c as int);
            assert(node_ok(a, order, k as int));
        }
        first.unwrap()
    }

    /// Takes the `c` nodes from position `k` on out of the list, behind the
    /// nodes that `slots` and `positions` name, and hands back the value of
    /// the first.
    fn cut(&mut self, slots: &Vec<usize>, positions: &Vec<usize>, k: usize, c: usize) -> (first: V)
        requires
            old(self).wf(),
            1 <= k,
            1 <= c,
            k + c <= old(self).length + 1,
            preds_ok(old(self).nodes@, old(self).order@, k as int, slots@, positions@),
        ensures
            final(self).wf(),
            final(self)@ == old(self)@.subrange(0, k - 1) + old(self)@.subrange(
                k - 1 + c,
                old(self)@.len() as int,
            ),
            first == old(self)@[k - 1],
            final(self).order@ == removed(old(self).order@, k as int, c as int),
    {
        let ghost order0 = self.order@;
        let ghost n0 = self.nodes@;
        let ghost o2 = removed(order0, k as int, c as int);
        let h: usize = self.nodes[0].links.len();
        let slot_count: usize = self.nodes.len();
        proof {
            assert(node_ok(n0, order0, 1));
        }
        let mut l: usize = 0;
        while l < h
            invariant
                l <= h,
                1 <= h,
                h == height(n0, 0),
                1 <= k,
                1 <= c,
                k + c <= order0.len(),
                self.order@ == order0,
                self.free@ == old(self).free@,
                self.length == old(self).length,
                self.length + 1 == order0.len(),
                o2 == removed(order0, k as int, c as int),
                slots_ok(n0.len() as int, order0, self.free@),
                shape_ok(n0, order0),
                preds_ok(n0, order0, k as int, slots@, positions@),
                same_shape(n0, self.nodes@),
                forall|j: int| 0 <= j < l ==> #[trigger] level_ok(self.nodes@, o2, j),
                forall|j: int| l <= j < h ==> #[trigger] level_ok(self.nodes@, order0, j),
            decreases h - l,
        {
            let p = slots[l];
            let pp = positions[l];
            let ghost a = self.nodes@;
            proof {
                assert(pred_ok(n0, order0, k as int, l as int, p, pp as int));
                lemma_pred_frame(n0, a, order0, k as int, l as int, p, pp as int);
                lemma_lens_removed(n0, a, order0, k as int, c as int);
                assert(level_ok(a, order0, l as int));
            }
            Self::relink_level(&mut self.nodes, p, pp, k, c, l, Ghost(order0));
            proof {
                let b = self.nodes@;
                lemma_same_shape_trans(n0, a, b);
                assert forall|q: int| 0 <= q < o2.len() implies #[trigger] o2[q] < a.len() by {
                    if q < k {
                        assert(order0[q] < a.len());
                    } else {
                        assert(order0[q + c] < a.len());
                    }
                }
                assert forall|j: int| 0 <= j < l + 1 implies #[trigger] level_ok(b, o2, j) by {
                    if j < l {
                        assert(level_ok(a, o2, j));
                        lemma_frame_other(a, b, o2, l as int, j);
                    }
                }
                assert forall|j: int| l + 1 <= j < h implies #[trigger] level_ok(b, order0, j) by {
                    assert(level_ok(a, order0, j));
                    lemma_frame_other(a, b, order0, l as int, j);
                }
            }
            l = l + 1;
        }
        let p0 = slots[0];
        let ghost a = self.nodes@;
        proof {
            assert(pred_ok(n0, order0, k as int, 0, p0, positions@[0] as int));
            let pos0 = positions@[0] as int;
            if pos0 < k - 1 {
                assert(node_ok(n0, order0, k - 1));
                assert(height_at(n0, order0, k - 1) <= 0);
            }
            lemma_shape_frame(n0, a, order0);
            lemma_values_frame(n0, a, order0);
            assert(height(a, 0) == height(n0, 0));
        }
        let first = self.release_run(p0, k, c);
        proof {
            let b = self.nodes@;
            assert(b[0].links == a[0].links);
            assert forall|q: int| 0 <= q < o2.len() implies #[trigger] o2[q] < a.len() by {
                if q < k {
                    assert(order0[q] < a.len());
                } else {
                    assert(order0[q + c] < a.len());
                }
            }
            assert forall|j: int| 0 <= j < height(b, 0) implies #[trigger] level_ok(b, o2, j) by {
                assert(level_ok(a, o2, j));
                lemma_links_unchanged(a, b, o2, j);
            }
        }
        first
    }

    /// Takes the value at `index` out of the list.
    pub fn remove(&mut self, index: usize) -> (value: V)
        requires
            old(self).wf(),
            index < old(self)@.len(),
        ensures
            final(self).wf(),
            final(self)@ == old(self)@.remove(index as int),
            value == old(self)@[index as int],
    {
        proof {
            assert(node_ok(self.nodes@, self.order@, 1));
        }
        let (slots, positions) = self.locate(index + 1);
        let value = self.cut(&slots, &positions, index + 1, 1);
        proof {
            assert(self@ =~= old(self)@.remove(index as int));
        }
        value
    }

    /// The bounds of a range as two indices, the second held to the length.
    pub fn _normalize_range(&self, start: Bound<usize>, end: Bound<usize>) -> (r: (usize, usize))
        requires
            self.wf(),
            range_start(start) <= range_end(end, self@.len() as int),
        ensures
            r.0 == range_start(start),
            r.1 == range_end(end, self@.len() as int),
            r.0 <= r.1 <= self@.len(),
    {
        let left: usize = match start {
            Bound::Unbounded => 0,
            Bound::Included(i) => i,
            Bound::Excluded(i) => i + 1,
        };
        let right: usize = match end {
            Bound::Unbounded => self.length,
            Bound::Included(i) => if i >= self.length {
                self.length
            } else {
                i + 1
            },
            Bound::Excluded(i) => if i > self.length {
                self.length
            } else {
                i
            },
        };
        (left, right)
    }

    /// Takes the values of a range of indices out of the list and says how
    /// many they were.
    pub fn remove_range(&mut self, start: Bound<usize>, end: Bound<usize>) -> (n: usize)
        requires
            old(self).wf(),
            range_start(start) <= range_end(end, old(self)@.len() as int),
        ensures
            final(self).wf(),
            n == range_end(end, old(self)@.len() as int) - range_start(start),
            final(self)@ == old(self)@.subrange(0, range_start(start)) + old(self)@.subrange(
                range_end(end, old(self)@.len() as int),
                old(self)@.len() as int,
            ),
    {
        let (left, right) = self._normalize_range(start, end);
        if left == right {
            proof {
                assert(self@ =~= self@.subrange(0, left as int) + self@.subrange(
                    right as int,
                    self@.len() as int,
                ));
            }
            return 0;
        }
        proof {
            assert(node_ok(self.nodes@, self.order@, 1));
        }
        let (slots, positions) = self.locate(left + 1);
        let _ = self.cut(&slots, &positions, left + 1, right - left);
        right - left
    }

    /// Puts `value` in front of all others.
    pub fn push_front(&mut self, value: V)
        requires
            old(self).wf(),
        ensures
            final(self).wf(),
            final(self)@ == old(self)@.insert(0, value),
            final(self).level_generator().probability() == old(
                self,
            ).level_generator().probability(),
            final(self).level_generator().max_levels() == old(
                self,
            ).level_generator().max_levels(),
            old(self).level_generator().limit() <= final(self).level_generator().limit() <= old(
                self,
            ).level_generator().limit() + 1,
    {
        self.insert(0, value)
    }

    /// Takes the first value out of the list, if there is one.
    pub fn pop_front(&mut self) -> (r: Option<V>)
        requires
            old(self).wf(),
        ensures
            final(self).wf(),
            old(self)@.len() == 0 ==> r is None && final(self)@ == old(self)@,
            old(self)@.len() > 0 ==> r == Some(old(self)@[0]) && final(self)@ == old(self)@.remove(
                0,
            ),
    {
        if self.length == 0 {
            return None;
        }
        Some(self.remove(0))
    }

    /// Puts `value` behind all others.
    pub fn push_back(&mut self, value: V)
        requires
            old(self).wf(),
        ensures
            final(self).wf(),
            final(self)@ == old(self)@.push(value),
            final(self).level_generator().probability() == old(
                self,
            ).level_generator().probability(),
            final(self).level_generator().max_levels() == old(
                self,
            ).level_generator().max_levels(),
            old(self).level_generator().limit() <= final(self).level_generator().limit() <= old(
                self,
            ).level_generator().limit() + 1,
    {
        let at = self.length;
        self.insert(at, value);
        proof {
            assert(self@ =~= old(self)@.push(value));
        }
    }

    /// Takes the last value out of the list, if there is one.
    pub fn pop_back(&mut self) -> (r: Option<V>)
        requires
            old(self).wf(),
        ensures
            final(self).wf(),
            old(self)@.len() == 0 ==> r is None && final(self)@ == old(self)@,
            old(self)@.len() > 0 ==> r == Some(old(self)@.last()) && final(self)@ == old(
                self,
            )@.drop_last(),
    {
        if self.length == 0 {
            return None;
        }
        let at = self.length - 1;
        let value = self.remove(at);
        proof {
            assert(self@ =~= old(self)@.drop_last());
        }
        Some(value)
    }

    /// The first value, if there is one.
    pub fn front(&self) -> (r: Option<&V>)
        requires
            self.wf(),
        ensures
            self@.len() == 0 ==> r is None,
            self@.len() > 0 ==> r == Some(&self@[0]),
    {
        let slot_count: usize = self.nodes.len();
        proof {
            assert(node_ok(self.nodes@, self.order@, 0));
            if self.length > 0 {
                assert(node_ok(self.nodes@, self.order@, 1));
                assert(self.order@[1] < slot_count);
            }
        }
        let first = self.nodes[0].next;
        if first == NIL {
            None
        } else {
            self.nodes[first].value.as_ref()
        }
    }

    /// The last value, if there is one.
    pub fn back(&self) -> (r: Option<&V>)
        requires
            self.wf(),
        ensures
            self@.len() == 0 ==> r is None,
            self@.len() > 0 ==> r == Some(&self@.last()),
    {
        if self.length == 0 {
            return None;
        }
        self.get(self.length - 1)
    }

    /// The number of levels in use.
    pub(crate) fn levels(&self) -> (n: usize)
        requires
            self.wf(),
        ensures
            n == self.spec_levels(),
    {
        self.nodes[0].links.len()
    }

    /// The values from the front on.
    pub fn iter(&self) -> (it: Iter<'_, V>)
        requires
            self.wf(),
        ensures
            it.wf(),
            it@ == self@,
            it.list() == self,
    {
        proof {
            assert(node_ok(self.nodes@, self.order@, 0));
        }
        let it = Iter { list: self, current: self.nodes[0].next, pos: Ghost(1) };
        proof {
            assert(it@ =~= self@);
        }
        it
    }

    /// The values from the back on.
    pub fn reverse_iter(&self) -> (it: ReverseIter<'_, V>)
        requires
            self.wf(),
        ensures
            it.wf(),
            it@ == self@.reverse(),
            it.list() == self,
    {
        if self.length == 0 {
            let it = ReverseIter { list: self, current: NIL, pos: Ghost(0) };
            proof {
                assert(it@ =~= self@.reverse());
            }
            return it;
        }
        let last = self.slot_at(self.length - 1);
        let it = ReverseIter { list: self, current: last, pos: Ghost(self.length as int) };
        proof {
            assert(self@.subrange(0, self.length as int) =~= self@);
        }
        it
    }

    /// The values of a range of indices, lowest index first. An empty list
    /// has an empty range, whatever the bounds.
    pub fn range(&self, start: Bound<usize>, end: Bound<usize>) -> (it: Range<'_, V>)
        requires
            self.wf(),
            self@.len() == 0 || range_start(start) <= range_end(end, self@.len() as int),
        ensures
            it.wf(),
            it.list() == self,
            self@.len() == 0 ==> it@ == Seq::<V>::empty(),
            self@.len() > 0 ==> it@ == self@.subrange(
                range_start(start),
                range_end(end, self@.len() as int),
            ),
    {
        if self.length == 0 {
            let it = Range { list: self, current: NIL, left: 0, pos: Ghost(1) };
            proof {
                assert(it@ =~= Seq::<V>::empty());
            }
            return it;
        }
        let (left, right) = self._normalize_range(start, end);
        if left == right {
            let it = Range { list: self, current: NIL, left: 0, pos: Ghost(left + 1) };
            proof {
                assert(it@ =~= self@.subrange(left as int, right as int));
            }
            return it;
        }
        let first = self.slot_at(left);
        Range { list: self, current: first, left: right - left, pos: Ghost(left + 1) }
    }

    /// The values of a range of indices, highest index first. An empty list
    /// has an empty range, whatever the bounds.
    pub fn reverse_range(&self, start: Bound<usize>, end: Bound<usize>) -> (it: ReverseRange<
        '_,
        V,
    >)
        requires
            self.wf(),
            self@.len() == 0 || range_start(start) <= range_end(end, self@.len() as int),
        ensures
            it.wf(),
            it.list() == self,
            self@.len() == 0 ==> it@ == Seq::<V>::empty(),
            self@.len() > 0 ==> it@ == self@.subrange(
                range_start(start),
                range_end(end, self@.len() as int),
            ).reverse(),
    {
        if self.length == 0 {
            let it = ReverseRange { list: self, current: NIL, left: 0, pos: Ghost(0) };
            proof {
                assert(it@ =~= Seq::<V>::empty());
            }
            return it;
        }
        let (left, right) = self._normalize_range(start, end);
        if left == right {
            let it = ReverseRange { list: self, current: NIL, left: 0, pos: Ghost(left as int) };
            proof {
                assert(it@ =~= self@.subrange(left as int, right as int).reverse());
            }
            return it;
        }
        let last = self.slot_at(right - 1);
        ReverseRange { list: self, current: last, left: right - left, pos: Ghost(right as int) }
    }

    /// The value at `index`, to be changed in place, or `None` if the list is
    /// not that long.
    pub fn get_mut(&mut self, index: usize) -> (r: Option<&mut V>)
        requires
            old(self).wf(),
        ensures
            final(self).wf(),
            index >= old(self)@.len() ==> r is None && final(self)@ == old(self)@,
            index < old(self)@.len() ==> r is Some,
            match r {
                Some(v) => *v == old(self)@[index as int] && final(self)@ == old(self)@.update(
                    index as int,
                    *final(v),
                ),
                None => true,
            },
    {
        if self.length <= index {
            return None;
        }
        let slot = self.slot_at(index);
        let ghost a = self.nodes@;
        let ghost order = self.order@;
        proof {
            assert(node_ok(a, order, index + 1));
            lemma_any_value(a, order, index + 1);
        }
        match &mut self.nodes[slot].value {
            Some(v) => Some(v),
            None => vstd::pervasive::unreached(),
        }
    }

    /// The first value, to be changed in place, if there is one.
    pub fn front_mut(&mut self) -> (r: Option<&mut V>)
        requires
            old(self).wf(),
        ensures
            final(self).wf(),
            old(self)@.len() == 0 ==> r is None && final(self)@ == old(self)@,
            old(self)@.len() > 0 ==> r is Some,
            match r {
                Some(v) => *v == old(self)@[0] && final(self)@ == old(self)@.update(0, *final(v)),
                None => true,
            },
    {
        self.get_mut(0)
    }

    /// The last value, to be changed in place, if there is one.
    pub fn back_mut(&mut self) -> (r: Option<&mut V>)
        requires
            old(self).wf(),
        ensures
            final(self).wf(),
            old(self)@.len() == 0 ==> r is None && final(self)@ == old(self)@,
            old(self)@.len() > 0 ==> r is Some,
            match r {
                Some(v) => *v == old(self)@.last() && final(self)@ == old(self)@.update(
                    old(self)@.len() - 1,
                    *final(v),
                ),
                None => true,
            },
    {
        if self.length == 0 {
            return None;
        }
        let at = self.length - 1;
        self.get_mut(at)
    }

    /// The values from the front on, each to be changed in place.
    pub fn iter_mut(&mut self) -> (it: IterMut<'_, V>)
        requires
            old(self).wf(),
        ensures
            it.wf(),
            it@ == old(self)@,
            it.done() == Seq::<V>::empty(),
            *final(self) == *final(it.list),
    {
        proof {
            assert(node_ok(self.nodes@, self.order@, 0));
        }
        let first = self.nodes[0].next;
        let it = IterMut { list: self, current: first, pos: Ghost(1) };
        proof {
            assert(it@ =~= old(self)@);
            assert(it.done() =~= Seq::<V>::empty());
        }
        it
    }

    /// The values from the back on, each to be changed in place.
    pub fn reverse_iter_mut(&mut self) -> (it: ReverseIterMut<'_, V>)
        requires
            old(self).wf(),
        ensures
            it.wf(),
            it@ == old(self)@.reverse(),
            it.done() == Seq::<V>::empty(),
            *final(self) == *final(it.list),
    {
        if self.length == 0 {
            let it = ReverseIterMut { list: self, current: NIL, pos: Ghost(0) };
            proof {
                assert(it@ =~= old(self)@.reverse());
                assert(it.done() =~= Seq::<V>::empty());
            }
            return it;
        }
        let last = self.slot_at(self.length - 1);
        let ghost len = self.length as int;
        let it = ReverseIterMut { list: self, current: last, pos: Ghost(len) };
        proof {
            assert(old(self)@.subrange(0, len) =~= old(self)@);
            assert(it.done() =~= Seq::<V>::empty());
        }
        it
    }

    /// The values of a range of indices, lowest index first, each to be
    /// changed in place. An empty list has an empty range, whatever the
    /// bounds.
    pub fn range_mut(&mut self, start: Bound<usize>, end: Bound<usize>) -> (it: RangeMut<'_, V>)
        requires
            old(self).wf(),
            old(self)@.len() == 0 || range_start(start) <= range_end(
                end,
                old(self)@.len() as int,
            ),
        ensures
            it.wf(),
            *final(self) == *final(it.list),
            it.done() == Seq::<V>::empty(),
            it.head() + it@ + it.tail() == old(self)@,
            old(self)@.len() == 0 ==> it@ == Seq::<V>::empty(),
            old(self)@.len() > 0 ==> it@ == old(self)@.subrange(
                range_start(start),
                range_end(end, old(self)@.len() as int),
            ),
    {
        if self.length == 0 {
            let it = RangeMut { list: self, current: NIL, left: 0, pos: Ghost(1), from: Ghost(1) };
            proof {
                assert(it@ =~= Seq::<V>::empty());
                assert(it.done() =~= Seq::<V>::empty());
                assert(it.head() + it@ + it.tail() =~= old(self)@);
            }
            return it;
        }
        let (left, right) = self._normalize_range(start, end);
        if left == right {
            let it = RangeMut {
                list: self,
                current: NIL,
                left: 0,
                pos: Ghost(left + 1),
                from: Ghost(left + 1),
            };
            proof {
                assert(it@ =~= old(self)@.subrange(left as int, right as int));
                assert(it.done() =~= Seq::<V>::empty());
                assert(it.head() + it@ + it.tail() =~= old(self)@);
            }
            return it;
        }
        let first = self.slot_at(left);
        let it = RangeMut {
            list: self,
            current: first,
            left: right - left,
            pos: Ghost(left + 1),
            from: Ghost(left + 1),
        };
        proof {
            assert(it.done() =~= Seq::<V>::empty());
            assert(it.head() + it@ + it.tail() =~= old(self)@);
        }
        it
    }

    /// The values of a range of indices, highest index first, each to be
    /// changed in place. An empty list has an empty range, whatever the
    /// bounds.
    pub fn reverse_range_mut(&mut self, start: Bound<usize>, end: Bound<usize>) -> (it:
        ReverseRangeMut<'_, V>)
        requires
            old(self).wf(),
            old(self)@.len() == 0 || range_start(start) <= range_end(
                end,
                old(self)@.len() as int,
            ),
        ensures
            it.wf(),
            *final(self) == *final(it.list),
            it.done() == Seq::<V>::empty(),
            it.head() + it@.reverse() + it.tail() == old(self)@,
            old(self)@.len() == 0 ==> it@ == Seq::<V>::empty(),
            old(self)@.len() > 0 ==> it@ == old(self)@.subrange(
                range_start(start),
                range_end(end, old(self)@.len() as int),
            ).reverse(),
    {
        if self.length == 0 {
            let it = ReverseRangeMut {
                list: self,
                current: NIL,
                left: 0,
                pos: Ghost(0),
                until: Ghost(0),
            };
            proof {
                assert(it@ =~= Seq::<V>::empty());
                assert(it.done() =~= Seq::<V>::empty());
                assert(it.head() + it@.reverse() + it.tail() =~= old(self)@);
            }
            return it;
        }
        let (left, right) = self._normalize_range(start, end);
        if left == right {
            let it = ReverseRangeMut {
                list: self,
                current: NIL,
                left: 0,
                pos: Ghost(left as int),
                until: Ghost(left as int),
            };
            proof {
                assert(it@ =~= old(self)@.subrange(left as int, right as int).reverse());
                assert(it.done() =~= Seq::<V>::empty());
                assert(it.head() + it@.reverse() + it.tail() =~= old(self)@);
            }
            return it;
        }
        let last = self.slot_at(right - 1);
        let it = ReverseRangeMut {
            list: self,
            current: last,
            left: right - left,
            pos: Ghost(right as int),
            until: Ghost(right as int),
        };
        proof {
            assert(it.done() =~= Seq::<V>::empty());
            assert(it.head() + it@.reverse() + it.tail() =~= old(self)@);
        }
        it
    }

    /// The number of levels of the node of each value.
    pub closed spec fn heights(&self) -> Seq<nat> {
        Seq::new(
            self.length as nat,
            |i: int| self.nodes@[self.order@[i + 1] as int].links@.len(),
        )
    }

    /// The line of `level` over the `span` values from index `left` on, the
    /// first of which lies in slot `first`.
    fn write_line(&self, first: usize, left: usize, span: usize, level: usize) -> (line: String)
        requires
            self.wf(),
            span >= 1,
            left + span <= self.length,
            first == self.order@[left + 1],
        ensures
            line@ == ladder_line(self.heights(), left as nat, level as nat, span as nat),
    {
        let slot_count: usize = self.nodes.len();
        let ghost hs = self.heights();
        let mut line = String::from_str("");
        let mut cur: usize = first;
        let mut idx: usize = 0;
        proof {
            reveal_strlit("");
            assert(line@ =~= ladder_line(hs, left as nat, level as nat, 0));
        }
        while idx < span
            invariant
                self.wf(),
                hs == self.heights(),
                idx <= span,
                left + span <= self.length,
                slot_count == self.nodes@.len(),
                idx < span ==> cur == self.order@[left + 1 + idx],
                line@ == ladder_line(hs, left as nat, level as nat, idx as nat),
            decreases span - idx,
        {
            let ghost p = left + 1 + idx;
            proof {
                assert(self.order@[p] < slot_count);
                assert(node_ok(self.nodes@, self.order@, p));
                if p + 1 < self.order@.len() {
                    assert(self.order@[p + 1] < slot_count);
                }
                assert(hs[left + idx] == self.nodes@[cur as int].links@.len());
            }
            let linked = self.nodes[cur].links.len() > level;
            write_cell(&mut line, linked, idx);
            let next = self.nodes[cur].next;
            let arrives = next == NIL || self.nodes[next].links.len() > level;
            proof {
                if next != NIL {
                    assert(hs[left + idx + 1] == self.nodes@[next as int].links@.len());
                }
            }
            write_arrow(&mut line, arrives);
            if next != NIL {
                cur = next;
            }
            idx = idx + 1;
        }
        line
    }

    /// A diagram of the links over a stretch of the list, of 20 values at
    /// most: a first line, one line for each level from the highest down,
    /// and the values, each with the text that `shown` holds for it.
    pub fn explain(&self, start: Bound<usize>, end: Bound<usize>, shown: &Vec<String>) -> (r:
        Result<String, &'static str>)
        requires
            self.wf(),
            range_start(start) <= range_end(end, self@.len() as int),
            range_end(end, self@.len() as int) - range_start(start) <= MAX_SPAN ==> shown@.len()
                == range_end(end, self@.len() as int) - range_start(start),
        ensures
            match r {
                Ok(text) => {
                    let left = range_start(start);
                    let span = range_end(end, self@.len() as int) - left;
                    &&& span <= MAX_SPAN
                    &&& text@ == diagram(
                        self.heights(),
                        left as nat,
                        span as nat,
                        self.spec_levels(),
                        texts(shown@),
                    )
                },
                Err(message) => {
                    &&& range_end(end, self@.len() as int) - range_start(start) > MAX_SPAN
                    &&& message@ == too_wide()
                },
            },
    {
        let (left, right) = self._normalize_range(start, end);
        let span = right - left;
        if span > MAX_SPAN {
            return Err("Range span is too big, the span should be smaller than 20");
        }
        let levels: usize = self.nodes[0].links.len();
        let ghost hs = self.heights();
        let mut result = write_header(left, levels, span, self.length);
        let first: usize = if span > 0 {
            self.slot_at(left)
        } else {
            0
        };
        let mut level: usize = levels;
        proof {
            assert(result@ =~= header(left as nat, levels as nat, span as nat, hs.len()) + ladder(
                hs,
                left as nat,
                span as nat,
                levels as nat,
                level as nat,
            ));
        }
        while level > 0
            invariant
                self.wf(),
                hs == self.heights(),
                level <= levels,
                left + span <= self.length,
                span > 0 ==> first == self.order@[left + 1],
                result@ == header(left as nat, levels as nat, span as nat, hs.len()) + ladder(
                    hs,
                    left as nat,
                    span as nat,
                    levels as nat,
                    level as nat,
                ),
            decreases level,
        {
            level = level - 1;
            result.append("\n");
            if span > 0 {
                let line = self.write_line(first, left, span, level);
                result.append(line.as_str());
            }
            proof {
                assert(result@ =~= header(left as nat, levels as nat, span as nat, hs.len())
                    + ladder(hs, left as nat, span as nat, levels as nat, level as nat));
            }
        }
        result.append("\nvalues:\n");
        write_values(&mut result, shown, span);
        Ok(result)
    }

    /// The value at `index`, or `None` if the list is not that long.
    pub fn get(&self, index: usize) -> (r: Option<&V>)
        requires
            self.wf(),
        ensures
            index < self@.len() ==> r == Some(&self@[index as int]),
            index >= self@.len() ==> r is None,
    {
        if self.length <= index {
            return None;
        }
        let slot = self.slot_at(index);
        proof {
            assert(node_ok(self.nodes@, self.order@, index + 1));
        }
        self.nodes[slot].value.as_ref()
    }
}

/// The values of a list, front first. Its view is what is still to come.
pub struct Iter<'a, V> {
    list: &'a SkipList<V>,
    current: usize,
    pos: Ghost<int>,
}

impl<'a, V> View for Iter<'a, V> {
    type V = Seq<V>;

    closed spec fn view(&self) -> Seq<V> {
        self.list@.subrange(self.pos@ - 1, self.list@.len() as int)
    }
}

impl<'a, V> Iter<'a, V> {
    /// The walk is at a place of a well-formed list.
    pub closed spec fn wf(&self) -> bool {
        &&& self.list.wf()
        &&& 1 <= self.pos@ <= self.list.order@.len()
        &&& self.current == (if self.pos@ < self.list.order@.len() {
            self.list.order@[self.pos@]
        } else {
            NIL
        })
    }

    /// The list that is walked.
    pub closed spec fn list(&self) -> &'a SkipList<V> {
        self.list
    }

    /// The next value, if one is left.
    pub fn next(&mut self) -> (r: Option<&'a V>)
        requires
            old(self).wf(),
        ensures
            final(self).wf(),
            final(self).list() == old(self).list(),
            old(self)@.len() == 0 ==> r is None && final(self)@ == old(self)@,
            old(self)@.len() > 0 ==> r == Some(&old(self)@[0]) && final(self)@ == old(self)@.skip(
                1,
            ),
    {
        let slot_count: usize = self.list.nodes.len();
        proof {
            if self.pos@ < self.list.order@.len() {
                assert(self.list.order@[self.pos@] < slot_count);
                assert(node_ok(self.list.nodes@, self.list.order@, self.pos@));
            }
        }
        if self.current == NIL {
            return None;
        }
        let node = &self.list.nodes[self.current];
        self.current = node.next;
        self.pos = Ghost(self.pos@ + 1);
        proof {
            assert(self@ =~= old(self)@.skip(1));
        }
        node.value.as_ref()
    }
}

/// The values of a list, back first. Its view is what is still to come.
pub struct ReverseIter<'a, V> {
    list: &'a SkipList<V>,
    current: usize,
    pos: Ghost<int>,
}

impl<'a, V> View for ReverseIter<'a, V> {
    type V = Seq<V>;

    closed spec fn view(&self) -> Seq<V> {
        self.list@.subrange(0, self.pos@).reverse()
    }
}

impl<'a, V> ReverseIter<'a, V> {
    /// The walk is at a place of a well-formed list.
    pub closed spec fn wf(&self) -> bool {
        &&& self.list.wf()
        &&& 0 <= self.pos@ < self.list.order@.len()
        &&& self.current == (if self.pos@ >= 1 {
            self.list.order@[self.pos@]
        } else {
            NIL
        })
    }

    /// The list that is walked.
    pub closed spec fn list(&self) -> &'a SkipList<V> {
        self.list
    }

    /// The next value towards the front, if one is left.
    pub fn next(&mut self) -> (r: Option<&'a V>)
        requires
            old(self).wf(),
        ensures
            final(self).wf(),
            final(self).list() == old(self).list(),
            old(self)@.len() == 0 ==> r is None && final(self)@ == old(self)@,
            old(self)@.len() > 0 ==> r == Some(&old(self)@[0]) && final(self)@ == old(self)@.skip(
                1,
            ),
    {
        let slot_count: usize = self.list.nodes.len();
        proof {
            if self.pos@ >= 1 {
                assert(self.list.order@[self.pos@] < slot_count);
                assert(self.list.order@[self.pos@ - 1] < slot_count);
                assert(node_ok(self.list.nodes@, self.list.order@, self.pos@));
                assert(node_ok(self.list.nodes@, self.list.order@, self.pos@ - 1));
            }
        }
        if self.current == NIL {
            return None;
        }
        let node = &self.list.nodes[self.current];
        let before = node.prev;
        if self.list.nodes[before].value.is_none() {
            self.current = NIL;
            self.pos = Ghost(0);
        } else {
            self.current = before;
            self.pos = Ghost(self.pos@ - 1);
        }
        proof {
            assert(self@ =~= old(self)@.skip(1));
        }
        node.value.as_ref()
    }
}

/// The values of a range of indices, lowest first. Its view is what is still
/// to come.
pub struct Range<'a, V> {
    list: &'a SkipList<V>,
    current: usize,
    left: usize,
    pos: Ghost<int>,
}

impl<'a, V> View for Range<'a, V> {
    type V = Seq<V>;

    closed spec fn view(&self) -> Seq<V> {
        self.list@.subrange(self.pos@ - 1, self.pos@ - 1 + self.left)
    }
}

impl<'a, V> Range<'a, V> {
    /// The walk is at a place of a well-formed list.
    pub closed spec fn wf(&self) -> bool {
        &&& self.list.wf()
        &&& 1 <= self.pos@
        &&& self.pos@ + self.left <= self.list.order@.len()
        &&& self.current == (if self.left > 0 {
            self.list.order@[self.pos@]
        } else {
            NIL
        })
    }

    /// The list that is walked.
    pub closed spec fn list(&self) -> &'a SkipList<V> {
        self.list
    }

    /// The next value of the range, if one is left.
    pub fn next(&mut self) -> (r: Option<&'a V>)
        requires
            old(self).wf(),
        ensures
            final(self).wf(),
            final(self).list() == old(self).list(),
            old(self)@.len() == 0 ==> r is None && final(self)@ == old(self)@,
            old(self)@.len() > 0 ==> r == Some(&old(self)@[0]) && final(self)@ == old(self)@.skip(
                1,
            ),
    {
        let slot_count: usize = self.list.nodes.len();
        proof {
            if self.left > 0 {
                assert(self.list.order@[self.pos@] < slot_count);
                assert(node_ok(self.list.nodes@, self.list.order@, self.pos@));
            }
        }
        if self.current == NIL {
            return None;
        }
        let node = &self.list.nodes[self.current];
        self.left = self.left - 1;
        if self.left > 0 {
            self.current = node.next;
        } else {
            self.current = NIL;
        }
        self.pos = Ghost(self.pos@ + 1);
        proof {
            assert(self@ =~= old(self)@.skip(1));
        }
        node.value.as_ref()
    }
}

/// The values of a range of indices, highest first. Its view is what is
/// still to come.
pub struct ReverseRange<'a, V> {
    list: &'a SkipList<V>,
    current: usize,
    left: usize,
    pos: Ghost<int>,
}

impl<'a, V> View for ReverseRange<'a, V> {
    type V = Seq<V>;

    closed spec fn view(&self) -> Seq<V> {
        self.list@.subrange(self.pos@ - self.left, self.pos@).reverse()
    }
}

impl<'a, V> ReverseRange<'a, V> {
    /// The walk is at a place of a well-formed list.
    pub closed spec fn wf(&self) -> bool {
        &&& self.list.wf()
        &&& 0 <= self.pos@ - self.left
        &&& self.pos@ < self.list.order@.len()
        &&& self.current == (if self.left > 0 {
            self.list.order@[self.pos@]
        } else {
            NIL
        })
    }

    /// The list that is walked.
    pub closed spec fn list(&self) -> &'a SkipList<V> {
        self.list
    }

    /// The next value of the range towards the front, if one is left.
    pub fn next(&mut self) -> (r: Option<&'a V>)
        requires
            old(self).wf(),
        ensures
            final(self).wf(),
            final(self).list() == old(self).list(),
            old(self)@.len() == 0 ==> r is None && final(self)@ == old(self)@,
            old(self)@.len() > 0 ==> r == Some(&old(self)@[0]) && final(self)@ == old(self)@.skip(
                1,
            ),
    {
        let slot_count: usize = self.list.nodes.len();
        proof {
            if self.left > 0 {
                assert(self.list.order@[self.pos@] < slot_count);
                assert(node_ok(self.list.nodes@, self.list.order@, self.pos@));
            }
        }
        if self.current == NIL {
            return None;
        }
        let node = &self.list.nodes[self.current];
        self.left = self.left - 1;
        if self.left > 0 {
            self.current = node.prev;
        } else {
            self.current = NIL;
        }
        self.pos = Ghost(self.pos@ - 1);
        proof {
            assert(self@ =~= old(self)@.skip(1));
        }
        node.value.as_ref()
    }
}

/// The values of a list that was given up for them, front first.
pub struct IntoIter<V>(pub(crate) SkipList<V>);

impl<V> View for IntoIter<V> {
    type V = Seq<V>;

    closed spec fn view(&self) -> Seq<V> {
        self.0@
    }
}

impl<V> IntoIter<V> {
    /// The list is well formed.
    pub closed spec fn wf(&self) -> bool {
        self.0.wf()
    }

    /// The next value, if one is left.
    pub fn next(&mut self) -> (r: Option<V>)
        requires
            old(self).wf(),
        ensures
            final(self).wf(),
            old(self)@.len() == 0 ==> r is None && final(self)@ == old(self)@,
            old(self)@.len() > 0 ==> r == Some(old(self)@[0]) && final(self)@ == old(self)@.skip(
                1,
            ),
    {
        let r = self.0.pop_front();
        proof {
            if old(self)@.len() > 0 {
                assert(self@ =~= old(self)@.skip(1));
            }
        }
        r
    }
}

impl<V> SkipList<V> {
    /// Gives the list up for its values, front first.
    pub fn into_iter(self) -> (it: IntoIter<V>)
        requires
            self.wf(),
        ensures
            it.wf(),
            it@ == self@,
    {
        IntoIter(self)
    }
}

/// The values of a list, front first, each to be changed in place. Its view
/// is what is still to come.
pub struct IterMut<'a, V> {
    pub list: &'a mut SkipList<V>,
    pub current: usize,
    pub pos: Ghost<int>,
}

impl<'a, V> View for IterMut<'a, V> {
    type V = Seq<V>;

    closed spec fn view(&self) -> Seq<V> {
        self.list@.subrange(self.pos@ - 1, self.list@.len() as int)
    }
}

impl<'a, V> IterMut<'a, V> {
    /// The walk is at a place of a well-formed list.
    pub closed spec fn wf(&self) -> bool {
        &&& self.list.wf()
        &&& 1 <= self.pos@ <= self.list.order@.len()
        &&& self.current == (if self.pos@ < self.list.order@.len() {
            self.list.order@[self.pos@]
        } else {
            NIL
        })
    }

    /// The values that were handed out, as they are now.
    pub closed spec fn done(&self) -> Seq<V> {
        self.list@.subrange(0, self.pos@ - 1)
    }

    /// The list as it is now.
    pub open spec fn now(&self) -> SkipList<V> {
        *self.list
    }

    /// The list holds what was handed out and then what is still to come.
    pub proof fn lemma_whole(&self)
        requires
            self.wf(),
        ensures
            self.now().wf(),
            self.now()@ == self.done() + self@,
    {
        assert(self.now()@ =~= self.done() + self@);
    }

    /// The next value, if one is left.
    pub fn next(&mut self) -> (r: Option<&mut V>)
        requires
            old(self).wf(),
        ensures
            final(self).wf(),
            *final(final(self).list) == *final(old(self).list),
            old(self)@.len() == 0 ==> r is None && final(self)@ == old(self)@ && final(self).done()
                == old(self).done(),
            old(self)@.len() > 0 ==> r is Some,
            match r {
                Some(v) => {
                    &&& *v == old(self)@[0]
                    &&& final(self)@ == old(self)@.skip(1)
                    &&& final(self).done() == old(self).done().push(*final(v))
                },
                None => true,
            },
    {
        let slot_count: usize = self.list.nodes.len();
        let ghost a = self.list.nodes@;
        let ghost order = self.list.order@;
        let ghost p = self.pos@;
        proof {
            if p < order.len() {
                assert(order[p] < slot_count);
                assert(node_ok(a, order, p));
                lemma_any_value(a, order, p);
            }
        }
        if self.current == NIL {
            return None;
        }
        let slot = self.current;
        self.current = self.list.nodes[slot].next;
        self.pos = Ghost(p + 1);
        match &mut self.list.nodes[slot].value {
            Some(v) => Some(v),
            None => vstd::pervasive::unreached(),
        }
    }
}

/// The values of a list, back first, each to be changed in place. Its view
/// is what is still to come.
pub struct ReverseIterMut<'a, V> {
    pub list: &'a mut SkipList<V>,
    pub current: usize,
    pub pos: Ghost<int>,
}

impl<'a, V> View for ReverseIterMut<'a, V> {
    type V = Seq<V>;

    closed spec fn view(&self) -> Seq<V> {
        self.list@.subrange(0, self.pos@).reverse()
    }
}

impl<'a, V> ReverseIterMut<'a, V> {
    /// The walk is at a place of a well-formed list.
    pub closed spec fn wf(&self) -> bool {
        &&& self.list.wf()
        &&& 0 <= self.pos@ < self.list.order@.len()
        &&& self.current == (if self.pos@ >= 1 {
            self.list.order@[self.pos@]
        } else {
            NIL
        })
    }

    /// The values that were handed out, as they are now, in the order in
    /// which they were handed out.
    pub closed spec fn done(&self) -> Seq<V> {
        self.list@.subrange(self.pos@, self.list@.len() as int).reverse()
    }

    /// The list as it is now.
    pub open spec fn now(&self) -> SkipList<V> {
        *self.list
    }

    /// The list holds, back first, what was handed out and then what is
    /// still to come.
    pub proof fn lemma_whole(&self)
        requires
            self.wf(),
        ensures
            self.now().wf(),
            self.now()@.reverse() == self.done() + self@,
    {
        assert(self.now()@.reverse() =~= self.done() + self@);
    }

    /// The next value towards the front, if one is left.
    pub fn next(&mut self) -> (r: Option<&mut V>)
        requires
            old(self).wf(),
        ensures
            final(self).wf(),
            *final(final(self).list) == *final(old(self).list),
            old(self)@.len() == 0 ==> r is None && final(self)@ == old(self)@ && final(self).done()
                == old(self).done(),
            old(self)@.len() > 0 ==> r is Some,
            match r {
                Some(v) => {
                    &&& *v == old(self)@[0]
                    &&& final(self)@ == old(self)@.skip(1)
                    &&& final(self).done() == old(self).done().push(*final(v))
                },
                None => true,
            },
    {
        let slot_count: usize = self.list.nodes.len();
        let ghost a = self.list.nodes@;
        let ghost order = self.list.order@;
        let ghost p = self.pos@;
        proof {
            if p >= 1 {
                assert(order[p] < slot_count);
                assert(order[p - 1] < slot_count);
                assert(node_ok(a, order, p));
                assert(node_ok(a, order, p - 1));
                lemma_any_value(a, order, p);
            }
        }
        if self.current == NIL {
            return None;
        }
        let slot = self.current;
        let before = self.list.nodes[slot].prev;
        if self.list.nodes[before].value.is_none() {
            self.current = NIL;
            self.pos = Ghost(0);
        } else {
            self.current = before;
            self.pos = Ghost(p - 1);
        }
        match &mut self.list.nodes[slot].value {
            Some(v) => Some(v),
            None => vstd::pervasive::unreached(),
        }
    }
}

/// The values of a range of indices, lowest first, each to be changed in
/// place. Its view is what is still to come.
pub struct RangeMut<'a, V> {
    pub list: &'a mut SkipList<V>,
    pub current: usize,
    pub left: usize,
    pub pos: Ghost<int>,
    pub from: Ghost<int>,
}

impl<'a, V> View for RangeMut<'a, V> {
    type V = Seq<V>;

    closed spec fn view(&self) -> Seq<V> {
        self.list@.subrange(self.pos@ - 1, self.pos@ - 1 + self.left)
    }
}

impl<'a, V> RangeMut<'a, V> {
    /// The walk is at a place of a well-formed list.
    pub closed spec fn wf(&self) -> bool {
        &&& self.list.wf()
        &&& 1 <= self.from@ <= self.pos@
        &&& self.pos@ + self.left <= self.list.order@.len()
        &&& self.current == (if self.left > 0 {
            self.list.order@[self.pos@]
        } else {
            NIL
        })
    }

    /// The values in front of the range.
    pub closed spec fn head(&self) -> Seq<V> {
        self.list@.subrange(0, self.from@ - 1)
    }

    /// The values that were handed out, as they are now.
    pub closed spec fn done(&self) -> Seq<V> {
        self.list@.subrange(self.from@ - 1, self.pos@ - 1)
    }

    /// The values behind the range.
    pub closed spec fn tail(&self) -> Seq<V> {
        self.list@.subrange(self.pos@ - 1 + self.left, self.list@.len() as int)
    }

    /// The list as it is now.
    pub open spec fn now(&self) -> SkipList<V> {
        *self.list
    }

    /// The list holds what lies in front of the range, what was handed out,
    /// what is still to come and what lies behind the range.
    pub proof fn lemma_whole(&self)
        requires
            self.wf(),
        ensures
            self.now().wf(),
            self.now()@ == self.head() + self.done() + self@ + self.tail(),
    {
        assert(self.now()@ =~= self.head() + self.done() + self@ + self.tail());
    }

    /// The next value of the range, if one is left.
    pub fn next(&mut self) -> (r: Option<&mut V>)
        requires
            old(self).wf(),
        ensures
            final(self).wf(),
            *final(final(self).list) == *final(old(self).list),
            final(self).head() == old(self).head(),
            final(self).tail() == old(self).tail(),
            old(self)@.len() == 0 ==> r is None && final(self)@ == old(self)@ && final(self).done()
                == old(self).done(),
            old(self)@.len() > 0 ==> r is Some,
            match r {
                Some(v) => {
                    &&& *v == old(self)@[0]
                    &&& final(self)@ == old(self)@.skip(1)
                    &&& final(self).done() == old(self).done().push(*final(v))
                },
                None => true,
            },
    {
        let slot_count: usize = self.list.nodes.len();
        let ghost a = self.list.nodes@;
        let ghost order = self.list.order@;
        let ghost p = self.pos@;
        proof {
            if self.left > 0 {
                assert(order[p] < slot_count);
                assert(node_ok(a, order, p));
                lemma_any_value(a, order, p);
            }
        }
        if self.current == NIL {
            return None;
        }
        let slot = self.current;
        self.left = self.left - 1;
        if self.left > 0 {
            self.current = self.list.nodes[slot].next;
        } else {
            self.current = NIL;
        }
        self.pos = Ghost(p + 1);
        match &mut self.list.nodes[slot].value {
            Some(v) => Some(v),
            None => vstd::pervasive::unreached(),
        }
    }
}

/// The values of a range of indices, highest first, each to be changed in
/// place. Its view is what is still to come.
pub struct ReverseRangeMut<'a, V> {
    pub list: &'a mut SkipList<V>,
    pub current: usize,
    pub left: usize,
    pub pos: Ghost<int>,
    pub until: Ghost<int>,
}

impl<'a, V> View for ReverseRangeMut<'a, V> {
    type V = Seq<V>;

    closed spec fn view(&self) -> Seq<V> {
        self.list@.subrange(self.pos@ - self.left, self.pos@).reverse()
    }
}

impl<'a, V> ReverseRangeMut<'a, V> {
    /// The walk is at a place of a well-formed list.
    pub closed spec fn wf(&self) -> bool {
        &&& self.list.wf()
        &&& 0 <= self.pos@ - self.left
        &&& self.pos@ <= self.until@ < self.list.order@.len()
        &&& self.current == (if self.left > 0 {
            self.list.order@[self.pos@]
        } else {
            NIL
        })
    }

    /// The values in front of the range.
    pub closed spec fn head(&self) -> Seq<V> {
        self.list@.subrange(0, self.pos@ - self.left)
    }

    /// The values that were handed out, as they are now, in the order in
    /// which they were handed out.
    pub closed spec fn done(&self) -> Seq<V> {
        self.list@.subrange(self.pos@, self.until@).reverse()
    }

    /// The values behind the range.
    pub closed spec fn tail(&self) -> Seq<V> {
        self.list@.subrange(self.until@, self.list@.len() as int)
    }

    /// The list as it is now.
    pub open spec fn now(&self) -> SkipList<V> {
        *self.list
    }

    /// The list holds what lies in front of the range, then, turned round,
    /// what is still to come and what was handed out, then what lies behind
    /// the range.
    pub proof fn lemma_whole(&self)
        requires
            self.wf(),
        ensures
            self.now().wf(),
            self.now()@ == self.head() + self@.reverse() + self.done().reverse() + self.tail(),
    {
        assert(self.now()@ =~= self.head() + self@.reverse() + self.done().reverse()
            + self.tail());
    }

    /// The next value of the range towards the front, if one is left.
    pub fn next(&mut self) -> (r: Option<&mut V>)
        requires
            old(self).wf(),
        ensures
            final(self).wf(),
            *final(final(self).list) == *final(old(self).list),
            final(self).head() == old(self).head(),
            final(self).tail() == old(self).tail(),
            old(self)@.len() == 0 ==> r is None && final(self)@ == old(self)@ && final(self).done()
                == old(self).done(),
            old(self)@.len() > 0 ==> r is Some,
            match r {
                Some(v) => {
                    &&& *v == old(self)@[0]
                    &&& final(self)@ == old(self)@.skip(1)
                    &&& final(self).done() == old(self).done().push(*final(v))
                },
                None => true,
            },
    {
        let slot_count: usize = self.list.nodes.len();
        let ghost a = self.list.nodes@;
        let ghost order = self.list.order@;
        let ghost p = self.pos@;
        proof {
            if self.left > 0 {
                assert(order[p] < slot_count);
                assert(node_ok(a, order, p));
                lemma_any_value(a, order, p);
            }
        }
        if self.current == NIL {
            return None;
        }
        let slot = self.current;
        self.left = self.left - 1;
        if self.left > 0 {
            self.current = self.list.nodes[slot].prev;
        } else {
            self.current = NIL;
        }
        self.pos = Ghost(p - 1);
        match &mut self.list.nodes[slot].value {
            Some(v) => Some(v),
            None => vstd::pervasive::unreached(),
        }
    }
}

impl<V: Ord> SkipList<V> {
    /// Takes out each value that compares as equal to the one before it, so
    /// that of every run of equal values the first is left.
    pub fn dedup(&mut self)
        requires
            old(self).wf(),
            total_order::<V>(),
        ensures
            final(self).wf(),
            final(self)@ == dedup_seq(old(self)@),
    {
        if self.length == 0 {
            return ;
        }
        let ghost s0 = self@;
        let slot_count: usize = self.nodes.len();
        proof {
            assert(node_ok(self.nodes@, self.order@, 0));
            assert(node_ok(self.nodes@, self.order@, 1));
            assert(self.order@[1] < slot_count);
            let one = s0.subrange(0, 1);
            assert(one.drop_last().len() == 0);
            assert(dedup_seq(one.drop_last()) == one.drop_last());
            assert(dedup_seq(one) == dedup_seq(one.drop_last()).push(one.last()));
            assert(dedup_seq(one) =~= one);
            assert(self@.subrange(1, self@.len() as int) =~= s0.subrange(1, s0.len() as int));
        }
        let mut index: usize = 0;
        let mut cur: usize = self.nodes[0].next;
        let ghost mut j: int = 1;
        loop
            invariant
                self.wf(),
                total_order::<V>(),
                index < self.length,
                cur == self.order@[index + 1],
                1 <= j <= s0.len(),
                self@.len() - (index + 1) == s0.len() - j,
                self@.subrange(0, index + 1) == dedup_seq(s0.subrange(0, j)),
                self@.subrange(index + 1, self@.len() as int) == s0.subrange(j, s0.len() as int),
            ensures
                self.wf(),
                self@ == dedup_seq(s0),
            decreases self.length - index,
        {
            let ghost view0 = self@;
            let slot_count: usize = self.nodes.len();
            proof {
                assert(self.order@[index + 1] < slot_count);
                assert(node_ok(self.nodes@, self.order@, index + 1));
                if index + 2 < self.order@.len() {
                    assert(self.order@[index + 2] < slot_count);
                    assert(node_ok(self.nodes@, self.order@, index + 2));
                }
            }
            let next = self.nodes[cur].next;
            if next == NIL {
                proof {
                    assert(view0.subrange(0, index + 1) =~= view0);
                    assert(s0.subrange(0, j) =~= s0);
                }
                break ;
            }
            let relation = match (&self.nodes[cur].value, &self.nodes[next].value) {
                (Some(a), Some(b)) => compare(a, b),
                _ => vstd::pervasive::unreached(),
            };
            proof {
                assert(view0[index as int] == self.nodes@[cur as int].value.unwrap());
                assert(view0[index + 1] == self.nodes@[next as int].value.unwrap());
                lemma_tail_shift(view0, index + 1, s0, j);
                assert(s0.subrange(0, j + 1).drop_last() =~= s0.subrange(0, j));
                assert(s0.subrange(0, j + 1).last() == s0[j]);
                assert(view0.subrange(0, index + 1).last() == view0[index as int]);
            }
            match relation {
                Relation::Equal => {
                    let ghost order0 = self.order@;
                    let (slots, positions) = self.locate(index + 2);
                    let _ = self.cut(&slots, &positions, index + 2, 1);
                    proof {
                        assert(self.order@[index + 1] == order0[index + 1]);
                        assert(self@.subrange(0, index + 1) =~= view0.subrange(0, index + 1));
                        assert(self@.subrange(index + 1, self@.len() as int) =~= view0.subrange(
                            index + 2,
                            view0.len() as int,
                        ));
                        j = j + 1;
                    }
                },
                _ => {
                    proof {
                        assert(view0.subrange(0, index + 2) =~= view0.subrange(0, index + 1).push(
                            view0[index + 1],
                        ));
                        j = j + 1;
                    }
                    cur = next;
                    index = index + 1;
                },
            }
        }
    }
}

impl<V: Ord> SkipList<V> {
    /// The node behind which the values that are not below `q` begin, by
    /// slot and by position, in a list that is sorted.
    pub(crate) fn descend(&self, q: &V, inclusive: bool) -> (r: (usize, usize))
        requires
            self.wf(),
            total_order::<V>(),
            sorted(self@),
        ensures
            r.1 == rank(self@, *q, inclusive),
            r.1 <= self@.len(),
            r.0 == self.order@[r.1 as int],
            r.0 < self.nodes@.len(),
    {
        let h: usize = self.nodes[0].links.len();
        let slot_count: usize = self.nodes.len();
        if h == 0 {
            proof {
                if self.length > 0 {
                    assert(node_ok(self.nodes@, self.order@, 1));
                }
                lemma_rank_split(self@, *q, inclusive, 0);
            }
            return (0, 0);
        }
        let mut cur: usize = 0;
        let mut cur_pos: usize = 0;
        let mut level: usize = h - 1;
        loop
            invariant_except_break
                level < height_at(self.nodes@, self.order@, cur_pos as int),
            invariant
                self.wf(),
                total_order::<V>(),
                slot_count == self.nodes@.len(),
                cur_pos <= self.length,
                cur == self.order@[cur_pos as int],
                cur_pos > 0 ==> below(self@[cur_pos - 1], *q, inclusive),
            ensures
                cur_pos <= self.length,
                cur == self.order@[cur_pos as int],
                cur_pos > 0 ==> below(self@[cur_pos - 1], *q, inclusive),
                cur_pos < self.length ==> !below(self@[cur_pos as int], *q, inclusive),
            decreases level, self.length - cur_pos,
        {
            proof {
                let p = cur_pos as int;
                assert(self.order@[p] < slot_count);
                assert(node_ok(self.nodes@, self.order@, p));
                assert(level_ok(self.nodes@, self.order@, level as int));
                assert(link_ok(self.nodes@, self.order@, p, level as int));
                if p + 1 < self.order@.len() {
                    assert(node_ok(self.nodes@, self.order@, p + 1));
                }
            }
            let next = self.nodes[cur].links[level];
            let d = self.nodes[cur].links_len[level];
            let mut advance = false;
            if next != NIL {
                proof {
                    assert(self.order@[cur_pos + d] < slot_count);
                    assert(node_ok(self.nodes@, self.order@, cur_pos + d));
                    assert(self@[cur_pos + d - 1] == self.nodes@[next as int].value.unwrap());
                }
                let relation = match &self.nodes[next].value {
                    Some(v) => compare(v, q),
                    None => vstd::pervasive::unreached(),
                };
                proof {
                    lemma_trichotomy(self@[cur_pos + d - 1], *q);
                }
                advance = match relation {
                    Relation::Less => true,
                    Relation::Equal => inclusive,
                    Relation::Greater => false,
                };
                assert(advance == below(self@[cur_pos + d - 1], *q, inclusive));
            }
            if advance {
                cur = next;
                cur_pos = cur_pos + d;
            } else {
                if level == 0 {
                    proof {
                        let p = cur_pos as int;
                        if next == NIL {
                            if p < self.length {
                                assert(height_at(self.nodes@, self.order@, p + 1) <= 0);
                            }
                        } else if d > 1 {
                            assert(height_at(self.nodes@, self.order@, p + 1) <= 0);
                        }
                    }
                    break ;
                }
                level = level - 1;
            }
        }
        proof {
            let s = self@;
            let k = cur_pos as int;
            assert forall|i: int| 0 <= i < k implies below(#[trigger] s[i], *q, inclusive) by {
                if i < k - 1 {
                    assert(crate::order::at_most(s[i], s[k - 1]));
                    lemma_below_down(s[i], s[k - 1], *q, inclusive);
                }
            }
            assert forall|i: int| k <= i < s.len() implies !below(#[trigger] s[i], *q, inclusive) by {
                if i > k {
                    assert(crate::order::at_most(s[k], s[i]));
                    if below(s[i], *q, inclusive) {
                        lemma_below_down(s[k], s[i], *q, inclusive);
                    }
                }
            }
            lemma_rank_split(s, *q, inclusive, k);
            assert(self.order@[k] < slot_count);
        }
        (cur, cur_pos)
    }

    /// The number of values that are below `q`, in a list that is sorted.
    pub(crate) fn rank_of(&self, q: &V, inclusive: bool) -> (k: usize)
        requires
            self.wf(),
            total_order::<V>(),
            sorted(self@),
        ensures
            k == rank(self@, *q, inclusive),
            k <= self@.len(),
    {
        let (_, pos) = self.descend(q, inclusive);
        pos
    }

    /// The first value that compares as equal to `q`, with its index, in a
    /// list that is sorted.
    pub(crate) fn find_first(&self, q: &V) -> (r: Option<(usize, &V)>)
        requires
            self.wf(),
            total_order::<V>(),
            sorted(self@),
        ensures
            match r {
                Some((index, value)) => {
                    &&& index == rank(self@, *q, false)
                    &&& index < self@.len()
                    &&& equiv(self@[index as int], *q)
                    &&& *value == self@[index as int]
                },
                None => {
                    let k = rank(self@, *q, false);
                    !(k < self@.len() && equiv(self@[k], *q))
                },
            },
    {
        let (slot, pos) = self.descend(q, false);
        let slot_count: usize = self.nodes.len();
        proof {
            assert(node_ok(self.nodes@, self.order@, pos as int));
            if pos + 1 < self.order@.len() {
                assert(self.order@[pos + 1] < slot_count);
                assert(node_ok(self.nodes@, self.order@, pos + 1));
            }
        }
        let candidate = self.nodes[slot].next;
        if candidate == NIL {
            return None;
        }
        match &self.nodes[candidate].value {
            Some(v) => match compare(v, q) {
                Relation::Equal => Some((pos, v)),
                _ => None,
            },
            None => vstd::pervasive::unreached(),
        }
    }

    /// The last value that compares as equal to `q`, with its index, in a
    /// list that is sorted.
    pub(crate) fn find_last(&self, q: &V) -> (r: Option<(usize, &V)>)
        requires
            self.wf(),
            total_order::<V>(),
            sorted(self@),
        ensures
            match r {
                Some((index, value)) => {
                    &&& index == rank(self@, *q, true) - 1
                    &&& index < self@.len()
                    &&& equiv(self@[index as int], *q)
                    &&& *value == self@[index as int]
                },
                None => {
                    let k = rank(self@, *q, true);
                    !(k >= 1 && equiv(self@[k - 1], *q))
                },
            },
    {
        let (slot, pos) = self.descend(q, true);
        if pos == 0 {
            return None;
        }
        proof {
            assert(node_ok(self.nodes@, self.order@, pos as int));
        }
        match &self.nodes[slot].value {
            Some(v) => match compare(v, q) {
                Relation::Equal => Some((pos - 1, v)),
                _ => None,
            },
            None => vstd::pervasive::unreached(),
        }
    }

    /// For each level, the node behind which the values that are not below
    /// `q` begin, in a list that is sorted.
    fn locate_value(&self, q: &V, inclusive: bool) -> (r: (Vec<usize>, Vec<usize>))
        requires
            self.wf(),
            total_order::<V>(),
            sorted(self@),
            height(self.nodes@, 0) >= 1,
        ensures
            rank(self@, *q, inclusive) <= self@.len(),
            preds_ok(
                self.nodes@,
                self.order@,
                rank(self@, *q, inclusive) + 1,
                r.0@,
                r.1@,
            ),
            r.1@[0] == rank(self@, *q, inclusive),
    {
        let h: usize = self.nodes[0].links.len();
        let slot_count: usize = self.nodes.len();
        let mut slots: Vec<usize> = Vec::new();
        let mut positions: Vec<usize> = Vec::new();
        let mut i: usize = 0;
        while i < h
            invariant
                i <= h,
                slots@.len() == i,
                positions@.len() == i,
            decreases h - i,
        {
            slots.push(NIL);
            positions.push(0);
            i += 1;
        }
        let ghost view = self@;
        let ghost not_below = |p: int| !below(view[p - 1], *q, inclusive);
        let mut stops: Ghost<Seq<int>> = Ghost(Seq::new(h as nat, |l: int| 0int));
        let mut cur: usize = 0;
        let mut cur_pos: usize = 0;
        let mut level: usize = h - 1;
        loop
            invariant_except_break
                level < height_at(self.nodes@, self.order@, cur_pos as int),
                forall|l: int|
                    level < l < h ==> #[trigger] stopped_at(
                        self.nodes@,
                        self.order@,
                        not_below,
                        l,
                        slots@[l],
                        positions@[l] as int,
                        stops@[l],
                    ),
                forall|l: int| level < l < h ==> #[trigger] positions@[l] <= cur_pos,
            invariant
                self.wf(),
                total_order::<V>(),
                view == self@,
                not_below == (|p: int| !below(view[p - 1], *q, inclusive)),
                slot_count == self.nodes@.len(),
                h == height(self.nodes@, 0),
                level < h,
                slots@.len() == h,
                positions@.len() == h,
                stops@.len() == h,
                cur_pos <= self.length,
                cur == self.order@[cur_pos as int],
                cur_pos > 0 ==> below(view[cur_pos - 1], *q, inclusive),
            ensures
                cur_pos <= self.length,
                cur_pos > 0 ==> below(view[cur_pos - 1], *q, inclusive),
                cur_pos < self.length ==> !below(view[cur_pos as int], *q, inclusive),
                positions@[0] == cur_pos,
                forall|l: int|
                    0 <= l < h ==> #[trigger] stopped_at(
                        self.nodes@,
                        self.order@,
                        not_below,
                        l,
                        slots@[l],
                        positions@[l] as int,
                        stops@[l],
                    ),
                forall|l: int| 0 <= l < h ==> #[trigger] positions@[l] <= cur_pos,
            decreases level, self.length - cur_pos,
        {
            proof {
                let p = cur_pos as int;
                assert(self.order@[p] < slot_count);
                assert(node_ok(self.nodes@, self.order@, p));
                assert(level_ok(self.nodes@, self.order@, level as int));
                assert(link_ok(self.nodes@, self.order@, p, level as int));
                if p + 1 < self.order@.len() {
                    assert(node_ok(self.nodes@, self.order@, p + 1));
                }
            }
            let next = self.nodes[cur].links[level];
            let d = self.nodes[cur].links_len[level];
            let mut advance = false;
            if next != NIL {
                proof {
                    assert(self.order@[cur_pos + d] < slot_count);
                    assert(node_ok(self.nodes@, self.order@, cur_pos + d));
                    assert(view[cur_pos + d - 1] == self.nodes@[next as int].value.unwrap());
                }
                let relation = match &self.nodes[next].value {
                    Some(v) => compare(v, q),
                    None => vstd::pervasive::unreached(),
                };
                proof {
                    lemma_trichotomy(view[cur_pos + d - 1], *q);
                }
                advance = match relation {
                    Relation::Less => true,
                    Relation::Equal => inclusive,
                    Relation::Greater => false,
                };
                assert(advance == below(view[cur_pos + d - 1], *q, inclusive));
            }
            if advance {
                cur = next;
                cur_pos = cur_pos + d;
            } else {
                let ghost slots0 = slots@;
                let ghost positions0 = positions@;
                let ghost stops0 = stops@;
                slots[level] = cur;
                positions[level] = cur_pos;
                let ghost stop: int = if next == NIL {
                    self.order@.len() as int
                } else {
                    cur_pos + d
                };
                stops = Ghost(stops@.update(level as int, stop));
                proof {
                    assert(stopped_at(
                        self.nodes@,
                        self.order@,
                        not_below,
                        level as int,
                        slots@[level as int],
                        positions@[level as int] as int,
                        stops@[level as int],
                    ));
                    assert forall|l: int| level < l < h implies #[trigger] stopped_at(
                        self.nodes@,
                        self.order@,
                        not_below,
                        l,
                        slots@[l],
                        positions@[l] as int,
                        stops@[l],
                    ) by {
                        assert(stopped_at(
                            self.nodes@,
                            self.order@,
                            not_below,
                            l,
                            slots0[l],
                            positions0[l] as int,
                            stops0[l],
                        ));
                        assert(positions0[l] <= cur_pos);
                    }
                    assert forall|l: int| level < l < h implies #[trigger] positions@[l]
                        <= cur_pos by {
                        assert(positions0[l] <= cur_pos);
                    }
                }
                if level == 0 {
                    proof {
                        let p = cur_pos as int;
                        if next == NIL {
                            if p < self.length {
                                assert(height_at(self.nodes@, self.order@, p + 1) <= 0);
                            }
                        } else if d > 1 {
                            assert(height_at(self.nodes@, self.order@, p + 1) <= 0);
                        }
                    }
                    break ;
                }
                level = level - 1;
            }
        }
        proof {
            let k = cur_pos as int;
            assert forall|i: int| 0 <= i < k implies below(#[trigger] view[i], *q, inclusive) by {
                if i < k - 1 {
                    assert(crate::order::at_most(view[i], view[k - 1]));
                    lemma_below_down(view[i], view[k - 1], *q, inclusive);
                }
            }
            assert forall|i: int| k <= i < view.len() implies !below(
                #[trigger] view[i],
                *q,
                inclusive,
            ) by {
                if i > k {
                    assert(crate::order::at_most(view[k], view[i]));
                    if below(view[i], *q, inclusive) {
                        lemma_below_down(view[k], view[i], *q, inclusive);
                    }
                }
            }
            lemma_rank_split(view, *q, inclusive, k);
            assert forall|l: int| 0 <= l < h implies #[trigger] pred_ok(
                self.nodes@,
                self.order@,
                k + 1,
                l,
                slots@[l],
                positions@[l] as int,
            ) by {
                assert(stopped_at(
                    self.nodes@,
                    self.order@,
                    not_below,
                    l,
                    slots@[l],
                    positions@[l] as int,
                    stops@[l],
                ));
                if stops@[l] <= k {
                    assert(not_below(stops@[l]));
                    assert(below(view[stops@[l] - 1], *q, inclusive));
                }
            }
        }
        (slots, positions)
    }

    /// Puts `value` where it belongs in a list that is sorted: behind the
    /// values that compare as equal to it where `duplicatable` allows them,
    /// else in the place of the one that does, which is handed back.
    pub(crate) fn insert_sorted(&mut self, value: V, duplicatable: bool) -> (r: Option<V>)
        requires
            old(self).wf(),
            total_order::<V>(),
            sorted(old(self)@),
        ensures
            final(self).wf(),
            duplicatable ==> r is None && final(self)@ == old(self)@.insert(
                rank(old(self)@, value, true),
                value,
            ),
            !duplicatable ==> ({
                let k = rank(old(self)@, value, false);
                if k < old(self)@.len() && equiv(old(self)@[k], value) {
                    r == Some(old(self)@[k]) && final(self)@ == old(self)@.update(k, value)
                } else {
                    r is None && final(self)@ == old(self)@.insert(k, value)
                }
            }),
            final(self).level_generator().probability() == old(
                self,
            ).level_generator().probability(),
            final(self).level_generator().max_levels() == old(
                self,
            ).level_generator().max_levels(),
            old(self).level_generator().limit() <= final(self).level_generator().limit() <= old(
                self,
            ).level_generator().limit() + 1,
    {
        let level = self.level_generator.choose_level();
        self.raise_head(level);
        let slot_count: usize = self.nodes.len();
        let (slots, positions) = self.locate_value(&value, duplicatable);
        let pos = positions[0];
        if !duplicatable {
            proof {
                assert(pred_ok(self.nodes@, self.order@, pos + 1, 0, slots@[0], pos as int));
                assert(self.order@[pos as int] < slot_count);
                assert(node_ok(self.nodes@, self.order@, pos as int));
                if pos + 1 < self.order@.len() {
                    assert(self.order@[pos + 1] < slot_count);
                    assert(node_ok(self.nodes@, self.order@, pos + 1));
                }
            }
            let candidate = self.nodes[slots[0]].next;
            if candidate != NIL {
                let same = match &self.nodes[candidate].value {
                    Some(v) => match compare(v, &value) {
                        Relation::Equal => true,
                        _ => false,
                    },
                    None => vstd::pervasive::unreached(),
                };
                if same {
                    let ghost a = self.nodes@;
                    let previous = self.nodes[candidate].replace(value);
                    proof {
                        lemma_value_set(a, self.nodes@, self.order@, pos + 1);
                    }
                    return previous;
                }
            }
        }
        self.splice(&slots, &positions, pos + 1, level, value);
        None
    }
}

} // verus!
