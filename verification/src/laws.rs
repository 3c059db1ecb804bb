//! What holds of a list over any course of changes, stated of the sequences
//! that the operations of the list are specified by.

use vstd::prelude::*;

verus! {

/// One change of a list: a value put at an index, or the value at an index
/// taken out.
pub enum Change<V> {
    Put(int, V),
    Take(int),
}

/// `s` after `changes`, one after the other.
pub open spec fn changed<V>(s: Seq<V>, changes: Seq<Change<V>>) -> Seq<V>
    decreases changes.len(),
{
    if changes.len() == 0 {
        s
    } else {
        let before = changed(s, changes.drop_last());
        match changes.last() {
            Change::Put(i, v) => before.insert(i, v),
            Change::Take(i) => before.remove(i),
        }
    }
}

/// Each of `changes` meets a list that admits it: a put at an index up to
/// the length, a take at an index below it.
pub open spec fn admitted<V>(s: Seq<V>, changes: Seq<Change<V>>) -> bool
    decreases changes.len(),
{
    if changes.len() == 0 {
        true
    } else {
        let before = changed(s, changes.drop_last());
        &&& admitted(s, changes.drop_last())
        &&& match changes.last() {
            Change::Put(i, v) => 0 <= i <= before.len(),
            Change::Take(i) => 0 <= i < before.len(),
        }
    }
}

/// The number of puts among `changes`.
pub open spec fn puts<V>(changes: Seq<Change<V>>) -> int
    decreases changes.len(),
{
    if changes.len() == 0 {
        0
    } else {
        puts(changes.drop_last()) + if changes.last() is Put {
            1int
        } else {
            0int
        }
    }
}

/// After changes that were all admitted, a list is as long as it was, plus
/// the number of puts, less the number of takes.
pub proof fn lemma_length_after_changes<V>(s: Seq<V>, changes: Seq<Change<V>>)
    requires
        admitted(s, changes),
    ensures
        changed(s, changes).len() == s.len() + puts(changes) - (changes.len() - puts(changes)),
    decreases changes.len(),
{
    if changes.len() > 0 {
        lemma_length_after_changes(s, changes.drop_last());
    }
}

/// `s` after its first `n` values were taken from the front, one by one.
pub open spec fn after_pops<V>(s: Seq<V>, n: nat) -> Seq<V>
    decreases n,
{
    if n == 0 {
        s
    } else {
        after_pops(s.remove(0), (n - 1) as nat)
    }
}

/// The value at index `i` is the one in front once `i` values were taken
/// from the front.
pub proof fn lemma_index_is_front_after_pops<V>(s: Seq<V>, i: nat)
    requires
        i < s.len(),
    ensures
        after_pops(s, i) == s.skip(i as int),
        after_pops(s, i).len() > 0,
        after_pops(s, i)[0] == s[i as int],
    decreases i,
{
    if i > 0 {
        lemma_index_is_front_after_pops(s.remove(0), (i - 1) as nat);
        assert(s.remove(0).skip(i - 1) =~= s.skip(i as int));
        assert(s.remove(0)[i - 1] == s[i as int]);
    } else {
        assert(s.skip(0) =~= s);
    }
}

/// A value that was put at an index is the one that a take at that index
/// hands back, and the take leaves the list as it was before the put.
pub proof fn lemma_put_then_take<V>(s: Seq<V>, i: int, v: V)
    requires
        0 <= i <= s.len(),
    ensures
        s.insert(i, v)[i] == v,
        s.insert(i, v).remove(i) == s,
{
    assert(s.insert(i, v).remove(i) =~= s);
}

/// The values that come out of `s` when it is drained from the back.
pub open spec fn drained_back<V>(s: Seq<V>) -> Seq<V>
    decreases s.len(),
{
    if s.len() == 0 {
        s
    } else {
        seq![s.last()] + drained_back(s.drop_last())
    }
}

/// A list that was filled from the back and is drained from the back gives
/// its values in the reverse of the order in which they were put, and as
/// many of them as it held.
pub proof fn lemma_drained_back_is_reverse<V>(s: Seq<V>)
    ensures
        drained_back(s) == s.reverse(),
        drained_back(s).len() == s.len(),
    decreases s.len(),
{
    if s.len() > 0 {
        lemma_drained_back_is_reverse(s.drop_last());
        assert(seq![s.last()] + s.drop_last().reverse() =~= s.reverse());
    } else {
        assert(s.reverse() =~= s);
    }
}

} // verus!
