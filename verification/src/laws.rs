//! What holds of every rollup.

use vstd::prelude::*;
use crate::model::{
    after, dangling, descends, first_dangling, holds_id, index_of, lemma_index_of, loops, parent_index,
    valid, verdict, within,
};
use crate::node::NodeView;

verus! {

/// A second rollup from the same item changes nothing: the breakdown after
/// two rollups is the breakdown after one. After a rollup that was done, the
/// item has its unit cost, so the second finds it settled.
pub proof fn lemma_rollup_idempotent(s: Seq<NodeView>, id: u32)
    requires
        valid(s),
    ensures
        after(after(s, id), id) == after(s, id),
        verdict(s, id) is Rolled ==> verdict(after(s, id), id) is Settled,
{
    if verdict(s, id) is Rolled {
        let a = index_of(s, id);
        let t = after(s, id);
        assert(descends(s, a, a, 0));
        assert(within(s, a, a));
        assert(t[a].id == id);
        assert forall|i: int, j: int|
            #![trigger t[i], t[j]]
            0 <= i < t.len() && 0 <= j < t.len() && t[i].id == t[j].id implies i == j by {
            assert(s[i].id == s[j].id);
        }
        lemma_index_of(t, a);
    }
}

/// A rollup leaves an item that came with a unit cost as it was, whether or
/// not it has children: its total cost is still that unit cost times its
/// count. No rollup changes an identifier, a parent, a label or a count, or
/// takes a unit cost away.
pub proof fn lemma_supplied_cost_kept(s: Seq<NodeView>, id: u32, x: int)
    requires
        valid(s),
        0 <= x < s.len(),
    ensures
        after(s, id).len() == s.len(),
        after(s, id)[x].id == s[x].id,
        after(s, id)[x].parent == s[x].parent,
        after(s, id)[x].name == s[x].name,
        after(s, id)[x].count == s[x].count,
        s[x].unit_cost is Some ==> after(s, id)[x] == s[x] && s[x].total_cost == Some(
            (s[x].unit_cost->0 * s[x].count) as u64,
        ) && s[x].unit_cost->0 * s[x].count <= u64::MAX,
{
    assert(s[x].wf());
}

/// Where the parent of one item is a second and the parent of the second is
/// the first, neither has a unit cost, and no item names a missing parent, a
/// rollup from the first ends with a cycle.
pub proof fn lemma_mutual_parents_loop(s: Seq<NodeView>, a: int, b: int)
    requires
        valid(s),
        0 <= a < s.len(),
        0 <= b < s.len(),
        s[a].open(),
        s[b].open(),
        s[a].parent == Some(s[b].id),
        s[b].parent == Some(s[a].id),
        forall|x: int| 0 <= x < s.len() ==> !dangling(s, x),
    ensures
        verdict(s, s[a].id) is Cycle,
{
    lemma_index_of(s, a);
    lemma_index_of(s, b);
    assert(descends(s, a, a, 0));
    assert(descends(s, b, a, 1));
    assert(descends(s, a, a, 2));
    assert(loops(s, a));
}

/// Going up `i` levels and then `j` more is going up `i + j` levels.
proof fn lemma_descends_joined(s: Seq<NodeView>, x: int, a: int, b: int, i: nat, j: nat)
    requires
        descends(s, x, a, i),
        descends(s, a, b, j),
    ensures
        descends(s, x, b, i + j),
    decreases i,
{
    if i > 0 {
        lemma_descends_joined(s, parent_index(s, x), a, b, (i - 1) as nat, j);
    }
}

/// Going up `i + j` levels from an item that stands `i` levels below the item
/// at `a` passes through that item.
proof fn lemma_descends_split(s: Seq<NodeView>, x: int, a: int, b: int, i: nat, j: nat)
    requires
        descends(s, x, a, i),
        descends(s, x, b, i + j),
    ensures
        descends(s, a, b, j),
    decreases i,
{
    if i > 0 {
        lemma_descends_split(s, parent_index(s, x), a, b, (i - 1) as nat, j);
    }
}

/// Where an item in reach of a rollup is among its own descendants, so is the
/// item from which the rollup starts, and the rollup ends with a cycle: every
/// cycle in reach is found.
pub proof fn lemma_loop_in_reach_raises(s: Seq<NodeView>, id: u32, x: int)
    requires
        valid(s),
        holds_id(s, id),
        s[index_of(s, id)].open(),
        forall|y: int| 0 <= y < s.len() ==> !dangling(s, y),
        within(s, index_of(s, id), x),
        loops(s, x),
    ensures
        loops(s, index_of(s, id)),
        verdict(s, id) is Cycle,
{
    let a = index_of(s, id);
    let k = choose|k: nat| descends(s, x, a, k);
    let m = choose|m: nat| m >= 1 && descends(s, x, x, m);
    lemma_descends_joined(s, x, x, a, m, k);
    lemma_descends_split(s, x, a, a, k, m);
}

/// Where some item names a missing parent, one of them comes first.
pub proof fn lemma_first_dangling(s: Seq<NodeView>, x: int) -> (y: int)
    requires
        0 <= x < s.len(),
        dangling(s, x),
    ensures
        first_dangling(s, y),
        y <= x,
    decreases x,
{
    if exists|z: int| 0 <= z < x && dangling(s, z) {
        let z = choose|z: int| 0 <= z < x && dangling(s, z);
        lemma_first_dangling(s, z)
    } else {
        x
    }
}

/// Where some item names a parent that is not in the breakdown, a rollup from
/// an item that has no unit cost yet, or from a missing one, ends by naming
/// the first such item.
pub proof fn lemma_dangling_raises(s: Seq<NodeView>, id: u32, x: int)
    requires
        valid(s),
        0 <= x < s.len(),
        dangling(s, x),
        !(holds_id(s, id) && !s[index_of(s, id)].open()),
    ensures
        verdict(s, id) is Dangling,
        first_dangling(s, verdict(s, id)->Dangling_0),
        after(s, id) == s,
{
    let y = lemma_first_dangling(s, x);
}

} // verus!
