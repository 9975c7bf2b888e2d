//! The pricing of what a descent has marked, deepest level first.

use vstd::prelude::*;
use crate::descent::{
    closed_under, lemma_level_is_depth, lemma_linked_child, lemma_marked_descends, lemma_marked_is_within,
    linked, marking, rooted,
};
use crate::model::{
    aggregate, aggregated, childless, children_priced, children_sum, distinct_ids, first_overflowing,
    level, overflowing, oversized, rolled, rolled_unit, unit, valid, within,
};
use crate::node::NodeView;
use crate::nodes::Nodes;

verus! {

/// Whether some item names `id` as its parent.
pub(crate) fn has_children(nodes: &Nodes, id: u32) -> (r: bool)
    ensures
        r == !childless(nodes@, id),
{
    let n = nodes.len();
    let mut j: usize = 0;
    while j < n
        invariant
            j <= n,
            n == nodes@.len(),
            forall|i: int| 0 <= i < j ==> (#[trigger] nodes@[i]).parent != Some(id),
        decreases n - j,
    {
        if nodes.at(j).parent() == Some(id) {
            return true;
        }
        j += 1;
    }
    false
}

/// The item at `x` is marked and has neither a unit cost nor children.
pub(crate) open spec fn bare(s: Seq<NodeView>, marked: Seq<bool>, x: int) -> bool {
    marked[x] && s[x].open() && childless(s, s[x].id)
}

/// The first marked item that has neither a unit cost nor children.
pub(crate) fn find_bare(nodes: &Nodes, marked: &Vec<bool>) -> (r: Option<usize>)
    requires
        marked@.len() == nodes@.len(),
    ensures
        match r {
            Some(x) => x < nodes@.len() && bare(nodes@, marked@, x as int) && forall|y: int|
                0 <= y < x ==> !bare(nodes@, marked@, y),
            None => forall|y: int| 0 <= y < nodes@.len() ==> !bare(nodes@, marked@, y),
        },
{
    let n = nodes.len();
    let mut x: usize = 0;
    while x < n
        invariant
            x <= n,
            n == nodes@.len(),
            marked@.len() == n,
            forall|y: int| 0 <= y < x ==> !bare(nodes@, marked@, y),
        decreases n - x,
    {
        if marked[x] && nodes.at(x).unit_cost().is_none() && !has_children(nodes, nodes.at(x).id()) {
            return Some(x);
        }
        x += 1;
    }
    None
}

/// The sum of `total[j]` over the first `k` items `j` whose parent stands at
/// `x`.
pub(crate) open spec fn scratch_sum(up: Seq<usize>, total: Seq<u64>, x: int, k: nat) -> nat
    decreases k,
{
    if k == 0 {
        0
    } else {
        scratch_sum(up, total, x, (k - 1) as nat) + if up[k - 1] == x {
            total[k - 1] as nat
        } else {
            0nat
        }
    }
}

pub(crate) proof fn lemma_scratch_sum_grows(up: Seq<usize>, total: Seq<u64>, x: int, k: nat, m: nat)
    requires
        k <= m,
    ensures
        scratch_sum(up, total, x, k) <= scratch_sum(up, total, x, m),
    decreases m,
{
    if k < m {
        lemma_scratch_sum_grows(up, total, x, k, (m - 1) as nat);
    }
}

/// Where `total` holds, for each child of the item at `x`, its unit cost at
/// `fuel` times its count, the sum over the children is the sum of those
/// entries.
pub(crate) proof fn lemma_sum_matches(
    s: Seq<NodeView>,
    up: Seq<usize>,
    total: Seq<u64>,
    x: int,
    fuel: nat,
    k: nat,
)
    requires
        distinct_ids(s),
        linked(s, up),
        total.len() == s.len(),
        0 <= x < s.len(),
        k <= s.len(),
        forall|j: int|
            0 <= j < s.len() && #[trigger] up[j] == x ==> total[j] == unit(s, s[j], fuel) * s[j].count,
    ensures
        children_sum(s.take(k as int), s, s[x].id, fuel) == scratch_sum(up, total, x, k),
    decreases k,
{
    if k > 0 {
        lemma_sum_matches(s, up, total, x, fuel, (k - 1) as nat);
        assert(s.take(k as int).drop_last() =~= s.take(k - 1));
        lemma_linked_child(s, up, k - 1, x);
    }
}

/// The item `n` has the unit cost `c` at every fuel from `lo` on, and `t` is
/// what that comes to for all its units.
#[verifier::opaque]
pub(crate) open spec fn settled(s: Seq<NodeView>, n: NodeView, c: u64, t: u64, lo: int) -> bool {
    &&& t == c * n.count
    &&& forall|f: nat| f >= lo ==> #[trigger] unit(s, n, f) == c
}

/// `cost` and `total` hold what the items that came with a unit cost came
/// with.
pub(crate) open spec fn seeded(s: Seq<NodeView>, cost: Seq<u64>, total: Seq<u64>) -> bool {
    &&& cost.len() == s.len()
    &&& total.len() == s.len()
    &&& forall|y: int|
        0 <= y < s.len() && !(#[trigger] s[y]).open() ==> cost[y] == s[y].unit_cost->0 && total[y]
            == s[y].total_cost->0
}

/// The marked items without a unit cost, from the depth `level` down (and, at
/// the depth just above, those before `x`), are settled.
pub(crate) open spec fn settled_below(
    s: Seq<NodeView>,
    marked: Seq<bool>,
    depth: Seq<usize>,
    cost: Seq<u64>,
    total: Seq<u64>,
    top: int,
    level: int,
    x: int,
) -> bool {
    forall|y: int|
        0 <= y < s.len() && #[trigger] marked[y] && s[y].open() && (depth[y] >= level || (depth[y] == level
            - 1 && y < x)) ==> settled(s, s[y], cost[y], total[y], top - depth[y] + 1)
}

/// Once the levels below that of the item at `x` are settled, `total` holds
/// for each of its children the child's unit cost times its count.
pub(crate) proof fn lemma_children_ready(
    s: Seq<NodeView>,
    up: Seq<usize>,
    marked: Seq<bool>,
    depth: Seq<usize>,
    cost: Seq<u64>,
    total: Seq<u64>,
    a: int,
    top: int,
    x: int,
    fuel: nat,
)
    requires
        valid(s),
        linked(s, up),
        marking(s, up, a, marked, depth),
        closed_under(s, up, marked),
        rooted(s, up, marked, a),
        seeded(s, cost, total),
        0 <= x < s.len(),
        marked[x],
        s[x].open(),
        settled_below(s, marked, depth, cost, total, top, depth[x] + 1, 0),
        fuel >= top - depth[x],
    ensures
        forall|j: int|
            0 <= j < s.len() && #[trigger] up[j] == x ==> total[j] == unit(s, s[j], fuel) * s[j].count,
{
    assert forall|j: int| 0 <= j < s.len() && #[trigger] up[j] == x implies total[j] == unit(
        s,
        s[j],
        fuel,
    ) * s[j].count by {
        if s[j].open() {
            reveal(settled);
            assert(marked[j]);
            assert(j != a);
            assert(depth[j] == depth[x] + 1);
            assert(settled(s, s[j], cost[j], total[j], top - depth[j] + 1));
        } else {
            assert(s[j].wf());
        }
    }
}

/// Once the levels below that of the item at `x` are settled, its unit cost
/// is the sum of what `total` holds for its children.
pub(crate) proof fn lemma_unit_is_sum(
    s: Seq<NodeView>,
    up: Seq<usize>,
    marked: Seq<bool>,
    depth: Seq<usize>,
    cost: Seq<u64>,
    total: Seq<u64>,
    a: int,
    top: int,
    x: int,
)
    requires
        valid(s),
        linked(s, up),
        marking(s, up, a, marked, depth),
        closed_under(s, up, marked),
        rooted(s, up, marked, a),
        seeded(s, cost, total),
        0 <= x < s.len(),
        marked[x],
        s[x].open(),
        depth[x] <= top,
        settled_below(s, marked, depth, cost, total, top, depth[x] + 1, 0),
    ensures
        forall|f: nat|
            f >= top - depth[x] + 1 ==> #[trigger] unit(s, s[x], f) == scratch_sum(up, total, x, s.len()),
{
    assert forall|f: nat| f >= top - depth[x] + 1 implies #[trigger] unit(s, s[x], f) == scratch_sum(
        up,
        total,
        x,
        s.len(),
    ) by {
        let g = (f - 1) as nat;
        lemma_children_ready(s, up, marked, depth, cost, total, a, top, x, g);
        lemma_sum_matches(s, up, total, x, g, s.len());
        assert(s.take(s.len() as int) =~= s);
    }
}

/// What is settled from `lo` on is settled from any later fuel on.
pub(crate) proof fn lemma_settled_later(s: Seq<NodeView>, n: NodeView, c: u64, t: u64, lo: int, hi: int)
    requires
        settled(s, n, c, t, lo),
        lo <= hi,
    ensures
        settled(s, n, c, t, hi),
{
    reveal(settled);
}

/// The rolled-up cost of an item that is settled fits in 64 bits.
pub(crate) proof fn lemma_settled_fits(s: Seq<NodeView>, y: int, c: u64, t: u64, lo: int)
    requires
        settled(s, s[y], c, t, lo),
        lo <= s.len(),
    ensures
        rolled_unit(s, y) == c,
        !oversized(s, y),
{
    reveal(settled);
    assert(unit(s, s[y], s.len()) == c);
}

/// The sum of `total[j]` over the children `j` of the item at `x`, where it
/// fits in 64 bits.
pub(crate) fn sum_children(up: &Vec<usize>, total: &Vec<u64>, x: usize) -> (r: Option<u64>)
    requires
        up@.len() == total@.len(),
    ensures
        match r {
            Some(v) => v == scratch_sum(up@, total@, x as int, up@.len()),
            None => scratch_sum(up@, total@, x as int, up@.len()) > u64::MAX,
        },
{
    let n = up.len();
    let mut acc: u64 = 0;
    let mut j: usize = 0;
    while j < n
        invariant
            j <= n,
            n == up@.len(),
            n == total@.len(),
            acc == scratch_sum(up@, total@, x as int, j as nat),
        decreases n - j,
    {
        if up[j] == x {
            match acc.checked_add(total[j]) {
                Some(v) => {
                    acc = v;
                },
                None => {
                    proof {
                        lemma_scratch_sum_grows(up@, total@, x as int, (j + 1) as nat, n as nat);
                    }
                    return None;
                },
            }
        }
        j += 1;
    }
    Some(acc)
}

/// Prices the marked items without a unit cost, deepest level first. Returns
/// the unit cost and the total cost of every item, or the place of an item
/// whose cost does not fit.
pub(crate) fn price_levels(
    nodes: &Nodes,
    up: &Vec<usize>,
    marked: &Vec<bool>,
    depth: &Vec<usize>,
    top: usize,
    a: usize,
) -> (r: Result<(Vec<u64>, Vec<u64>), usize>)
    requires
        nodes.wf(),
        linked(nodes@, up@),
        marking(nodes@, up@, a as int, marked@, depth@),
        closed_under(nodes@, up@, marked@),
        rooted(nodes@, up@, marked@, a as int),
        forall|y: int| 0 <= y < nodes@.len() && #[trigger] marked@[y] ==> depth@[y] <= top,
        top < nodes@.len(),
    ensures
        match r {
            Ok((cost, total)) => {
                &&& seeded(nodes@, cost@, total@)
                &&& forall|x: int|
                    0 <= x < nodes@.len() && #[trigger] marked@[x] && nodes@[x].open() ==> settled(
                        nodes@,
                        nodes@[x],
                        cost@[x],
                        total@[x],
                        nodes@.len() as int,
                    )
            },
            Err(x) => {
                &&& x < nodes@.len()
                &&& marked@[x as int]
                &&& nodes@[x as int].open()
                &&& oversized(nodes@, x as int)
                &&& forall|y: int|
                    0 <= y < nodes@.len() && #[trigger] marked@[y] && nodes@[y].open() && (depth@[y]
                        > depth@[x as int] || (depth@[y] == depth@[x as int] && y < x)) ==> !oversized(
                        nodes@,
                        y,
                    )
            },
        },
{
    let n = nodes.len();
    let ghost s = nodes@;
    let mut cost: Vec<u64> = Vec::new();
    let mut total: Vec<u64> = Vec::new();
    let mut i: usize = 0;
    while i < n
        invariant
            i <= n,
            n == s.len(),
            s == nodes@,
            valid(s),
            cost@.len() == i,
            total@.len() == i,
            forall|y: int|
                0 <= y < i && !(#[trigger] s[y]).open() ==> cost@[y] == s[y].unit_cost->0 && total@[y]
                    == s[y].total_cost->0,
        decreases n - i,
    {
        let node = nodes.at(i);
        assert(s[i as int].wf());
        match (node.unit_cost(), node.total_cost()) {
            (Some(u), Some(t)) => {
                cost.push(u);
                total.push(t);
            },
            _ => {
                cost.push(0);
                total.push(0);
            },
        }
        i += 1;
    }
    let mut level: usize = top + 1;
    while level > 0
        invariant
            level <= top + 1,
            top < n,
            n == s.len(),
            s == nodes@,
            valid(s),
            linked(s, up@),
            marking(s, up@, a as int, marked@, depth@),
            closed_under(s, up@, marked@),
            rooted(s, up@, marked@, a as int),
            forall|y: int| 0 <= y < n && #[trigger] marked@[y] ==> depth@[y] <= top,
            seeded(s, cost@, total@),
            settled_below(s, marked@, depth@, cost@, total@, top as int, level as int, 0),
        decreases level,
    {
        let mut x: usize = 0;
        while x < n
            invariant
                x <= n,
                1 <= level <= top + 1,
                top < n,
                n == s.len(),
                s == nodes@,
                valid(s),
                linked(s, up@),
                marking(s, up@, a as int, marked@, depth@),
                closed_under(s, up@, marked@),
                rooted(s, up@, marked@, a as int),
                forall|y: int| 0 <= y < n && #[trigger] marked@[y] ==> depth@[y] <= top,
                seeded(s, cost@, total@),
                settled_below(s, marked@, depth@, cost@, total@, top as int, level as int, x as int),
            decreases n - x,
        {
            if marked[x] && depth[x] == level - 1 && nodes.at(x).unit_cost().is_none() {
                let ghost lo: int = top - depth@[x as int] + 1;
                let ghost sum = scratch_sum(up@, total@, x as int, n as nat);
                proof {
                    lemma_unit_is_sum(s, up@, marked@, depth@, cost@, total@, a as int, top as int, x as int);
                    assert(rolled_unit(s, x as int) == sum);
                    assert forall|y: int|
                        0 <= y < n && #[trigger] marked@[y] && s[y].open() && (depth@[y] > depth@[x as int] || (
                        depth@[y] == depth@[x as int] && y < x)) implies !oversized(s, y) by {
                        lemma_settled_fits(s, y, cost@[y], total@[y], top - depth@[y] + 1);
                    }
                }
                let acc = match sum_children(up, &total, x) {
                    Some(v) => v,
                    None => {
                        return Err(x);
                    },
                };
                let whole = match acc.checked_mul(nodes.at(x).count()) {
                    Some(t) => t,
                    None => {
                        return Err(x);
                    },
                };
                cost.set(x, acc);
                total.set(x, whole);
                assert(settled(s, s[x as int], acc, whole, lo)) by {
                    reveal(settled);
                }
            }
            x += 1;
        }
        level -= 1;
    }
    proof {
        assert forall|x: int| 0 <= x < n && #[trigger] marked@[x] && s[x].open() implies settled(
            s,
            s[x],
            cost@[x],
            total@[x],
            n as int,
        ) by {
            lemma_settled_later(s, s[x], cost@[x], total@[x], top - depth@[x] + 1, n as int);
        }
    }
    Ok((cost, total))
}

/// Writes the costs of the marked items that had none into the breakdown.
pub(crate) fn commit(nodes: &mut Nodes, marked: &Vec<bool>, cost: &Vec<u64>)
    requires
        old(nodes).wf(),
        marked@.len() == old(nodes)@.len(),
        cost@.len() == old(nodes)@.len(),
        forall|x: int|
            0 <= x < old(nodes)@.len() && #[trigger] marked@[x] && old(nodes)@[x].open() ==> cost@[x] * old(
                nodes,
            )@[x].count <= u64::MAX,
    ensures
        final(nodes).wf(),
        final(nodes)@ == Seq::new(
            old(nodes)@.len(),
            |x: int|
                if marked@[x] && old(nodes)@[x].open() {
                    old(nodes)@[x].priced(cost@[x])
                } else {
                    old(nodes)@[x]
                },
        ),
{
    let n = nodes.len();
    let ghost s = nodes@;
    let mut x: usize = 0;
    while x < n
        invariant
            x <= n,
            n == s.len(),
            s == old(nodes)@,
            valid(s),
            marked@.len() == n,
            cost@.len() == n,
            forall|y: int|
                0 <= y < n && #[trigger] marked@[y] && s[y].open() ==> cost@[y] * s[y].count <= u64::MAX,
            nodes@.len() == n,
            forall|y: int|
                0 <= y < n ==> #[trigger] nodes@[y] == if y < x && marked@[y] && s[y].open() {
                    s[y].priced(cost@[y])
                } else {
                    s[y]
                },
        decreases n - x,
    {
        if marked[x] && nodes.at(x).unit_cost().is_none() {
            nodes.price(x, cost[x]);
        }
        x += 1;
    }
    assert(nodes@ =~= Seq::new(
        s.len(),
        |x: int|
            if marked@[x] && s[x].open() {
                s[x].priced(cost@[x])
            } else {
                s[x]
            },
    ));
    proof {
        use_type_invariant(&*nodes);
    }
}

/// Where the children of `id` hold among `t` the unit costs that they have
/// among `s` at `fuel`, the sum over them is the same in both.
pub(crate) proof fn lemma_aggregate_matches(s: Seq<NodeView>, t: Seq<NodeView>, id: u32, fuel: nat, k: nat)
    requires
        t.len() == s.len(),
        k <= s.len(),
        forall|j: int|
            0 <= j < s.len() ==> (#[trigger] t[j]).parent == s[j].parent && t[j].count == s[j].count,
        forall|j: int|
            0 <= j < s.len() && (#[trigger] s[j]).parent == Some(id) ==> t[j].unit_cost is Some
                && t[j].unit_cost->0 == unit(s, s[j], fuel),
    ensures
        aggregate(t.take(k as int), id) == children_sum(s.take(k as int), s, id, fuel),
    decreases k,
{
    if k > 0 {
        lemma_aggregate_matches(s, t, id, fuel, (k - 1) as nat);
        assert(s.take(k as int).drop_last() =~= s.take(k - 1));
        assert(t.take(k as int).drop_last() =~= t.take(k - 1));
        assert(s.take(k as int).last() == s[k - 1]);
        assert(t.take(k as int).last() == t[k - 1]);
    }
}

/// What the priced levels, once written into the breakdown, come to: the
/// rolled-up breakdown, in which every new unit cost is the sum over the
/// children.
pub(crate) proof fn lemma_committed(
    s: Seq<NodeView>,
    up: Seq<usize>,
    a: int,
    marked: Seq<bool>,
    depth: Seq<usize>,
    cost: Seq<u64>,
    total: Seq<u64>,
    t: Seq<NodeView>,
)
    requires
        valid(s),
        linked(s, up),
        marking(s, up, a, marked, depth),
        closed_under(s, up, marked),
        seeded(s, cost, total),
        forall|y: int| 0 <= y < s.len() ==> !bare(s, marked, y),
        forall|x: int|
            0 <= x < s.len() && #[trigger] marked[x] && s[x].open() ==> settled(
                s,
                s[x],
                cost[x],
                total[x],
                s.len() as int,
            ),
        t == Seq::new(
            s.len(),
            |x: int|
                if marked[x] && s[x].open() {
                    s[x].priced(cost[x])
                } else {
                    s[x]
                },
        ),
    ensures
        t == rolled(s, a),
        aggregated(s, a, t),
        forall|x: int| 0 <= x < s.len() ==> !overflowing(s, a, x),
{
    reveal(settled);
    lemma_marked_is_within(s, up, a, marked, depth);
    let n = s.len();
    assert forall|x: int| 0 <= x < n && marked[x] && s[x].open() implies cost[x] == rolled_unit(s, x)
        && cost[x] == unit(s, s[x], n + 1) && cost[x] * s[x].count <= u64::MAX by {
        assert(settled(s, s[x], cost[x], total[x], n as int));
        assert(unit(s, s[x], n) == cost[x]);
        assert(unit(s, s[x], n + 1) == cost[x]);
    }
    assert(t =~= rolled(s, a));
    assert forall|x: int| 0 <= x < n && (#[trigger] s[x]).open() && within(s, a, x) implies {
        &&& !childless(t, t[x].id)
        &&& children_priced(t, t[x].id)
        &&& t[x].unit_cost == Some(aggregate(t, t[x].id) as u64)
        &&& aggregate(t, t[x].id) <= u64::MAX
    } by {
        let id = s[x].id;
        assert(marked[x]);
        assert(!bare(s, marked, x));
        let c = choose|c: int| 0 <= c < n && (#[trigger] s[c]).parent == Some(id);
        assert(t[c].parent == Some(id));
        assert forall|j: int| 0 <= j < n && (#[trigger] s[j]).parent == Some(id) implies t[j].unit_cost is Some
            && t[j].unit_cost->0 == unit(s, s[j], n) by {
            lemma_linked_child(s, up, j, x);
            assert(up[j] == x);
            if s[j].open() {
                assert(marked[j]);
            }
        }
        assert forall|j: int| 0 <= j < n && (#[trigger] t[j]).parent == Some(id) implies !t[j].open() by {
            assert(s[j].parent == Some(id));
        }
        lemma_aggregate_matches(s, t, id, n, n);
        assert(s.take(n as int) =~= s);
        assert(t.take(n as int) =~= t);
    }
}

/// What the pricing says of the item at `x` where it fails makes that item
/// the first of the deepest whose cost does not fit.
pub(crate) proof fn lemma_first_overflowing(
    s: Seq<NodeView>,
    up: Seq<usize>,
    a: int,
    marked: Seq<bool>,
    depth: Seq<usize>,
    x: int,
)
    requires
        distinct_ids(s),
        linked(s, up),
        marking(s, up, a, marked, depth),
        closed_under(s, up, marked),
        rooted(s, up, marked, a),
        0 <= x < s.len(),
        marked[x],
        s[x].open(),
        oversized(s, x),
        forall|y: int|
            0 <= y < s.len() && #[trigger] marked[y] && s[y].open() && (depth[y] > depth[x] || (depth[y]
                == depth[x] && y < x)) ==> !oversized(s, y),
    ensures
        first_overflowing(s, a, x),
{
    lemma_marked_is_within(s, up, a, marked, depth);
    assert forall|y: int| 0 <= y < s.len() && marked[y] implies level(s, a, y) == depth[y] by {
        lemma_marked_descends(s, up, a, marked, depth, y);
        lemma_level_is_depth(s, up, a, marked, depth, y, level(s, a, y));
    }
    assert forall|y: int| #[trigger] overflowing(s, a, y) implies level(s, a, y) < level(s, a, x) || (level(
        s,
        a,
        y,
    ) == level(s, a, x) && x <= y) by {
        assert(marked[y]);
    }
}

} // verus!
