//! The mathematical model of a breakdown: a sequence of line items, and what
//! its rollup is.

use vstd::prelude::*;
use crate::error::CostError;
use crate::node::NodeView;

verus! {

/// No two items share an identifier.
pub open spec fn distinct_ids(s: Seq<NodeView>) -> bool {
    forall|i: int, j: int|
        #![trigger s[i], s[j]]
        0 <= i < s.len() && 0 <= j < s.len() && s[i].id == s[j].id ==> i == j
}

/// Every item is well formed and no two share an identifier.
pub open spec fn valid(s: Seq<NodeView>) -> bool {
    &&& distinct_ids(s)
    &&& forall|i: int| 0 <= i < s.len() ==> (#[trigger] s[i]).wf()
}

/// Some item has the identifier `id`.
pub open spec fn holds_id(s: Seq<NodeView>, id: u32) -> bool {
    exists|i: int| 0 <= i < s.len() && (#[trigger] s[i]).id == id
}

/// Where the item with the identifier `id` stands.
pub open spec fn index_of(s: Seq<NodeView>, id: u32) -> int {
    choose|i: int| 0 <= i < s.len() && (#[trigger] s[i]).id == id
}

/// The item with the identifier `id`, if there is one.
pub open spec fn lookup(s: Seq<NodeView>, id: u32) -> Option<NodeView> {
    if holds_id(s, id) {
        Some(s[index_of(s, id)])
    } else {
        None
    }
}

/// The items that name `parent` as their parent, in the order of `s`.
pub open spec fn children_of(s: Seq<NodeView>, parent: u32) -> Seq<NodeView> {
    s.filter(|n: NodeView| n.parent == Some(parent))
}

/// No item names `id` as its parent.
pub open spec fn childless(s: Seq<NodeView>, id: u32) -> bool {
    forall|j: int| 0 <= j < s.len() ==> (#[trigger] s[j]).parent != Some(id)
}

/// The item at `x` names a parent that is not among the items.
pub open spec fn dangling(s: Seq<NodeView>, x: int) -> bool {
    s[x].parent is Some && !holds_id(s, s[x].parent->0)
}

/// The first item that names a missing parent stands at `x`.
pub open spec fn first_dangling(s: Seq<NodeView>, x: int) -> bool {
    &&& 0 <= x < s.len()
    &&& dangling(s, x)
    &&& forall|y: int| 0 <= y < x ==> !dangling(s, y)
}

/// Where the parent of the item at `x` stands; -1 where it names none, or one
/// that is missing.
pub open spec fn parent_index(s: Seq<NodeView>, x: int) -> int {
    if s[x].parent is Some && holds_id(s, s[x].parent->0) {
        index_of(s, s[x].parent->0)
    } else {
        -1
    }
}

/// The item at `x` stands `k` levels below the item at `a`, and every item on
/// the way up from it, the one at `a` included, has no unit cost of its own.
pub open spec fn descends(s: Seq<NodeView>, x: int, a: int, k: nat) -> bool
    decreases k,
{
    if k == 0 {
        x == a
    } else {
        let p = parent_index(s, x);
        p >= 0 && s[p].open() && descends(s, p, a, (k - 1) as nat)
    }
}

/// A rollup that starts at the item at `a` reaches the item at `x`.
pub open spec fn within(s: Seq<NodeView>, a: int, x: int) -> bool {
    exists|k: nat| descends(s, x, a, k)
}

/// The item at `a` is among its own descendants.
pub open spec fn loops(s: Seq<NodeView>, a: int) -> bool {
    exists|k: nat| k >= 1 && descends(s, a, a, k)
}

/// `ids` names the items of a cycle of parents: each item has no unit cost and
/// names the next as its parent, the last names the first, and the first comes
/// once.
pub open spec fn is_cycle(s: Seq<NodeView>, ids: Seq<u32>) -> bool {
    &&& ids.len() >= 1
    &&& forall|j: int|
        0 <= j < ids.len() ==> {
            &&& lookup(s, #[trigger] ids[j]) is Some
            &&& lookup(s, ids[j])->0.open()
            &&& lookup(s, ids[j])->0.parent == Some(
                ids[if j + 1 == ids.len() {
                    0
                } else {
                    j + 1
                }],
            )
        }
    &&& forall|j: int| 1 <= j < ids.len() ==> #[trigger] ids[j] != ids[0]
}

/// The rollup from the item at `a` reaches the item at `x`, which has neither
/// a unit cost nor children.
pub open spec fn incomplete(s: Seq<NodeView>, a: int, x: int) -> bool {
    &&& 0 <= x < s.len()
    &&& s[x].open()
    &&& within(s, a, x)
    &&& childless(s, s[x].id)
}

/// The first such item stands at `x`.
pub open spec fn first_incomplete(s: Seq<NodeView>, a: int, x: int) -> bool {
    &&& incomplete(s, a, x)
    &&& forall|y: int| 0 <= y < x ==> !incomplete(s, a, y)
}

/// The unit cost of the item `n` among the items `s`: its own where it has
/// one, else the sum over its children of unit cost times count. `fuel` is the
/// number of levels looked down; below them an item without a unit cost
/// counts as zero.
pub open spec fn unit(s: Seq<NodeView>, n: NodeView, fuel: nat) -> nat
    decreases fuel, 0nat, 0nat,
{
    match n.unit_cost {
        Some(u) => u as nat,
        None => if fuel == 0 {
            0
        } else {
            children_sum(s, s, n.id, (fuel - 1) as nat)
        },
    }
}

/// The sum, over those of `items` that name `id` as their parent, of unit cost
/// (among `s`) times count.
pub open spec fn children_sum(items: Seq<NodeView>, s: Seq<NodeView>, id: u32, fuel: nat) -> nat
    decreases fuel, 1nat, items.len(),
{
    if items.len() == 0 {
        0
    } else {
        children_sum(items.drop_last(), s, id, fuel) + if items.last().parent == Some(id) {
            unit(s, items.last(), fuel) * (items.last().count as nat)
        } else {
            0nat
        }
    }
}

/// The unit cost that a rollup gives the item at `x`.
pub open spec fn rolled_unit(s: Seq<NodeView>, x: int) -> nat {
    unit(s, s[x], s.len())
}

/// The rolled-up unit cost of the item at `x`, or what it comes to for all its
/// units, is more than 64 bits hold.
pub open spec fn oversized(s: Seq<NodeView>, x: int) -> bool {
    rolled_unit(s, x) > u64::MAX || rolled_unit(s, x) * s[x].count > u64::MAX
}

/// The rollup from the item at `a` reaches the item at `x`, which has no unit
/// cost and whose rolled-up cost does not fit.
pub open spec fn overflowing(s: Seq<NodeView>, a: int, x: int) -> bool {
    &&& 0 <= x < s.len()
    &&& s[x].open()
    &&& within(s, a, x)
    &&& oversized(s, x)
}

/// How many levels the item at `x` stands below the item at `a`.
pub open spec fn level(s: Seq<NodeView>, a: int, x: int) -> nat {
    choose|k: nat| descends(s, x, a, k)
}

/// Of the items in reach whose cost does not fit, the item at `x` is the
/// first of those that stand deepest.
pub open spec fn first_overflowing(s: Seq<NodeView>, a: int, x: int) -> bool {
    &&& overflowing(s, a, x)
    &&& forall|y: int|
        #[trigger] overflowing(s, a, y) ==> level(s, a, y) < level(s, a, x) || (level(s, a, y) == level(
            s,
            a,
            x,
        ) && x <= y)
}

/// The items after a rollup from the item at `a`: each item that it reaches
/// and that had no unit cost now has its rolled-up one; the others are as they
/// were.
pub open spec fn rolled(s: Seq<NodeView>, a: int) -> Seq<NodeView> {
    Seq::new(
        s.len(),
        |x: int|
            if s[x].open() && within(s, a, x) {
                s[x].priced(rolled_unit(s, x) as u64)
            } else {
                s[x]
            },
    )
}

/// The sum, over those of `items` that name `id` as their parent, of the unit
/// cost they hold times their count.
pub open spec fn aggregate(items: Seq<NodeView>, id: u32) -> nat
    decreases items.len(),
{
    if items.len() == 0 {
        0
    } else {
        aggregate(items.drop_last(), id) + if items.last().parent == Some(id) {
            match items.last().unit_cost {
                Some(u) => (u * items.last().count) as nat,
                None => 0,
            }
        } else {
            0
        }
    }
}

/// Every child of `id` among `s` has a unit cost.
pub open spec fn children_priced(s: Seq<NodeView>, id: u32) -> bool {
    forall|j: int| 0 <= j < s.len() && (#[trigger] s[j]).parent == Some(id) ==> !s[j].open()
}

/// How a rollup from the identifier `id` ends.
pub enum Verdict {
    /// The item already has a unit cost: nothing is done.
    Settled,
    /// Some item names a missing parent; the first stands at the index given.
    Dangling(int),
    /// No item has the identifier.
    Unknown,
    /// The item is among its own descendants.
    Cycle,
    /// An item in reach has neither unit cost nor children; the first stands
    /// at the index given.
    Incomplete(int),
    /// A rolled-up cost in reach does not fit in 64 bits; of the items it
    /// belongs to, the first of the deepest stands at the index given.
    Overflow(int),
    /// The rollup is done.
    Rolled,
}

/// How a rollup of `s` from the identifier `id` ends: the first of the cases
/// of `Verdict`, in the order in which they are declared, that applies.
pub open spec fn verdict(s: Seq<NodeView>, id: u32) -> Verdict {
    let a = index_of(s, id);
    if holds_id(s, id) && !s[a].open() {
        Verdict::Settled
    } else if exists|x: int| 0 <= x < s.len() && dangling(s, x) {
        Verdict::Dangling(choose|x: int| first_dangling(s, x))
    } else if !holds_id(s, id) {
        Verdict::Unknown
    } else if loops(s, a) {
        Verdict::Cycle
    } else if exists|x: int| incomplete(s, a, x) {
        Verdict::Incomplete(choose|x: int| first_incomplete(s, a, x))
    } else if exists|x: int| overflowing(s, a, x) {
        Verdict::Overflow(choose|x: int| first_overflowing(s, a, x))
    } else {
        Verdict::Rolled
    }
}

/// The items after a rollup of `s` from the identifier `id`, however it ends.
pub open spec fn after(s: Seq<NodeView>, id: u32) -> Seq<NodeView> {
    if verdict(s, id) is Rolled {
        rolled(s, index_of(s, id))
    } else {
        s
    }
}

/// What a rollup of `s` from the identifier `id` returns.
pub open spec fn answers(s: Seq<NodeView>, id: u32, r: Result<(), CostError>) -> bool {
    match verdict(s, id) {
        Verdict::Settled => r is Ok,
        Verdict::Dangling(x) => r == Err::<(), CostError>(CostError::DanglingParent { id: s[x].id }),
        Verdict::Unknown => r == Err::<(), CostError>(CostError::UnknownNode { id }),
        Verdict::Cycle => {
            &&& r matches Err(CostError::CycleDetected { ids })
            &&& ids@[0] == id
            &&& is_cycle(s, ids@)
        },
        Verdict::Incomplete(x) => r == Err::<(), CostError>(CostError::IncompleteLeaf { id: s[x].id }),
        Verdict::Overflow(x) => r == Err::<(), CostError>(CostError::Overflow { id: s[x].id }),
        Verdict::Rolled => r is Ok,
    }
}

/// Among the items `t`, each item that the rollup of `s` from the item at `a`
/// gave a cost has children, all with a unit cost, and its own unit cost is
/// the sum over them of unit cost times count.
pub open spec fn aggregated(s: Seq<NodeView>, a: int, t: Seq<NodeView>) -> bool {
    forall|x: int|
        0 <= x < s.len() && (#[trigger] s[x]).open() && within(s, a, x) ==> {
            &&& !childless(t, t[x].id)
            &&& children_priced(t, t[x].id)
            &&& t[x].unit_cost == Some(aggregate(t, t[x].id) as u64)
            &&& aggregate(t, t[x].id) <= u64::MAX
        }
}

/// In a breakdown without repeated identifiers, the item found at `i` is the
/// one that `index_of` names.
pub proof fn lemma_index_of(s: Seq<NodeView>, i: int)
    requires
        distinct_ids(s),
        0 <= i < s.len(),
    ensures
        holds_id(s, s[i].id),
        index_of(s, s[i].id) == i,
        lookup(s, s[i].id) == Some(s[i]),
{
    let j = index_of(s, s[i].id);
    assert(s[j].id == s[i].id);
}

/// Where an identifier is held, `index_of` names an item that has it.
pub proof fn lemma_index_of_held(s: Seq<NodeView>, id: u32)
    requires
        holds_id(s, id),
    ensures
        0 <= index_of(s, id) < s.len(),
        s[index_of(s, id)].id == id,
{
}

} // verus!
