//! The order of the rows, and of the items, does not matter.

use vstd::prelude::*;
use crate::error::LoadError;
use crate::loader::{load, row_item, CellView};
use crate::model::{
    after, childless, children_sum, dangling, descends, distinct_ids, holds_id, incomplete, index_of,
    lemma_index_of, lemma_index_of_held, lookup, loops, overflowing, rolled_unit, unit, valid, verdict,
    within, Verdict,
};
use crate::node::NodeView;

verus! {

/// Taking one of the items away takes its share away from the sum over the
/// children.
proof fn lemma_children_sum_remove(items: Seq<NodeView>, s: Seq<NodeView>, id: u32, fuel: nat, k: int)
    requires
        0 <= k < items.len(),
    ensures
        children_sum(items, s, id, fuel) == children_sum(items.remove(k), s, id, fuel) + if items[k].parent
            == Some(id) {
            unit(s, items[k], fuel) * (items[k].count as nat)
        } else {
            0nat
        },
    decreases items.len(),
{
    if k == items.len() - 1 {
        assert(items.remove(k) =~= items.drop_last());
    } else {
        lemma_children_sum_remove(items.drop_last(), s, id, fuel, k);
        assert(items.remove(k).drop_last() =~= items.drop_last().remove(k));
        assert(items.remove(k).last() == items.last());
    }
}

/// The sum over the children does not depend on the order of the items, nor
/// on the order of the breakdown in which their unit costs are looked up,
/// where those unit costs do not.
proof fn lemma_children_sum_permuted(
    items1: Seq<NodeView>,
    items2: Seq<NodeView>,
    s1: Seq<NodeView>,
    s2: Seq<NodeView>,
    id: u32,
    fuel: nat,
)
    requires
        items1.to_multiset() == items2.to_multiset(),
        forall|n: NodeView| #[trigger] unit(s1, n, fuel) == unit(s2, n, fuel),
    ensures
        children_sum(items1, s1, id, fuel) == children_sum(items2, s2, id, fuel),
    decreases items1.len(),
{
    items1.to_multiset_ensures();
    items2.to_multiset_ensures();
    if items1.len() > 0 {
        let x = items1.last();
        let rest1 = items1.drop_last();
        rest1.to_multiset_ensures();
        assert(items1 =~= rest1.push(x));
        assert(items1[items1.len() - 1] == x);
        assert(items1.contains(x));
        assert(items1.to_multiset().count(x) > 0);
        assert(items2.to_multiset().count(x) > 0);
        assert(items2.contains(x));
        let k = choose|k: int| 0 <= k < items2.len() && items2[k] == x;
        let rest2 = items2.remove(k);
        assert(rest1.to_multiset() =~= items1.to_multiset().remove(x));
        assert(rest2.to_multiset() =~= items2.to_multiset().remove(x));
        lemma_children_sum_permuted(rest1, rest2, s1, s2, id, fuel);
        lemma_children_sum_remove(items2, s2, id, fuel, k);
        assert(unit(s1, x, fuel) == unit(s2, x, fuel));
    } else {
        assert(items1.to_multiset().len() == 0);
        assert(items2.len() == 0);
    }
}

/// The unit cost of an item does not depend on the order of the breakdown.
pub proof fn lemma_unit_order_independent(s1: Seq<NodeView>, s2: Seq<NodeView>, fuel: nat)
    requires
        s1.to_multiset() == s2.to_multiset(),
    ensures
        forall|n: NodeView| #[trigger] unit(s1, n, fuel) == unit(s2, n, fuel),
    decreases fuel,
{
    if fuel > 0 {
        lemma_unit_order_independent(s1, s2, (fuel - 1) as nat);
        assert forall|n: NodeView| #[trigger] unit(s1, n, fuel) == unit(s2, n, fuel) by {
            lemma_children_sum_permuted(s1, s2, s1, s2, n.id, (fuel - 1) as nat);
        }
    }
}

/// The unit cost that a rollup would give an item does not depend on the
/// order of the items: where two breakdowns hold the same items, an item has
/// the same rolled-up unit cost in both, wherever it stands.
pub proof fn lemma_rolled_unit_order_independent(s1: Seq<NodeView>, s2: Seq<NodeView>, x1: int, x2: int)
    requires
        s1.to_multiset() == s2.to_multiset(),
        0 <= x1 < s1.len(),
        0 <= x2 < s2.len(),
        s1[x1] == s2[x2],
    ensures
        s1.len() == s2.len(),
        rolled_unit(s1, x1) == rolled_unit(s2, x2),
{
    s1.to_multiset_ensures();
    s2.to_multiset_ensures();
    lemma_unit_order_independent(s1, s2, s1.len());
}

/// Two breakdowns hold the same items, each as often in one as in the other.
pub open spec fn same_items(s1: Seq<NodeView>, s2: Seq<NodeView>) -> bool {
    s1.to_multiset() == s2.to_multiset()
}

/// What stands in one sequence stands somewhere in another that holds the
/// same entries.
proof fn lemma_counterpart<A>(s1: Seq<A>, s2: Seq<A>, x1: int) -> (x2: int)
    requires
        s1.to_multiset() == s2.to_multiset(),
        0 <= x1 < s1.len(),
    ensures
        0 <= x2 < s2.len(),
        s2[x2] == s1[x1],
{
    s1.to_multiset_ensures();
    s2.to_multiset_ensures();
    assert(s1.contains(s1[x1]));
    assert(s1.to_multiset().count(s1[x1]) > 0);
    assert(s2.to_multiset().count(s1[x1]) > 0);
    assert(s2.contains(s1[x1]));
    choose|x2: int| 0 <= x2 < s2.len() && s2[x2] == s1[x1]
}

/// An identifier names the same item in both.
proof fn lemma_lookup_permuted(s1: Seq<NodeView>, s2: Seq<NodeView>, id: u32)
    requires
        valid(s1),
        valid(s2),
        same_items(s1, s2),
    ensures
        lookup(s1, id) == lookup(s2, id),
{
    if holds_id(s1, id) {
        let i = index_of(s1, id);
        let j = lemma_counterpart(s1, s2, i);
        lemma_index_of(s2, j);
    }
    if holds_id(s2, id) {
        let j = index_of(s2, id);
        let i = lemma_counterpart(s2, s1, j);
        lemma_index_of(s1, i);
    }
}

/// The item `n` stands `k` levels below the item `top`, and every item on
/// the way up from it has no unit cost of its own.
spec fn climbs(s: Seq<NodeView>, n: NodeView, top: NodeView, k: nat) -> bool
    decreases k,
{
    if k == 0 {
        n == top
    } else {
        &&& n.parent is Some
        &&& lookup(s, n.parent->0) is Some
        &&& lookup(s, n.parent->0)->0.open()
        &&& climbs(s, lookup(s, n.parent->0)->0, top, (k - 1) as nat)
    }
}

/// Standing below an item, told by places, is standing below it, told by the
/// items themselves.
proof fn lemma_descends_is_climbs(s: Seq<NodeView>, x: int, a: int, k: nat)
    requires
        valid(s),
        0 <= x < s.len(),
        0 <= a < s.len(),
    ensures
        descends(s, x, a, k) == climbs(s, s[x], s[a], k),
    decreases k,
{
    if k > 0 {
        if s[x].parent is Some && holds_id(s, s[x].parent->0) {
            lemma_index_of_held(s, s[x].parent->0);
            lemma_descends_is_climbs(s, index_of(s, s[x].parent->0), a, (k - 1) as nat);
        }
    }
}

/// An item stands below another in one breakdown exactly when it does in the
/// other.
proof fn lemma_climbs_permuted(s1: Seq<NodeView>, s2: Seq<NodeView>, n: NodeView, top: NodeView, k: nat)
    requires
        valid(s1),
        valid(s2),
        same_items(s1, s2),
    ensures
        climbs(s1, n, top, k) == climbs(s2, n, top, k),
    decreases k,
{
    if k > 0 && n.parent is Some {
        lemma_lookup_permuted(s1, s2, n.parent->0);
        if lookup(s1, n.parent->0) is Some {
            lemma_climbs_permuted(s1, s2, lookup(s1, n.parent->0)->0, top, (k - 1) as nat);
        }
    }
}

/// Two places in two breakdowns with the same items hold the same item.
spec fn paired(s1: Seq<NodeView>, s2: Seq<NodeView>, x1: int, x2: int) -> bool {
    &&& 0 <= x1 < s1.len()
    &&& 0 <= x2 < s2.len()
    &&& s1[x1] == s2[x2]
}

/// What a rollup reaches in one breakdown it reaches in the other.
proof fn lemma_within_permuted(s1: Seq<NodeView>, s2: Seq<NodeView>, a1: int, a2: int, x1: int, x2: int)
    requires
        valid(s1),
        valid(s2),
        same_items(s1, s2),
        paired(s1, s2, a1, a2),
        paired(s1, s2, x1, x2),
    ensures
        within(s1, a1, x1) ==> within(s2, a2, x2),
{
    if within(s1, a1, x1) {
        let k = choose|k: nat| descends(s1, x1, a1, k);
        lemma_descends_is_climbs(s1, x1, a1, k);
        lemma_descends_is_climbs(s2, x2, a2, k);
        lemma_climbs_permuted(s1, s2, s1[x1], s1[a1], k);
    }
}

/// An item among its own descendants in one breakdown is so in the other.
proof fn lemma_loops_permuted(s1: Seq<NodeView>, s2: Seq<NodeView>, a1: int, a2: int)
    requires
        valid(s1),
        valid(s2),
        same_items(s1, s2),
        paired(s1, s2, a1, a2),
    ensures
        loops(s1, a1) ==> loops(s2, a2),
{
    if loops(s1, a1) {
        let k = choose|k: nat| k >= 1 && descends(s1, a1, a1, k);
        lemma_descends_is_climbs(s1, a1, a1, k);
        lemma_descends_is_climbs(s2, a2, a2, k);
        lemma_climbs_permuted(s1, s2, s1[a1], s1[a1], k);
    }
}

/// A parent missing from one breakdown is missing from the other.
proof fn lemma_dangling_permuted(s1: Seq<NodeView>, s2: Seq<NodeView>, x1: int, x2: int)
    requires
        valid(s1),
        valid(s2),
        same_items(s1, s2),
        paired(s1, s2, x1, x2),
    ensures
        dangling(s1, x1) ==> dangling(s2, x2),
{
    if s1[x1].parent is Some {
        lemma_lookup_permuted(s1, s2, s1[x1].parent->0);
    }
}

/// An item without children in one breakdown has none in the other.
proof fn lemma_childless_permuted(s1: Seq<NodeView>, s2: Seq<NodeView>, id: u32)
    requires
        same_items(s1, s2),
    ensures
        childless(s1, id) ==> childless(s2, id),
{
    if childless(s1, id) {
        assert forall|j: int| 0 <= j < s2.len() implies (#[trigger] s2[j]).parent != Some(id) by {
            let i = lemma_counterpart(s2, s1, j);
            assert(s1[i].parent != Some(id));
        }
    }
}

/// An item in reach with neither unit cost nor children in one breakdown is
/// one in the other.
proof fn lemma_incomplete_permuted(s1: Seq<NodeView>, s2: Seq<NodeView>, a1: int, a2: int, x1: int, x2: int)
    requires
        valid(s1),
        valid(s2),
        same_items(s1, s2),
        paired(s1, s2, a1, a2),
        paired(s1, s2, x1, x2),
    ensures
        incomplete(s1, a1, x1) ==> incomplete(s2, a2, x2),
{
    lemma_within_permuted(s1, s2, a1, a2, x1, x2);
    lemma_childless_permuted(s1, s2, s1[x1].id);
}

/// An item in reach whose cost does not fit in one breakdown is one in the
/// other.
proof fn lemma_overflowing_permuted(s1: Seq<NodeView>, s2: Seq<NodeView>, a1: int, a2: int, x1: int, x2: int)
    requires
        valid(s1),
        valid(s2),
        same_items(s1, s2),
        paired(s1, s2, a1, a2),
        paired(s1, s2, x1, x2),
    ensures
        overflowing(s1, a1, x1) ==> overflowing(s2, a2, x2),
{
    lemma_within_permuted(s1, s2, a1, a2, x1, x2);
    lemma_rolled_unit_order_independent(s1, s2, x1, x2);
}

/// Two rollups end in the same way, whatever items they name.
pub open spec fn same_kind(v: Verdict, w: Verdict) -> bool {
    match v {
        Verdict::Settled => w is Settled,
        Verdict::Dangling(_) => w is Dangling,
        Verdict::Unknown => w is Unknown,
        Verdict::Cycle => w is Cycle,
        Verdict::Incomplete(_) => w is Incomplete,
        Verdict::Overflow(_) => w is Overflow,
        Verdict::Rolled => w is Rolled,
    }
}

/// Whatever makes a rollup of `s1` end before it is done, or lets it be
/// done, does the same to a rollup of `s2`.
proof fn lemma_verdict_permuted(s1: Seq<NodeView>, s2: Seq<NodeView>, id: u32)
    requires
        valid(s1),
        valid(s2),
        same_items(s1, s2),
    ensures
        holds_id(s1, id) && !s1[index_of(s1, id)].open() ==> holds_id(s2, id) && !s2[index_of(s2, id)].open(),
        (exists|x: int| 0 <= x < s1.len() && dangling(s1, x)) ==> (exists|x: int|
            0 <= x < s2.len() && dangling(s2, x)),
        holds_id(s1, id) ==> holds_id(s2, id),
        holds_id(s1, id) ==> paired(s1, s2, index_of(s1, id), index_of(s2, id)),
        holds_id(s1, id) && loops(s1, index_of(s1, id)) ==> loops(s2, index_of(s2, id)),
        holds_id(s1, id) && (exists|x: int| incomplete(s1, index_of(s1, id), x)) ==> (exists|x: int|
            incomplete(s2, index_of(s2, id), x)),
        holds_id(s1, id) && (exists|x: int| overflowing(s1, index_of(s1, id), x)) ==> (exists|x: int|
            overflowing(s2, index_of(s2, id), x)),
{
    lemma_lookup_permuted(s1, s2, id);
    if exists|x: int| 0 <= x < s1.len() && dangling(s1, x) {
        let x1 = choose|x: int| 0 <= x < s1.len() && dangling(s1, x);
        let x2 = lemma_counterpart(s1, s2, x1);
        lemma_dangling_permuted(s1, s2, x1, x2);
    }
    if holds_id(s1, id) {
        let a1 = index_of(s1, id);
        let a2 = index_of(s2, id);
        lemma_index_of_held(s1, id);
        lemma_index_of_held(s2, id);
        lemma_loops_permuted(s1, s2, a1, a2);
        if exists|x: int| incomplete(s1, a1, x) {
            let x1 = choose|x: int| incomplete(s1, a1, x);
            let x2 = lemma_counterpart(s1, s2, x1);
            lemma_incomplete_permuted(s1, s2, a1, a2, x1, x2);
        }
        if exists|x: int| overflowing(s1, a1, x) {
            let x1 = choose|x: int| overflowing(s1, a1, x);
            let x2 = lemma_counterpart(s1, s2, x1);
            lemma_overflowing_permuted(s1, s2, a1, a2, x1, x2);
        }
    }
}

/// A rollup does not depend on the order of the items. Where two breakdowns
/// hold the same items, a rollup from the same identifier ends in the same
/// way in both, and leaves each item as it leaves it in the other, wherever
/// the item stands.
pub proof fn lemma_rollup_order_independent(s1: Seq<NodeView>, s2: Seq<NodeView>, id: u32, x1: int, x2: int)
    requires
        valid(s1),
        valid(s2),
        same_items(s1, s2),
        0 <= x1 < s1.len(),
        0 <= x2 < s2.len(),
        s1[x1] == s2[x2],
    ensures
        same_kind(verdict(s1, id), verdict(s2, id)),
        after(s1, id)[x1] == after(s2, id)[x2],
{
    lemma_verdict_permuted(s1, s2, id);
    lemma_verdict_permuted(s2, s1, id);
    if verdict(s1, id) is Rolled {
        let a1 = index_of(s1, id);
        let a2 = index_of(s2, id);
        lemma_within_permuted(s1, s2, a1, a2, x1, x2);
        lemma_within_permuted(s2, s1, a2, a1, x2, x1);
        lemma_rolled_unit_order_independent(s1, s2, x1, x2);
    }
}

/// A load that succeeds gives one well-formed item for each row, in the order
/// of the rows, no two with the same identifier.
pub proof fn lemma_load_ok(rows: Seq<Seq<CellView>>)
    requires
        load(rows) is Ok,
    ensures
        valid(load(rows)->Ok_0),
        load(rows)->Ok_0.len() == rows.len(),
        forall|i: int| 0 <= i < rows.len() ==> row_item(#[trigger] rows[i]) == Some(load(rows)->Ok_0[i]),
    decreases rows.len(),
{
    if rows.len() > 0 {
        lemma_load_ok(rows.drop_last());
        let s = load(rows.drop_last())->Ok_0;
        let n = row_item(rows.last())->0;
        assert forall|i: int| 0 <= i < rows.len() implies row_item(#[trigger] rows[i]) == Some(
            s.push(n)[i],
        ) by {
            if i < rows.len() - 1 {
                assert(rows[i] == rows.drop_last()[i]);
            }
        }
    }
}

/// Rows that are all well formed, with no identifier twice, load.
proof fn lemma_load_succeeds(rows: Seq<Seq<CellView>>, s: Seq<NodeView>)
    requires
        s.len() == rows.len(),
        distinct_ids(s),
        forall|i: int| 0 <= i < rows.len() ==> row_item(#[trigger] rows[i]) == Some(s[i]),
    ensures
        load(rows) == Ok::<Seq<NodeView>, LoadError>(s),
    decreases rows.len(),
{
    if rows.len() > 0 {
        let rest = s.drop_last();
        assert forall|i: int| 0 <= i < rows.len() - 1 implies row_item(#[trigger] rows.drop_last()[i])
            == Some(rest[i]) by {
            assert(rows.drop_last()[i] == rows[i]);
        }
        assert forall|i: int, j: int|
            #![trigger rest[i], rest[j]]
            0 <= i < rest.len() && 0 <= j < rest.len() && rest[i].id == rest[j].id implies i == j by {
            assert(s[i].id == s[j].id);
        }
        lemma_load_succeeds(rows.drop_last(), rest);
        assert(!holds_id(rest, s.last().id)) by {
            if holds_id(rest, s.last().id) {
                let i = index_of(rest, s.last().id);
                assert(s[i].id == s[s.len() - 1].id);
            }
        }
        assert(row_item(rows.last()) == Some(s.last()));
        assert(rest.push(s.last()) =~= s);
    } else {
        assert(s =~= Seq::<NodeView>::empty());
    }
}

/// Rows that load still load after they are put in another order, and give
/// the same items.
proof fn lemma_load_permuted(rows1: Seq<Seq<CellView>>, rows2: Seq<Seq<CellView>>)
    requires
        rows1.to_multiset() == rows2.to_multiset(),
        load(rows1) is Ok,
    ensures
        load(rows2) is Ok,
        same_items(load(rows1)->Ok_0, load(rows2)->Ok_0),
{
    let s1 = load(rows1)->Ok_0;
    lemma_load_ok(rows1);
    rows1.to_multiset_ensures();
    rows2.to_multiset_ensures();
    assert(rows1.no_duplicates()) by {
        assert forall|i: int, j: int| 0 <= i < rows1.len() && 0 <= j < rows1.len() && i != j implies rows1[i]
            != rows1[j] by {
            if rows1[i] == rows1[j] {
                assert(s1[i].id == s1[j].id);
            }
        }
    }
    rows1.lemma_multiset_has_no_duplicates();
    rows2.lemma_multiset_has_no_duplicates_conv();
    let s2 = Seq::new(rows2.len(), |j: int| row_item(rows2[j])->0);
    assert forall|j: int| 0 <= j < rows2.len() implies row_item(#[trigger] rows2[j]) == Some(s2[j]) by {
        let i = lemma_counterpart(rows2, rows1, j);
    }
    assert forall|j: int, k: int|
        #![trigger s2[j], s2[k]]
        0 <= j < s2.len() && 0 <= k < s2.len() && s2[j].id == s2[k].id implies j == k by {
        let i = lemma_counterpart(rows2, rows1, j);
        let h = lemma_counterpart(rows2, rows1, k);
        assert(s1[i].id == s1[h].id);
        assert(rows2[j] == rows2[k]);
    }
    lemma_load_succeeds(rows2, s2);
    s1.to_multiset_ensures();
    s2.to_multiset_ensures();
    assert(s1.no_duplicates()) by {
        assert forall|i: int, j: int| 0 <= i < s1.len() && 0 <= j < s1.len() && i != j implies s1[i]
            != s1[j] by {
            if s1[i] == s1[j] {
                assert(s1[i].id == s1[j].id);
            }
        }
    }
    assert(s2.no_duplicates()) by {
        assert forall|i: int, j: int| 0 <= i < s2.len() && 0 <= j < s2.len() && i != j implies s2[i]
            != s2[j] by {
            if s2[i] == s2[j] {
                assert(s2[i].id == s2[j].id);
            }
        }
    }
    s1.lemma_multiset_has_no_duplicates();
    s2.lemma_multiset_has_no_duplicates();
    assert forall|n: NodeView| s1.to_multiset().count(n) == s2.to_multiset().count(n) by {
        if s1.contains(n) {
            let i = choose|i: int| 0 <= i < s1.len() && s1[i] == n;
            let j = lemma_counterpart(rows1, rows2, i);
            assert(s2[j] == n);
            assert(s2.contains(n));
        }
        if s2.contains(n) {
            let j = choose|j: int| 0 <= j < s2.len() && s2[j] == n;
            let i = lemma_counterpart(rows2, rows1, j);
            assert(s1[i] == n);
            assert(s1.contains(n));
        }
    }
    assert(s1.to_multiset() =~= s2.to_multiset());
}

/// Loading does not depend on the order of the rows: rows put in another
/// order load exactly when they did before, and give the same items.
pub proof fn lemma_load_order_independent(rows1: Seq<Seq<CellView>>, rows2: Seq<Seq<CellView>>)
    requires
        rows1.to_multiset() == rows2.to_multiset(),
    ensures
        load(rows1) is Ok <==> load(rows2) is Ok,
        load(rows1) is Ok ==> same_items(load(rows1)->Ok_0, load(rows2)->Ok_0),
{
    if load(rows1) is Ok {
        lemma_load_permuted(rows1, rows2);
    }
    if load(rows2) is Ok {
        lemma_load_permuted(rows2, rows1);
    }
}

} // verus!
