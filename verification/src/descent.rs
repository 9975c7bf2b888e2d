//! The descent from an item: where the parents stand, what lies below the
//! item, and how deep.

use vstd::prelude::*;
use crate::model::{
    dangling, descends, distinct_ids, first_dangling, is_cycle, lemma_index_of, lookup, loops, parent_index,
    within,
};
use crate::node::NodeView;
use crate::nodes::Nodes;

verus! {

/// `up` gives, for each item, where its parent stands, or the number of items
/// where it names none.
pub(crate) open spec fn linked(s: Seq<NodeView>, up: Seq<usize>) -> bool {
    &&& up.len() == s.len()
    &&& forall|x: int|
        0 <= x < s.len() ==> {
            &&& (#[trigger] up[x]) <= s.len()
            &&& up[x] < s.len() ==> s[x].parent == Some(s[up[x] as int].id)
            &&& up[x] == s.len() ==> s[x].parent is None
        }
}

/// With `up` as above, the parent of the item at `x` stands at `up[x]`.
pub(crate) proof fn lemma_linked_parent(s: Seq<NodeView>, up: Seq<usize>, x: int)
    requires
        distinct_ids(s),
        linked(s, up),
        0 <= x < s.len(),
    ensures
        !dangling(s, x),
        up[x] < s.len() ==> parent_index(s, x) == up[x],
        up[x] == s.len() ==> parent_index(s, x) == -1,
{
    if up[x] < s.len() {
        lemma_index_of(s, up[x] as int);
    }
}

/// With `up` as above, the item at `j` names the item at `x` as its parent
/// exactly when `up[j]` is `x`.
pub(crate) proof fn lemma_linked_child(s: Seq<NodeView>, up: Seq<usize>, j: int, x: int)
    requires
        distinct_ids(s),
        linked(s, up),
        0 <= j < s.len(),
        0 <= x < s.len(),
    ensures
        up[j] == x <==> s[j].parent == Some(s[x].id),
{
}

/// Finds the parent of every item, or the first item whose parent is missing.
pub(crate) fn link_parents(nodes: &Nodes) -> (r: Result<Vec<usize>, usize>)
    requires
        nodes.wf(),
    ensures
        match r {
            Ok(up) => linked(nodes@, up@),
            Err(x) => first_dangling(nodes@, x as int),
        },
{
    let n = nodes.len();
    let mut up: Vec<usize> = Vec::new();
    let mut x: usize = 0;
    while x < n
        invariant
            x <= n,
            n == nodes@.len(),
            up@.len() == x,
            forall|y: int|
                0 <= y < x ==> {
                    &&& (#[trigger] up@[y]) <= n
                    &&& up@[y] < n ==> nodes@[y].parent == Some(nodes@[up@[y] as int].id)
                    &&& up@[y] == n ==> nodes@[y].parent is None
                },
            forall|y: int| 0 <= y < x ==> !dangling(nodes@, y),
        decreases n - x,
    {
        match nodes.at(x).parent() {
            None => {
                up.push(n);
            },
            Some(pid) => {
                match nodes.position(pid) {
                    Some(p) => {
                        assert(nodes@[p as int].id == pid);
                        up.push(p);
                    },
                    None => {
                        return Err(x);
                    },
                }
            },
        }
        x += 1;
    }
    Ok(up)
}

/// How many entries of `m` are set.
pub(crate) open spec fn count_true(m: Seq<bool>) -> nat
    decreases m.len(),
{
    if m.len() == 0 {
        0
    } else {
        count_true(m.drop_last()) + if m.last() {
            1nat
        } else {
            0nat
        }
    }
}

pub(crate) proof fn lemma_count_true_bound(m: Seq<bool>)
    ensures
        count_true(m) <= m.len(),
    decreases m.len(),
{
    if m.len() > 0 {
        lemma_count_true_bound(m.drop_last());
    }
}

pub(crate) proof fn lemma_count_true_none(m: Seq<bool>)
    requires
        forall|i: int| 0 <= i < m.len() ==> !m[i],
    ensures
        count_true(m) == 0,
    decreases m.len(),
{
    if m.len() > 0 {
        lemma_count_true_none(m.drop_last());
    }
}

pub(crate) proof fn lemma_count_true_set(m: Seq<bool>, x: int)
    requires
        0 <= x < m.len(),
        !m[x],
    ensures
        count_true(m.update(x, true)) == count_true(m) + 1,
    decreases m.len(),
{
    if x == m.len() - 1 {
        assert(m.update(x, true).drop_last() =~= m.drop_last());
    } else {
        lemma_count_true_set(m.drop_last(), x);
        assert(m.update(x, true).drop_last() =~= m.drop_last().update(x, true));
    }
}

/// `marked` and `depth` record a descent from the item at `a`: each marked
/// item but that one has a marked parent without a unit cost, one level up.
pub(crate) open spec fn marking(
    s: Seq<NodeView>,
    up: Seq<usize>,
    a: int,
    marked: Seq<bool>,
    depth: Seq<usize>,
) -> bool {
    &&& marked.len() == s.len()
    &&& depth.len() == s.len()
    &&& 0 <= a < s.len()
    &&& marked[a]
    &&& depth[a] == 0
    &&& forall|x: int|
        0 <= x < s.len() && marked[x] && x != a ==> {
            &&& (#[trigger] up[x]) < s.len()
            &&& marked[up[x] as int]
            &&& s[up[x] as int].open()
            &&& depth[x] == depth[up[x] as int] + 1
        }
}

/// Every child of a marked item without a unit cost, at a depth below
/// `level`, is marked.
pub(crate) open spec fn covered(
    s: Seq<NodeView>,
    up: Seq<usize>,
    marked: Seq<bool>,
    depth: Seq<usize>,
    level: int,
) -> bool {
    forall|x: int|
        0 <= x < s.len() && (#[trigger] up[x]) < s.len() && marked[up[x] as int] && s[up[x] as int].open()
            && depth[up[x] as int] < level ==> marked[x]
}

/// Every child of a marked item without a unit cost is marked.
pub(crate) open spec fn closed_under(s: Seq<NodeView>, up: Seq<usize>, marked: Seq<bool>) -> bool {
    forall|x: int|
        0 <= x < s.len() && (#[trigger] up[x]) < s.len() && marked[up[x] as int] && s[up[x] as int].open()
            ==> marked[x]
}

/// A marked item descends from the item at `a`, by as many levels as its
/// depth says.
pub(crate) proof fn lemma_marked_descends(
    s: Seq<NodeView>,
    up: Seq<usize>,
    a: int,
    marked: Seq<bool>,
    depth: Seq<usize>,
    x: int,
)
    requires
        distinct_ids(s),
        linked(s, up),
        marking(s, up, a, marked, depth),
        0 <= x < s.len(),
        marked[x],
    ensures
        descends(s, x, a, depth[x] as nat),
    decreases depth[x],
{
    if x != a {
        lemma_linked_parent(s, up, x);
        lemma_marked_descends(s, up, a, marked, depth, up[x] as int);
    }
}

/// Where all children of marked items are marked, whatever descends from the
/// item at `a` is marked.
pub(crate) proof fn lemma_descends_marked(
    s: Seq<NodeView>,
    up: Seq<usize>,
    a: int,
    marked: Seq<bool>,
    depth: Seq<usize>,
    x: int,
    k: nat,
)
    requires
        distinct_ids(s),
        linked(s, up),
        marking(s, up, a, marked, depth),
        closed_under(s, up, marked),
        0 <= x < s.len(),
        descends(s, x, a, k),
    ensures
        marked[x],
    decreases k,
{
    if k > 0 {
        lemma_linked_parent(s, up, x);
        let p = parent_index(s, x);
        lemma_descends_marked(s, up, a, marked, depth, p, (k - 1) as nat);
    }
}

/// Marks what descends from the item at `a` through items without a unit
/// cost, level by level, and notes the depth of each. Returns the marks, the
/// depths and the greatest depth.
pub(crate) fn mark_descent(nodes: &Nodes, up: &Vec<usize>, a: usize) -> (r: (Vec<bool>, Vec<usize>, usize))
    requires
        nodes.wf(),
        linked(nodes@, up@),
        a < nodes@.len(),
    ensures
        marking(nodes@, up@, a as int, r.0@, r.1@),
        closed_under(nodes@, up@, r.0@),
        forall|y: int| 0 <= y < nodes@.len() && #[trigger] r.0@[y] ==> r.1@[y] <= r.2,
        r.2 < nodes@.len(),
{
    let n = nodes.len();
    let mut marked: Vec<bool> = vec![false; n];
    let mut depth: Vec<usize> = vec![0usize; n];
    proof {
        lemma_count_true_none(marked@);
        lemma_count_true_set(marked@, a as int);
    }
    marked.set(a, true);
    let mut d: usize = 0;
    loop
        invariant
            n == nodes@.len(),
            linked(nodes@, up@),
            marking(nodes@, up@, a as int, marked@, depth@),
            covered(nodes@, up@, marked@, depth@, d as int),
            forall|y: int| 0 <= y < n && #[trigger] marked@[y] ==> depth@[y] <= d,
            d + 1 <= count_true(marked@),
        ensures
            marking(nodes@, up@, a as int, marked@, depth@),
            closed_under(nodes@, up@, marked@),
            forall|y: int| 0 <= y < n && #[trigger] marked@[y] ==> depth@[y] <= d,
            d < n,
        decreases n - count_true(marked@),
    {
        proof {
            lemma_count_true_bound(marked@);
        }
        let ghost marked0 = marked@;
        let ghost depth0 = depth@;
        let mut changed = false;
        let mut x: usize = 0;
        while x < n
            invariant
                x <= n,
                n == nodes@.len(),
                d + 1 <= n,
                linked(nodes@, up@),
                marking(nodes@, up@, a as int, marked0, depth0),
                marking(nodes@, up@, a as int, marked@, depth@),
                forall|y: int| 0 <= y < n && #[trigger] marked0[y] ==> depth0[y] <= d,
                forall|y: int|
                    #![trigger marked0[y]]
                    0 <= y < n && marked0[y] ==> marked@[y] && depth@[y] == depth0[y],
                forall|y: int| 0 <= y < n && #[trigger] marked@[y] && !marked0[y] ==> depth@[y] == d + 1,
                forall|y: int|
                    0 <= y < x && (#[trigger] up@[y]) < n && marked0[up@[y] as int]
                        && nodes@[up@[y] as int].open() && depth0[up@[y] as int] == d ==> marked@[y],
                !changed ==> marked@ == marked0 && depth@ == depth0,
                changed ==> count_true(marked@) > count_true(marked0),
                count_true(marked@) >= count_true(marked0),
            decreases n - x,
        {
            if !marked[x] {
                let p = up[x];
                if p < n && marked[p] && depth[p] == d && nodes.at(p).unit_cost().is_none() {
                    proof {
                        lemma_count_true_set(marked@, x as int);
                    }
                    marked.set(x, true);
                    depth.set(x, d + 1);
                    changed = true;
                }
            }
            x += 1;
        }
        if !changed {
            break;
        }
        proof {
            lemma_count_true_bound(marked@);
        }
        d += 1;
    }
    (marked, depth, d)
}

/// The parent of the item at `path[j]` stands at `path[j + 1]`.
pub(crate) open spec fn step(up: Seq<usize>, path: Seq<int>, j: int) -> bool {
    up[path[j]] == path[j + 1]
}

/// The identifiers of the items on the way up from the item at `a`, which
/// ends at that item again.
pub(crate) fn cycle_ids(
    nodes: &Nodes,
    up: &Vec<usize>,
    marked: &Vec<bool>,
    depth: &Vec<usize>,
    a: usize,
) -> (ids: Vec<u32>)
    requires
        nodes.wf(),
        linked(nodes@, up@),
        marking(nodes@, up@, a as int, marked@, depth@),
        nodes@[a as int].open(),
        up@[a as int] < nodes@.len(),
        marked@[up@[a as int] as int],
        nodes@[up@[a as int] as int].open(),
    ensures
        ids@[0] == nodes@[a as int].id,
        is_cycle(nodes@, ids@),
{
    let ghost s = nodes@;
    let mut ids: Vec<u32> = Vec::new();
    ids.push(nodes.at(a).id());
    let ghost mut path: Seq<int> = seq![a as int];
    let mut cur: usize = up[a];
    while cur != a
        invariant
            s == nodes@,
            distinct_ids(s),
            linked(s, up@),
            marking(s, up@, a as int, marked@, depth@),
            cur < s.len(),
            marked@[cur as int],
            s[cur as int].open(),
            path.len() == ids@.len(),
            path.len() >= 1,
            path[0] == a,
            forall|j: int|
                0 <= j < path.len() ==> {
                    &&& 0 <= #[trigger] path[j] < s.len()
                    &&& ids@[j] == s[path[j]].id
                    &&& s[path[j]].open()
                },
            forall|j: int| 0 <= j < path.len() - 1 ==> #[trigger] step(up@, path, j),
            up@[path[path.len() - 1]] == cur,
            forall|j: int| 1 <= j < path.len() ==> #[trigger] path[j] != a,
        decreases depth@[cur as int],
    {
        ids.push(nodes.at(cur).id());
        proof {
            let longer = path.push(cur as int);
            assert forall|j: int| 0 <= j < longer.len() - 1 implies #[trigger] step(up@, longer, j) by {
                if j < path.len() - 1 {
                    assert(step(up@, path, j));
                }
            }
            path = longer;
        }
        cur = up[cur];
    }
    proof {
        assert forall|j: int| 0 <= j < ids@.len() implies {
            &&& lookup(s, #[trigger] ids@[j]) is Some
            &&& lookup(s, ids@[j])->0.open()
            &&& lookup(s, ids@[j])->0.parent == Some(
                ids@[if j + 1 == ids@.len() {
                    0
                } else {
                    j + 1
                }],
            )
        } by {
            lemma_index_of(s, path[j]);
            if j + 1 < path.len() {
                assert(step(up@, path, j));
            }
        }
        assert forall|j: int| 1 <= j < ids@.len() implies #[trigger] ids@[j] != ids@[0] by {
            assert(path[j] != path[0]);
        }
    }
    ids
}

/// The item at `a` has no marked parent without a unit cost: it is not among
/// its own descendants.
pub(crate) open spec fn rooted(s: Seq<NodeView>, up: Seq<usize>, marked: Seq<bool>, a: int) -> bool {
    !(up[a] < s.len() && marked[up[a] as int] && s[up[a] as int].open())
}

/// Where the item at `a` is not among its own descendants, a marked item
/// stands as many levels below it as its depth says, and no other number.
pub(crate) proof fn lemma_level_is_depth(
    s: Seq<NodeView>,
    up: Seq<usize>,
    a: int,
    marked: Seq<bool>,
    depth: Seq<usize>,
    x: int,
    k: nat,
)
    requires
        distinct_ids(s),
        linked(s, up),
        marking(s, up, a, marked, depth),
        closed_under(s, up, marked),
        rooted(s, up, marked, a),
        0 <= x < s.len(),
        descends(s, x, a, k),
    ensures
        marked[x],
        depth[x] == k,
    decreases k,
{
    lemma_descends_marked(s, up, a, marked, depth, x, k);
    if k > 0 {
        lemma_linked_parent(s, up, x);
        let p = parent_index(s, x);
        lemma_level_is_depth(s, up, a, marked, depth, p, (k - 1) as nat);
        assert(up[x] == p);
    }
}

/// After a full marking, the marked items are those that the rollup from the
/// item at `a` reaches.
pub(crate) proof fn lemma_marked_is_within(
    s: Seq<NodeView>,
    up: Seq<usize>,
    a: int,
    marked: Seq<bool>,
    depth: Seq<usize>,
)
    requires
        distinct_ids(s),
        linked(s, up),
        marking(s, up, a, marked, depth),
        closed_under(s, up, marked),
    ensures
        forall|y: int| 0 <= y < s.len() ==> (#[trigger] marked[y] <==> within(s, a, y)),
{
    assert forall|y: int| 0 <= y < s.len() implies (#[trigger] marked[y] <==> within(s, a, y)) by {
        if marked[y] {
            lemma_marked_descends(s, up, a, marked, depth, y);
        }
        if within(s, a, y) {
            let k = choose|k: nat| descends(s, y, a, k);
            lemma_descends_marked(s, up, a, marked, depth, y, k);
        }
    }
}

/// After a full marking, the item at `a` is among its own descendants exactly
/// when its parent is marked and has no unit cost.
pub(crate) proof fn lemma_loops_is_unrooted(
    s: Seq<NodeView>,
    up: Seq<usize>,
    a: int,
    marked: Seq<bool>,
    depth: Seq<usize>,
)
    requires
        distinct_ids(s),
        linked(s, up),
        marking(s, up, a, marked, depth),
        closed_under(s, up, marked),
    ensures
        loops(s, a) <==> !rooted(s, up, marked, a),
{
    lemma_linked_parent(s, up, a);
    if !rooted(s, up, marked, a) {
        let p = up[a] as int;
        lemma_marked_descends(s, up, a, marked, depth, p);
        assert(descends(s, a, a, (depth[p] + 1) as nat));
    }
    if loops(s, a) {
        let k = choose|k: nat| k >= 1 && descends(s, a, a, k);
        let p = parent_index(s, a);
        lemma_descends_marked(s, up, a, marked, depth, p, (k - 1) as nat);
    }
}

} // verus!
