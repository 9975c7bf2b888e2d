//! The rollup: unit and total costs computed from the leaves up.

use vstd::prelude::*;
use crate::descent::{
    closed_under, cycle_ids, lemma_linked_parent, lemma_loops_is_unrooted, lemma_marked_is_within,
    link_parents, linked, mark_descent, marking,
};
use crate::error::CostError;
use crate::model::{
    after, aggregated, answers, dangling, distinct_ids, first_dangling, first_incomplete,
    first_overflowing, holds_id, incomplete, index_of, lemma_index_of, loops, overflowing, verdict,
    Verdict,
};
use crate::node::NodeView;
use crate::nodes::Nodes;
use crate::pricing::{
    bare, commit, find_bare, lemma_committed, lemma_first_overflowing, price_levels, settled,
};

verus! {

/// A rollup of `s` from `id` starts at the item at `a`, which has no unit
/// cost, and no item names a missing parent.
pub(crate) open spec fn starts_at(s: Seq<NodeView>, id: u32, a: int) -> bool {
    &&& 0 <= a < s.len()
    &&& holds_id(s, id)
    &&& index_of(s, id) == a
    &&& s[a].open()
    &&& forall|x: int| 0 <= x < s.len() ==> !dangling(s, x)
}

/// With every parent found, no item names a missing one.
pub(crate) proof fn lemma_no_dangling(s: Seq<NodeView>, up: Seq<usize>)
    requires
        distinct_ids(s),
        linked(s, up),
    ensures
        forall|x: int| 0 <= x < s.len() ==> !dangling(s, x),
{
    assert forall|x: int| 0 <= x < s.len() implies !dangling(s, x) by {
        lemma_linked_parent(s, up, x);
    }
}

/// A rollup that meets a first item with a missing parent ends by naming it.
pub(crate) proof fn lemma_verdict_dangling(s: Seq<NodeView>, id: u32, x: int)
    requires
        !(holds_id(s, id) && !s[index_of(s, id)].open()),
        first_dangling(s, x),
    ensures
        verdict(s, id) == Verdict::Dangling(x),
{
    let y = choose|y: int| first_dangling(s, y);
    assert(first_dangling(s, y));
    if x < y {
        assert(dangling(s, x));
    }
    if y < x {
        assert(dangling(s, y));
    }
}

/// A rollup without a cycle that reaches a first item with neither unit cost
/// nor children ends by naming it.
pub(crate) proof fn lemma_verdict_incomplete(s: Seq<NodeView>, id: u32, a: int, x: int)
    requires
        starts_at(s, id, a),
        !loops(s, a),
        first_incomplete(s, a, x),
    ensures
        verdict(s, id) == Verdict::Incomplete(x),
{
    let y = choose|y: int| first_incomplete(s, a, y);
    assert(first_incomplete(s, a, y));
    if x < y {
        assert(incomplete(s, a, x));
    }
    if y < x {
        assert(incomplete(s, a, y));
    }
}

/// A rollup that reaches no such item, but one whose cost does not fit, ends
/// by naming the first of the deepest of them.
pub(crate) proof fn lemma_verdict_overflow(s: Seq<NodeView>, id: u32, a: int, x: int)
    requires
        starts_at(s, id, a),
        !loops(s, a),
        forall|y: int| !incomplete(s, a, y),
        first_overflowing(s, a, x),
    ensures
        verdict(s, id) == Verdict::Overflow(x),
{
    let y = choose|y: int| first_overflowing(s, a, y);
    assert(first_overflowing(s, a, y));
    assert(overflowing(s, a, x));
    assert(overflowing(s, a, y));
}

/// A rollup that meets none of these is done.
pub(crate) proof fn lemma_verdict_rolled(s: Seq<NodeView>, id: u32, a: int)
    requires
        starts_at(s, id, a),
        !loops(s, a),
        forall|y: int| !incomplete(s, a, y),
        forall|y: int| 0 <= y < s.len() ==> !overflowing(s, a, y),
    ensures
        verdict(s, id) == Verdict::Rolled,
{
}

/// With the marks of a full descent, the first marked item without unit cost
/// or children is the first such item in reach.
pub(crate) proof fn lemma_bare_is_incomplete(
    s: Seq<NodeView>,
    up: Seq<usize>,
    a: int,
    marked: Seq<bool>,
    depth: Seq<usize>,
)
    requires
        distinct_ids(s),
        linked(s, up),
        marking(s, up, a, marked, depth),
        closed_under(s, up, marked),
    ensures
        forall|y: int| 0 <= y < s.len() ==> (bare(s, marked, y) <==> #[trigger] incomplete(s, a, y)),
{
    lemma_marked_is_within(s, up, a, marked, depth);
}

impl Nodes {
    /// Rolls costs up from the item with the identifier `id`.
    ///
    /// Where that item has a unit cost already, nothing is done. Otherwise
    /// every item below it that has none is given one, children before
    /// parents: the sum over its children of unit cost times count. The
    /// descent stops at an item that came with a unit cost: its children are
    /// not looked at.
    ///
    /// It fails, in this order, where some item of the breakdown names a
    /// parent that is missing, where no item has the identifier, where the
    /// item is among its own descendants, where an item in reach has neither
    /// a unit cost nor children, and where a cost does not fit in 64 bits. On
    /// failure nothing is changed.
    pub fn set_unit_cost(&mut self, id: u32) -> (r: Result<(), CostError>)
        ensures
            final(self).wf(),
            final(self)@ == after(old(self)@, id),
            answers(old(self)@, id, r),
            verdict(old(self)@, id) is Rolled ==> aggregated(
                old(self)@,
                index_of(old(self)@, id),
                final(self)@,
            ),
    {
        proof {
            use_type_invariant(&*self);
        }
        let ghost s = self@;
        let n = self.len();
        let found = self.position(id);
        if let Some(a) = found {
            proof {
                lemma_index_of(s, a as int);
            }
            if self.at(a).unit_cost().is_some() {
                return Ok(());
            }
        }
        let up = match link_parents(self) {
            Ok(up) => up,
            Err(x) => {
                proof {
                    lemma_verdict_dangling(s, id, x as int);
                }
                return Err(CostError::DanglingParent { id: self.at(x).id() });
            },
        };
        proof {
            lemma_no_dangling(s, up@);
        }
        let a = match found {
            Some(a) => a,
            None => {
                return Err(CostError::UnknownNode { id });
            },
        };
        assert(starts_at(s, id, a as int));
        let (marked, depth, top) = mark_descent(self, &up, a);
        proof {
            lemma_loops_is_unrooted(s, up@, a as int, marked@, depth@);
            lemma_bare_is_incomplete(s, up@, a as int, marked@, depth@);
        }
        let p = up[a];
        if p < n && marked[p] && self.at(p).unit_cost().is_none() {
            let ids = cycle_ids(self, &up, &marked, &depth, a);
            return Err(CostError::CycleDetected { ids });
        }
        match find_bare(self, &marked) {
            Some(x) => {
                proof {
                    assert(first_incomplete(s, a as int, x as int));
                    lemma_verdict_incomplete(s, id, a as int, x as int);
                }
                return Err(CostError::IncompleteLeaf { id: self.at(x).id() });
            },
            None => {},
        }
        assert(forall|y: int| !incomplete(s, a as int, y));
        match price_levels(self, &up, &marked, &depth, top, a) {
            Err(x) => {
                proof {
                    lemma_first_overflowing(s, up@, a as int, marked@, depth@, x as int);
                    lemma_verdict_overflow(s, id, a as int, x as int);
                }
                Err(CostError::Overflow { id: self.at(x).id() })
            },
            Ok((cost, total)) => {
                proof {
                    reveal(settled);
                }
                commit(self, &marked, &cost);
                proof {
                    lemma_committed(s, up@, a as int, marked@, depth@, cost@, total@, self@);
                    lemma_verdict_rolled(s, id, a as int);
                }
                Ok(())
            },
        }
    }
}

} // verus!
