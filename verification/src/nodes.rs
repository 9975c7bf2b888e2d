//! The breakdown: a collection of line items, found by identifier.

use vstd::prelude::*;
use crate::error::LoadError;
use crate::model::{children_of, holds_id, lemma_index_of, lookup, valid};
use crate::node::{Node, NodeView};

verus! {

/// A breakdown: line items in the order in which they were inserted, no two
/// with the same identifier.
#[derive(Debug, PartialEq, Eq)]
pub struct Nodes {
    data: Vec<Node>,
}

impl View for Nodes {
    type V = Seq<NodeView>;

    closed spec fn view(&self) -> Seq<NodeView> {
        self.data@.map_values(|n: Node| n@)
    }
}

impl Clone for Nodes {
    fn clone(&self) -> (r: Nodes)
        ensures
            r@ == self@,
    {
        proof {
            use_type_invariant(self);
        }
        let mut data: Vec<Node> = Vec::new();
        let mut i: usize = 0;
        while i < self.data.len()
            invariant
                i <= self.data.len(),
                data@.len() == i,
                forall|j: int| 0 <= j < i ==> (#[trigger] data@[j])@ == self.data@[j]@,
            decreases self.data.len() - i,
        {
            data.push(self.data[i].clone());
            i += 1;
        }
        assert(data@.map_values(|n: Node| n@) =~= self@);
        Nodes { data }
    }
}

impl Nodes {
    /// Every item is well formed and no two share an identifier. This holds
    /// of every breakdown.
    #[verifier::type_invariant]
    pub open spec fn wf(&self) -> bool {
        valid(self@)
    }

    /// An empty breakdown.
    pub fn new() -> (r: Nodes)
        ensures
            r@ == Seq::<NodeView>::empty(),
            r.wf(),
    {
        let r = Nodes { data: Vec::new() };
        assert(r@ =~= Seq::<NodeView>::empty());
        r
    }

    /// The number of items.
    pub fn len(&self) -> (r: usize)
        ensures
            r == self@.len(),
    {
        self.data.len()
    }

    /// The item at `index`, in insertion order.
    pub fn get(&self, index: usize) -> (r: Option<&Node>)
        ensures
            index < self@.len() ==> r is Some && r->0@ == self@[index as int],
            index >= self@.len() ==> r is None,
    {
        if index < self.data.len() {
            Some(&self.data[index])
        } else {
            None
        }
    }

    /// The item at `index`, which is in range.
    pub(crate) fn at(&self, index: usize) -> (r: &Node)
        requires
            index < self@.len(),
        ensures
            r@ == self@[index as int],
    {
        &self.data[index]
    }

    /// Sets the unit cost of the item at `index`, and its total cost with it.
    pub(crate) fn price(&mut self, index: usize, unit: u64)
        requires
            index < old(self)@.len(),
            unit * old(self)@[index as int].count <= u64::MAX,
        ensures
            final(self)@ == old(self)@.update(index as int, old(self)@[index as int].priced(unit)),
    {
        proof {
            use_type_invariant(&*self);
        }
        let mut data: Vec<Node> = Vec::new();
        std::mem::swap(&mut self.data, &mut data);
        data[index].set_cost(unit);
        assert(data@.map_values(|n: Node| n@) =~= old(self)@.update(
            index as int,
            old(self)@[index as int].priced(unit),
        ));
        std::mem::swap(&mut self.data, &mut data);
    }

    /// Where the first item with the identifier `id` stands.
    pub(crate) fn position(&self, id: u32) -> (r: Option<usize>)
        ensures
            match r {
                Some(i) => i < self@.len() && self@[i as int].id == id,
                None => !holds_id(self@, id),
            },
    {
        let mut i: usize = 0;
        while i < self.data.len()
            invariant
                i <= self.data.len(),
                forall|j: int| 0 <= j < i ==> (#[trigger] self@[j]).id != id,
            decreases self.data.len() - i,
        {
            if self.data[i].id() == id {
                return Some(i);
            }
            i += 1;
        }
        None
    }

    /// Adds an item at the end, unless its identifier is taken.
    pub fn insert(&mut self, node: Node) -> (r: Result<(), LoadError>)
        ensures
            final(self).wf(),
            holds_id(old(self)@, node@.id) ==> r == Err::<(), LoadError>(
                LoadError::DuplicateId { id: node@.id },
            ) && final(self)@ == old(self)@,
            !holds_id(old(self)@, node@.id) ==> r is Ok && final(self)@ == old(self)@.push(node@),
    {
        proof {
            use_type_invariant(&*self);
            use_type_invariant(&node);
        }
        let id = node.id();
        match self.position(id) {
            Some(_) => Err(LoadError::DuplicateId { id }),
            None => {
                let ghost before = self@;
                let mut data: Vec<Node> = Vec::new();
                std::mem::swap(&mut self.data, &mut data);
                data.push(node);
                assert(data@.map_values(|n: Node| n@) =~= before.push(node@));
                std::mem::swap(&mut self.data, &mut data);
                Ok(())
            },
        }
    }

    /// The item with the identifier `id`.
    pub fn get_node_with_id(&self, id: u32) -> (r: Option<&Node>)
        ensures
            match r {
                Some(n) => lookup(self@, id) == Some(n@),
                None => lookup(self@, id) is None,
            },
    {
        proof {
            use_type_invariant(self);
        }
        match self.position(id) {
            Some(i) => {
                proof {
                    lemma_index_of(self@, i as int);
                }
                Some(&self.data[i])
            },
            None => None,
        }
    }

    /// The items that name `parent` as their parent, in insertion order.
    pub fn get_nodes_with_parent(&self, parent: u32) -> (r: Vec<&Node>)
        ensures
            r@.map_values(|n: &Node| n@) == children_of(self@, parent),
    {
        let ghost pred = |n: NodeView| n.parent == Some(parent);
        let mut out: Vec<&Node> = Vec::new();
        let mut i: usize = 0;
        proof {
            reveal(Seq::filter);
            assert(self@.take(0) =~= Seq::<NodeView>::empty());
            assert(out@.map_values(|n: &Node| n@) =~= self@.take(0).filter(pred));
        }
        while i < self.data.len()
            invariant
                i <= self.data.len(),
                pred == |n: NodeView| n.parent == Some(parent),
                out@.map_values(|n: &Node| n@) == self@.take(i as int).filter(pred),
            decreases self.data.len() - i,
        {
            let ghost before = out@.map_values(|n: &Node| n@);
            proof {
                reveal(Seq::filter);
                assert(self@.take(i + 1).drop_last() =~= self@.take(i as int));
            }
            if self.data[i].parent() == Some(parent) {
                out.push(&self.data[i]);
                assert(out@.map_values(|n: &Node| n@) =~= before.push(self@[i as int]));
            }
            i += 1;
        }
        assert(self@.take(i as int) =~= self@);
        out
    }

    /// The unit cost of the item with the identifier `id`, where it has one.
    /// Nothing is computed.
    pub fn get_unit_cost(&self, id: u32) -> (r: Option<u64>)
        ensures
            r == match lookup(self@, id) {
                Some(n) => n.unit_cost,
                None => None,
            },
    {
        match self.get_node_with_id(id) {
            Some(node) => node.unit_cost(),
            None => None,
        }
    }
}

} // verus!
