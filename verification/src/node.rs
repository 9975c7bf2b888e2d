//! One line item of a breakdown.

use vstd::prelude::*;

verus! {

/// What a line item holds, as contracts see it.
pub struct NodeView {
    pub id: u32,
    pub parent: Option<u32>,
    pub name: Seq<char>,
    pub unit_cost: Option<u64>,
    pub count: u64,
    pub total_cost: Option<u64>,
}

impl NodeView {
    /// An identifier is positive, and the total cost is the unit cost times
    /// the count exactly when a unit cost is set.
    pub open spec fn wf(self) -> bool {
        &&& self.id >= 1
        &&& match self.unit_cost {
            Some(u) => self.total_cost == Some((u * self.count) as u64) && u * self.count <= u64::MAX,
            None => self.total_cost is None,
        }
    }

    /// The item has no unit cost yet.
    pub open spec fn open(self) -> bool {
        self.unit_cost is None
    }

    /// The item with its cost set to `unit`.
    pub open spec fn priced(self, unit: u64) -> NodeView {
        NodeView {
            unit_cost: Some(unit),
            total_cost: Some((unit * self.count) as u64),
            ..self
        }
    }
}

/// A line item: an identifier, the identifier of its parent, a label, the cost
/// of one unit, how many units the parent needs, and the cost of all of them.
#[derive(Debug, PartialEq, Eq)]
pub struct Node {
    id: u32,
    parent: Option<u32>,
    name: String,
    count: u64,
    /// The unit cost and the total cost, once they are known.
    cost: Option<(u64, u64)>,
}

impl View for Node {
    type V = NodeView;

    closed spec fn view(&self) -> NodeView {
        NodeView {
            id: self.id,
            parent: self.parent,
            name: self.name@,
            unit_cost: match self.cost {
                Some(c) => Some(c.0),
                None => None,
            },
            count: self.count,
            total_cost: match self.cost {
                Some(c) => Some(c.1),
                None => None,
            },
        }
    }
}

impl Clone for Node {
    fn clone(&self) -> (r: Node)
        ensures
            r@ == self@,
    {
        proof {
            use_type_invariant(self);
        }
        Node {
            id: self.id,
            parent: self.parent,
            name: self.name.clone(),
            count: self.count,
            cost: self.cost,
        }
    }
}

impl Node {
    /// The identifier is positive, and the total cost is the unit cost times
    /// the count. This holds of every item.
    #[verifier::type_invariant]
    pub open spec fn wf(&self) -> bool {
        self@.wf()
    }

    /// Makes an item. There is none for the identifier zero, nor where the
    /// total cost does not fit in 64 bits.
    pub fn new(
        id: u32,
        parent: Option<u32>,
        name: String,
        unit_cost: Option<u64>,
        count: u64,
    ) -> (r: Option<Node>)
        ensures
            r is Some <==> id >= 1 && (unit_cost is Some ==> unit_cost->0 * count <= u64::MAX),
            r is Some ==> r->0@.wf() && r->0@.id == id && r->0@.parent == parent && r->0@.name
                == name@ && r->0@.unit_cost == unit_cost && r->0@.count == count,
    {
        if id == 0 {
            return None;
        }
        let cost: Option<(u64, u64)> = match unit_cost {
            Some(u) => match u.checked_mul(count) {
                Some(t) => Some((u, t)),
                None => {
                    return None;
                },
            },
            None => None,
        };
        Some(Node { id, parent, name, count, cost })
    }

    pub fn id(&self) -> (r: u32)
        ensures
            r == self@.id,
    {
        self.id
    }

    pub fn parent(&self) -> (r: Option<u32>)
        ensures
            r == self@.parent,
    {
        self.parent
    }

    pub fn name(&self) -> (r: &String)
        ensures
            r@ == self@.name,
    {
        &self.name
    }

    pub fn unit_cost(&self) -> (r: Option<u64>)
        ensures
            r == self@.unit_cost,
    {
        match self.cost {
            Some(c) => Some(c.0),
            None => None,
        }
    }

    pub fn count(&self) -> (r: u64)
        ensures
            r == self@.count,
    {
        self.count
    }

    pub fn total_cost(&self) -> (r: Option<u64>)
        ensures
            r == self@.total_cost,
    {
        match self.cost {
            Some(c) => Some(c.1),
            None => None,
        }
    }

    /// Sets the unit cost, and the total cost with it.
    pub(crate) fn set_cost(&mut self, unit: u64)
        requires
            unit * old(self)@.count <= u64::MAX,
        ensures
            final(self)@ == old(self)@.priced(unit),
        no_unwind
    {
        proof {
            use_type_invariant(&*self);
        }
        self.cost = Some((unit, unit * self.count));
    }
}

} // verus!
