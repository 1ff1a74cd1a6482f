use crate::graph::index::NodeId;
use crate::structures::parents::Parents;
use vstd::prelude::*;

verus! {

/// For every node, the cost found for it and the node it was reached from.
pub struct Distances {
    pub distances: Vec<Option<i64>>,
    pub parents: Parents,
}

impl Distances {
    /// Nothing found yet for any of `count` nodes.
    pub fn with_count(count: usize) -> (r: Self)
        ensures
            r.distances@ == Seq::new(count as nat, |i: int| None::<i64>),
            r.parents@ == Seq::new(count as nat, |i: int| None::<NodeId>),
    {
        let mut distances: Vec<Option<i64>> = Vec::new();
        let mut i: usize = 0;
        while i < count
            invariant
                i <= count,
                distances@ == Seq::new(i as nat, |k: int| None::<i64>),
            decreases count - i,
        {
            distances.push(None);
            i = i + 1;
            proof {
                assert(distances@ =~= Seq::new(i as nat, |k: int| None::<i64>));
            }
        }
        Distances { parents: Parents::with_count(count), distances }
    }

    /// `to` was reached from `from` at the given cost.
    pub fn insert(&mut self, from: NodeId, to: NodeId, cost: i64)
        requires
            to.0 < old(self).distances@.len(),
            to.0 < old(self).parents@.len(),
        ensures
            final(self).distances@ == old(self).distances@.update(to.0 as int, Some(cost)),
            final(self).parents@ == old(self).parents@.update(to.0 as int, Some(from)),
    {
        self.parents.insert(from, to);
        self.distances.set(to.0, Some(cost));
    }

    /// Records a cost for `to` without a parent.
    pub fn add_cost(&mut self, to: NodeId, cost: i64)
        requires
            to.0 < old(self).distances@.len(),
        ensures
            final(self).distances@ == old(self).distances@.update(to.0 as int, Some(cost)),
            final(self).parents@ == old(self).parents@,
    {
        self.distances.set(to.0, Some(cost));
    }

    /// The cost found for the node.
    pub fn distance(&self, node: NodeId) -> (r: Option<&i64>)
        requires
            node.0 < self.distances@.len(),
        ensures
            r == match self.distances@[node.0 as int] {
                Some(d) => Some(&d),
                None => None,
            },
    {
        match &self.distances[node.0] {
            Some(d) => Some(d),
            None => None,
        }
    }
}

} // verus!
