use vstd::prelude::*;

verus! {

/// A node of a flow network: a payload and how much it supplies (positive) or demands
/// (negative).
#[derive(Default, PartialEq, Eq, Structural, PartialOrd, Ord, Clone, Copy, Debug)]
pub struct BalancedNode<N, W> {
    pub node: N,
    pub balance: W,
}

impl<N, W> BalancedNode<N, W> {
    pub fn new(node: N, balance: W) -> (r: Self)
        ensures
            r.node == node,
            r.balance == balance,
    {
        BalancedNode { node, balance }
    }
}

/// A node that carries a balance.
pub trait NodeBalance {
    spec fn spec_balance(&self) -> i64;

    fn balance(&self) -> (r: i64)
        ensures
            r == self.spec_balance(),
    ;
}

impl<N> NodeBalance for BalancedNode<N, i64> {
    open spec fn spec_balance(&self) -> i64 {
        self.balance
    }

    fn balance(&self) -> (r: i64) {
        self.balance
    }
}

} // verus!
