use vstd::prelude::*;

verus! {

/// The sum of two costs, held at the ends of the range: the largest cost stands for an
/// unbounded one, as infinity does for a floating-point cost.
pub open spec fn add_cost(a: i64, b: i64) -> i64 {
    if a + b > i64::MAX {
        i64::MAX
    } else if a + b < i64::MIN {
        i64::MIN
    } else {
        (a + b) as i64
    }
}

/// Adds two costs, held at the ends of the range.
pub fn cost_add(a: i64, b: i64) -> (r: i64)
    ensures
        r == add_cost(a, b),
{
    match a.checked_add(b) {
        Some(c) => c,
        None => if b > 0 {
            i64::MAX
        } else {
            i64::MIN
        },
    }
}

/// The largest value of a weight type, used where no edge was found yet.
pub trait Maximum: Sized {
    spec fn spec_max() -> Self;

    fn max() -> (r: Self)
        ensures
            r == Self::spec_max(),
    ;
}

impl Maximum for i64 {
    open spec fn spec_max() -> i64 {
        i64::MAX
    }

    fn max() -> (r: i64) {
        i64::MAX
    }
}

impl Maximum for u32 {
    open spec fn spec_max() -> u32 {
        u32::MAX
    }

    fn max() -> (r: u32) {
        u32::MAX
    }
}

/// A weight that carries a cost.
pub trait EdgeCost {
    spec fn spec_cost(&self) -> i64;

    fn cost(&self) -> (r: i64)
        ensures
            r == self.spec_cost(),
    ;
}

/// A weight that carries a capacity.
pub trait EdgeCapacity {
    spec fn spec_capacity(&self) -> i64;

    fn capacity(&self) -> (r: i64)
        ensures
            r == self.spec_capacity(),
    ;
}

/// A weight that carries a flow.
pub trait EdgeFlow {
    spec fn spec_flow(&self) -> i64;

    fn flow(&self) -> (r: i64)
        ensures
            r == self.spec_flow(),
    ;
}

/// A weight that knows whether it belongs to a reverse (residual) edge.
pub trait EdgeDirection {
    spec fn spec_is_reverse(&self) -> bool;

    fn is_reverse(&self) -> (r: bool)
        ensures
            r == self.spec_is_reverse(),
    ;
}

/// A weight that is only a cost: its cost is itself.
impl EdgeCost for i64 {
    open spec fn spec_cost(&self) -> i64 {
        *self
    }

    fn cost(&self) -> (r: i64) {
        *self
    }
}

/// A cost-only weight has an unbounded capacity.
impl EdgeCapacity for i64 {
    open spec fn spec_capacity(&self) -> i64 {
        i64::MAX
    }

    fn capacity(&self) -> (r: i64) {
        i64::MAX
    }
}

/// A cost-only weight carries no flow.
impl EdgeFlow for i64 {
    open spec fn spec_flow(&self) -> i64 {
        0
    }

    fn flow(&self) -> (r: i64) {
        0
    }
}

/// The weight of an edge of a flow network.
#[derive(Default, PartialEq, Eq, Structural, PartialOrd, Ord, Clone, Copy, Debug)]
pub struct FlowWeight<W> {
    pub flow: W,
    pub capacity: W,
    pub cost: W,
    pub rev: bool,
}

impl<W> FlowWeight<W> {
    /// A forward edge.
    pub fn new(capacity: W, cost: W, flow: W) -> (r: Self)
        ensures
            r.capacity == capacity,
            r.cost == cost,
            r.flow == flow,
            !r.rev,
    {
        FlowWeight { capacity, cost, rev: false, flow }
    }

    /// A reverse (residual) edge.
    pub fn rev(capacity: W, cost: W, flow: W) -> (r: Self)
        ensures
            r.capacity == capacity,
            r.cost == cost,
            r.flow == flow,
            r.rev,
    {
        FlowWeight { capacity, cost, rev: true, flow }
    }

    /// Flips the direction flag.
    pub fn reverse(&mut self)
        ensures
            final(self).rev == !old(self).rev,
            final(self).flow == old(self).flow,
            final(self).capacity == old(self).capacity,
            final(self).cost == old(self).cost,
    {
        self.rev = !self.rev;
    }
}

impl EdgeCost for FlowWeight<i64> {
    open spec fn spec_cost(&self) -> i64 {
        self.cost
    }

    fn cost(&self) -> (r: i64) {
        self.cost
    }
}

impl EdgeCapacity for FlowWeight<i64> {
    open spec fn spec_capacity(&self) -> i64 {
        self.capacity
    }

    fn capacity(&self) -> (r: i64) {
        self.capacity
    }
}

impl EdgeFlow for FlowWeight<i64> {
    open spec fn spec_flow(&self) -> i64 {
        self.flow
    }

    fn flow(&self) -> (r: i64) {
        self.flow
    }
}

impl EdgeDirection for FlowWeight<i64> {
    open spec fn spec_is_reverse(&self) -> bool {
        self.rev
    }

    fn is_reverse(&self) -> (r: bool) {
        self.rev
    }
}

/// What a weight must offer so that the cost algorithms can run on it.
pub trait Weight: EdgeCost + EdgeCapacity + EdgeFlow + Copy {}

impl Weight for i64 {}

impl Weight for FlowWeight<i64> {}

} // verus!
