use priq::PriorityQueue;
use vstd::multiset::Multiset;
use vstd::prelude::*;

verus! {

#[verifier::external_type_specification]
#[verifier::external_body]
#[verifier::reject_recursive_types(S)]
#[verifier::reject_recursive_types(T)]
pub struct ExPriorityQueue<S: PartialOrd, T>(PriorityQueue<S, T>);

/// What a `priq::PriorityQueue` of (score, item) pairs holds.
pub uninterp spec fn pq_contents(pq: PriorityQueue<i64, usize>) -> Multiset<(i64, usize)>;

/// Below this many entries the queue's backing array can always be allocated: `priq` panics
/// when the array it would grow to does not fit in half of the address space.
pub const PQ_LIMIT: usize = 0x400_0000;

/// Calls `priq::PriorityQueue::new`: the new queue holds nothing.
#[verifier::external_body]
pub(crate) fn pq_new() -> (pq: PriorityQueue<i64, usize>)
    ensures
        pq_contents(pq) =~= Multiset::empty(),
{
    PriorityQueue::new()
}

/// Calls `priq::PriorityQueue::with_capacity`: the new queue holds nothing. `priq` panics on
/// a capacity of zero and on one whose array does not fit in half of the address space.
#[verifier::external_body]
pub(crate) fn pq_with_capacity(cap: usize) -> (pq: PriorityQueue<i64, usize>)
    requires
        0 < cap < PQ_LIMIT,
    ensures
        pq_contents(pq) =~= Multiset::empty(),
{
    PriorityQueue::with_capacity(cap)
}

/// Calls `priq::PriorityQueue::put`: the pair is added to what the queue holds.
#[verifier::external_body]
pub(crate) fn pq_put(pq: &mut PriorityQueue<i64, usize>, score: i64, item: usize)
    requires
        pq_contents(*old(pq)).len() < PQ_LIMIT,
    ensures
        pq_contents(*final(pq)) =~= pq_contents(*old(pq)).insert((score, item)),
{
    pq.put(score, item)
}

/// Calls `priq::PriorityQueue::pop`: it takes out a pair of least score, or returns `None` when
/// the queue is empty. Which of several pairs of equal least score comes out is left open.
#[verifier::external_body]
pub(crate) fn pq_pop(pq: &mut PriorityQueue<i64, usize>) -> (r: Option<(i64, usize)>)
    ensures
        r is None <==> pq_contents(*old(pq)).len() == 0,
        r is None ==> pq_contents(*final(pq)) =~= pq_contents(*old(pq)),
        r matches Some(top) ==> {
            &&& pq_contents(*old(pq)).contains(top)
            &&& pq_contents(*final(pq)) =~= pq_contents(*old(pq)).remove(top)
            &&& forall|e: (i64, usize)| #[trigger] pq_contents(*old(pq)).contains(e) ==> top.0 <= e.0
        },
{
    pq.pop()
}

} // verus!
