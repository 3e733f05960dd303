use vstd::prelude::*;
use priority_queue::PriorityQueue;
use crate::key::NodeKey;

verus! {

#[verifier::external_type_specification]
#[verifier::external_body]
#[verifier::reject_recursive_types(I)]
#[verifier::reject_recursive_types(P)]
#[verifier::reject_recursive_types(H)]
pub struct ExPriorityQueue<I, P, H>(PriorityQueue<I, P, H>);

/// The queue of nodes and priorities used by the graph searches.
pub type NodeQueue = PriorityQueue<NodeKey, u64>;

/// What a queue holds: each item with its priority.
pub uninterp spec fn queue_items(q: PriorityQueue<NodeKey, u64>) -> Map<NodeKey, u64>;

/// `PriorityQueue::new`: an empty queue.
#[verifier::external_body]
pub(crate) fn queue_new() -> (r: NodeQueue)
    ensures
        queue_items(r).dom().is_empty(),
        queue_items(r).dom().finite(),
{
    PriorityQueue::new()
}

/// `PriorityQueue::push`: the item now has the given priority; the old priority
/// is handed back when the item was already there.
#[verifier::external_body]
pub(crate) fn queue_push(q: &mut NodeQueue, item: NodeKey, priority: u64) -> (r: Option<u64>)
    ensures
        queue_items(*final(q)) == queue_items(*old(q)).insert(item, priority),
        queue_items(*final(q)).dom().finite(),
        r == (if queue_items(*old(q)).dom().contains(item) {
            Some(queue_items(*old(q))[item])
        } else {
            None::<u64>
        }),
{
    q.push(item, priority)
}

/// `PriorityQueue::pop`: removes an item of greatest priority (which one, among
/// equal priorities, the source leaves open), or hands back `None` when empty.
#[verifier::external_body]
pub(crate) fn queue_pop(q: &mut NodeQueue) -> (r: Option<(NodeKey, u64)>)
    ensures
        queue_items(*final(q)).dom().finite(),
        match r {
            Some((k, p)) => {
                &&& queue_items(*old(q)).dom().contains(k)
                &&& queue_items(*old(q))[k] == p
                &&& forall|j: NodeKey| #[trigger]
                    queue_items(*old(q)).dom().contains(j) ==> queue_items(*old(q))[j] <= p
                &&& queue_items(*final(q)) == queue_items(*old(q)).remove(k)
            },
            None => {
                &&& queue_items(*old(q)).dom().is_empty()
                &&& queue_items(*final(q)) == queue_items(*old(q))
            },
        },
{
    q.pop()
}

/// `PriorityQueue::peek`: an item of greatest priority, or `None` when empty.
#[verifier::external_body]
pub(crate) fn queue_peek(q: &NodeQueue) -> (r: Option<(NodeKey, u64)>)
    ensures
        match r {
            Some((k, p)) => {
                &&& queue_items(*q).dom().contains(k)
                &&& queue_items(*q)[k] == p
                &&& forall|j: NodeKey| #[trigger]
                    queue_items(*q).dom().contains(j) ==> queue_items(*q)[j] <= p
            },
            None => queue_items(*q).dom().is_empty(),
        },
{
    q.peek().map(|(k, p)| (*k, *p))
}

/// `PriorityQueue::len`: the number of items.
#[verifier::external_body]
pub(crate) fn queue_len(q: &NodeQueue) -> (r: usize)
    ensures
        r == queue_items(*q).len(),
{
    q.len()
}

/// `PriorityQueue::iter`: every item with its priority, each once, in an order
/// that the source leaves open.
#[verifier::external_body]
pub(crate) fn queue_entries(q: &NodeQueue) -> (r: Vec<(NodeKey, u64)>)
    ensures
        r.len() == queue_items(*q).len(),
        forall|i: int, j: int| 0 <= i < r.len() && 0 <= j < r.len() && i != j ==> r@[i].0 != r@[j].0,
        forall|i: int| 0 <= i < r.len() ==> #[trigger] queue_items(*q).dom().contains(r@[i].0)
            && queue_items(*q)[r@[i].0] == r@[i].1,
        forall|k: NodeKey| #[trigger] queue_items(*q).dom().contains(k) ==> exists|i: int|
            0 <= i < r.len() && r@[i].0 == k,
{
    q.iter().map(|(k, p)| (*k, *p)).collect()
}

} // verus!
