//! Max-priority queues of the `priority_queue` crate, seen through the map
//! from each queued item to its priority.
use priority_queue::PriorityQueue;
use std::hash::Hash;
use vstd::prelude::*;

verus! {

#[verifier::external_type_specification]
#[verifier::external_body]
#[verifier::reject_recursive_types(I)]
#[verifier::reject_recursive_types(P)]
pub struct ExPriorityQueue<I: Hash + Eq, P: Ord>(PriorityQueue<I, P>);

/// Lexicographic order of pairs, the order std gives tuples.
pub open spec fn pair_le(a: (u64, u64), b: (u64, u64)) -> bool {
    a.0 < b.0 || (a.0 == b.0 && a.1 <= b.1)
}

/// Queue of robots.
pub type RobotQueue = PriorityQueue<usize, (u64, u64)>;

/// The items of a robot queue with their priorities.
pub uninterp spec fn robot_queue_items(q: RobotQueue) -> Map<usize, (u64, u64)>;

/// Relies on `PriorityQueue::new`: a new queue holds no item.
#[verifier::external_body]
pub(crate) fn robot_queue_new() -> (q: RobotQueue)
    ensures
        robot_queue_items(q).dom() == Set::<usize>::empty(),
{
    PriorityQueue::new()
}

/// Relies on `PriorityQueue::push`: the item is queued with the priority,
/// which replaces the priority of an equal item already queued.
#[verifier::external_body]
pub(crate) fn robot_queue_push(q: &mut RobotQueue, item: usize, priority: (u64, u64))
    ensures
        robot_queue_items(*final(q)) == robot_queue_items(*old(q)).insert(item, priority),
{
    q.push(item, priority);
}

/// Relies on `PriorityQueue::peek`: an item of greatest priority, left in
/// the queue; nothing for an empty queue.
#[verifier::external_body]
pub(crate) fn robot_queue_peek(q: &RobotQueue) -> (r: Option<(usize, (u64, u64))>)
    ensures
        r is None <==> robot_queue_items(*q).dom() == Set::<usize>::empty(),
        r matches Some((item, p)) ==> {
            &&& robot_queue_items(*q).contains_key(item)
            &&& robot_queue_items(*q)[item] == p
            &&& forall|j: usize|
                #[trigger] robot_queue_items(*q).contains_key(j) ==> pair_le(robot_queue_items(*q)[j], p)
        },
{
    q.peek().map(|(i, p)| (*i, *p))
}

/// Relies on `PriorityQueue::change_priority`: a queued item takes the new
/// priority; the queue is unchanged when the item is not queued.
#[verifier::external_body]
pub(crate) fn robot_queue_change_priority(q: &mut RobotQueue, item: usize, priority: (u64, u64))
    ensures
        robot_queue_items(*old(q)).contains_key(item) ==> robot_queue_items(*final(q))
            == robot_queue_items(*old(q)).insert(item, priority),
        !robot_queue_items(*old(q)).contains_key(item) ==> robot_queue_items(*final(q))
            == robot_queue_items(*old(q)),
{
    q.change_priority(&item, priority);
}

} // verus!
