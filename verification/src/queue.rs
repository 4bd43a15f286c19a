//! The queue of the shortest-path searches: node slots, each with a
//! priority, the greatest priority first.
//!
//! The queue is a `priority_queue::PriorityQueue`. Verus does not look inside
//! it: the functions below state what its methods do, and those statements
//! are taken on trust.

use priority_queue::PriorityQueue;
use std::hash::Hash;
use vstd::prelude::*;

verus! {

/// `priority_queue::PriorityQueue`, as a type that Verus carries through
/// without looking inside.
#[verifier::external_type_specification]
#[verifier::external_body]
#[verifier::reject_recursive_types(I)]
#[verifier::reject_recursive_types(P)]
#[verifier::reject_recursive_types(H)]
pub struct ExPriorityQueue<I: Hash + Eq, P: Ord, H>(PriorityQueue<I, P, H>);

/// The items of a queue, each with its priority.
pub uninterp spec fn queue_entries(q: PriorityQueue<usize, u128>) -> Map<usize, u128>;

/// `PriorityQueue::new`: a queue without items.
#[verifier::external_body]
pub(crate) fn queue_new() -> (fresh: PriorityQueue<usize, u128>)
    ensures
        queue_entries(fresh).dom() == Set::<usize>::empty(),
{
    PriorityQueue::new()
}

/// `PriorityQueue::push`: the item is in the queue with the given priority,
/// whether or not it was there before; the other items keep theirs.
#[verifier::external_body]
pub(crate) fn queue_push(q: &mut PriorityQueue<usize, u128>, item: usize, priority: u128)
    ensures
        queue_entries(*final(q)) == queue_entries(*old(q)).insert(item, priority),
{
    q.push(item, priority);
}

/// `PriorityQueue::pop`: `None` and no change where the queue has no item;
/// else an item leaves that no other item exceeds in priority, and comes
/// back with its priority.
#[verifier::external_body]
pub(crate) fn queue_pop(q: &mut PriorityQueue<usize, u128>) -> (r: Option<(usize, u128)>)
    ensures
        match r {
            None => queue_entries(*old(q)).dom() == Set::<usize>::empty() && queue_entries(
                *final(q),
            ) == queue_entries(*old(q)),
            Some((item, priority)) => {
                &&& queue_entries(*old(q)).contains_key(item)
                &&& queue_entries(*old(q))[item] == priority
                &&& queue_entries(*final(q)) == queue_entries(*old(q)).remove(item)
                &&& forall|other: usize| #[trigger]
                    queue_entries(*old(q)).contains_key(other) ==> queue_entries(*old(q))[other]
                        <= priority
            },
        },
{
    q.pop()
}

} // verus!
