use vstd::prelude::*;
use vstd::multiset::Multiset;
use crate::project::Project;
use crossbeam::queue::SegQueue;

verus! {

/// crossbeam's lock-free unbounded queue, the concurrent bag the walker
/// publishes detected projects into.
#[verifier::external_type_specification]
#[verifier::external_body]
#[verifier::reject_recursive_types(T)]
pub struct ExSegQueue<T>(SegQueue<T>);

/// The bag of projects a queue currently holds. Producers push from many
/// threads, so no order is promised — only the collection of elements.
pub uninterp spec fn bag_of(q: SegQueue<Project>) -> Multiset<Project>;

/// Relies on crossbeam's SegQueue::new: a fresh queue is empty.
#[verifier::external_body]
pub(crate) fn new_project_bag() -> (q: SegQueue<Project>)
    ensures
        bag_of(q) == Multiset::<Project>::empty(),
{
    SegQueue::new()
}

/// Relies on crossbeam's SegQueue::push: adds the element to the queue.
#[verifier::external_body]
pub(crate) fn bag_push(q: &mut SegQueue<Project>, p: Project)
    ensures
        bag_of(*final(q)) == bag_of(*old(q)).insert(p),
{
    q.push(p);
}

/// Relies on crossbeam's SegQueue::pop: removes and returns an element of
/// the queue, or returns None exactly when the queue is empty.
#[verifier::external_body]
pub(crate) fn bag_pop(q: &mut SegQueue<Project>) -> (r: Option<Project>)
    ensures
        match r {
            Some(p) => bag_of(*old(q)).contains(p)
                && bag_of(*final(q)) == bag_of(*old(q)).remove(p),
            None => bag_of(*old(q)).len() == 0 && bag_of(*final(q)) == bag_of(*old(q)),
        },
{
    q.pop()
}

/// Relies on crossbeam's SegQueue::len: the number of elements in the
/// queue.
#[verifier::external_body]
pub(crate) fn bag_len(q: &SegQueue<Project>) -> (r: usize)
    ensures
        r == bag_of(*q).len(),
{
    q.len()
}

} // verus!
