use crate::proc::PId;
use indexmap::IndexSet;
use priority_queue::PriorityQueue;
use std::cmp::Reverse;
use vstd::prelude::*;

verus! {

#[verifier::external_type_specification]
#[verifier::external_body]
#[verifier::reject_recursive_types(I)]
#[verifier::reject_recursive_types(P)]
#[verifier::reject_recursive_types(H)]
pub struct ExPriorityQueue<I, P, H>(PriorityQueue<I, P, H>);

#[verifier::external_type_specification]
#[verifier::external_body]
#[verifier::reject_recursive_types(T)]
pub struct ExReverse<T>(Reverse<T>);

#[verifier::external_type_specification]
#[verifier::external_body]
#[verifier::reject_recursive_types(T)]
#[verifier::reject_recursive_types(S)]
pub struct ExIndexSet<T, S>(IndexSet<T, S>);

/// A queue of identifiers by key, smallest key first.
pub type KeyedQueue = PriorityQueue<PId, Reverse<u64>>;

/// What a ready queue holds: each identifier with its key, smallest key first out.
pub uninterp spec fn queue_keys(q: KeyedQueue) -> Map<PId, u64>;

/// What an insertion-ordered set holds, oldest first.
pub uninterp spec fn set_items(s: IndexSet<PId>) -> Seq<PId>;

/// Relies on `PriorityQueue::new`: the queue starts empty.
#[verifier::external_body]
pub(crate) fn queue_new() -> (r: KeyedQueue)
    ensures
        forall|p: PId| !(#[trigger] queue_keys(r).contains_key(p)),
{
    PriorityQueue::new()
}

/// Relies on `PriorityQueue::push`: an identifier already present gets the new
/// key, otherwise it is added with it.
#[verifier::external_body]
pub(crate) fn queue_push(q: &mut KeyedQueue, pid: PId, key: u64)
    ensures
        queue_keys(*final(q)) == queue_keys(*old(q)).insert(pid, key),
{
    q.push(pid, Reverse(key));
}

/// Relies on `PriorityQueue::pop`: it removes an entry of greatest priority,
/// that is of smallest key under `Reverse`.
#[verifier::external_body]
pub(crate) fn queue_pop(q: &mut KeyedQueue) -> (r: Option<(PId, u64)>)
    ensures
        match r {
            None => (forall|p: PId| !(#[trigger] queue_keys(*old(q)).contains_key(p))) && queue_keys(*final(q)) == queue_keys(
                *old(q),
            ),
            Some((pid, key)) => {
                &&& queue_keys(*old(q)).contains_key(pid)
                &&& queue_keys(*old(q))[pid] == key
                &&& forall|p: PId| #[trigger]
                    queue_keys(*old(q)).contains_key(p) ==> key <= queue_keys(*old(q))[p]
                &&& queue_keys(*final(q)) == queue_keys(*old(q)).remove(pid)
            },
        },
{
    q.pop().map(|(i, p)| (i, p.0))
}

/// Relies on `PriorityQueue::peek`: an entry of smallest key, left in place.
#[verifier::external_body]
pub(crate) fn queue_peek(q: &KeyedQueue) -> (r: Option<(PId, u64)>)
    ensures
        match r {
            None => forall|p: PId| !(#[trigger] queue_keys(*q).contains_key(p)),
            Some((pid, key)) => {
                &&& queue_keys(*q).contains_key(pid)
                &&& queue_keys(*q)[pid] == key
                &&& forall|p: PId| #[trigger]
                    queue_keys(*q).contains_key(p) ==> key <= queue_keys(*q)[p]
            },
        },
{
    q.peek().map(|(i, p)| (*i, p.0))
}

/// Relies on `IndexSet::new`: the set starts empty.
#[verifier::external_body]
pub(crate) fn set_new() -> (r: IndexSet<PId>)
    ensures
        set_items(r).len() == 0,
{
    IndexSet::new()
}

/// Relies on `IndexSet::insert`: a new item goes last, one already present
/// keeps its place; a set holds no item twice.
#[verifier::external_body]
pub(crate) fn set_insert(s: &mut IndexSet<PId>, pid: PId) -> (r: bool)
    ensures
        r == !set_items(*old(s)).contains(pid),
        r ==> set_items(*final(s)) == set_items(*old(s)).push(pid),
        !r ==> set_items(*final(s)) == set_items(*old(s)),
        set_items(*final(s)).no_duplicates(),
{
    s.insert(pid)
}

/// Relies on `IndexSet::shift_remove`: the item is taken out and the others
/// keep their order.
#[verifier::external_body]
pub(crate) fn set_remove(s: &mut IndexSet<PId>, pid: PId) -> (r: bool)
    ensures
        r == set_items(*old(s)).contains(pid),
        set_items(*final(s)) == set_items(*old(s)).remove_value(pid),
        set_items(*final(s)).no_duplicates(),
{
    s.shift_remove(&pid)
}

/// Relies on `IndexSet::shift_remove_index` at index 0: the oldest item is
/// taken out and the others keep their order.
#[verifier::external_body]
pub(crate) fn set_pop_first(s: &mut IndexSet<PId>) -> (r: Option<PId>)
    ensures
        set_items(*old(s)).len() == 0 ==> r is None && set_items(*final(s)) == set_items(*old(s)),
        set_items(*old(s)).len() > 0 ==> r == Some(set_items(*old(s))[0]) && set_items(*final(s))
            == set_items(*old(s)).drop_first(),
        set_items(*final(s)).no_duplicates(),
        set_items(*old(s)).no_duplicates(),
{
    s.shift_remove_index(0)
}

/// Relies on `IndexSet::is_empty`.
#[verifier::external_body]
pub(crate) fn set_is_empty(s: &IndexSet<PId>) -> (r: bool)
    ensures
        r == (set_items(*s).len() == 0),
{
    s.is_empty()
}

/// Relies on `IndexSet::contains`.
#[verifier::external_body]
pub(crate) fn set_contains(s: &IndexSet<PId>, pid: PId) -> (r: bool)
    ensures
        r == set_items(*s).contains(pid),
{
    s.contains(&pid)
}

} // verus!
