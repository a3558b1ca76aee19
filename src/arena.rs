//! The node store: an arena of the `generational_arena` crate, seen through
//! the map from raw index parts to the records it holds.
use vstd::prelude::*;
use generational_arena::{Arena, Index};
use crate::forest::NodeContent;

verus! {

/// `generational_arena::Arena`, held opaque: what it holds is seen through
/// `arena_contents`.
#[verifier::external_type_specification]
#[verifier::external_body]
#[verifier::reject_recursive_types(T)]
pub struct ExArena<T>(Arena<T>);

/// The records an arena holds, keyed by the raw parts (slot, generation) of
/// their indices.
pub uninterp spec fn arena_contents(a: Arena<NodeContent>) -> Map<(usize, u64), NodeContent>;

/// Relies on `Arena::new`: a new arena holds nothing.
#[verifier::external_body]
pub(crate) fn arena_new() -> (r: Arena<NodeContent>)
    ensures
        arena_contents(r).dom().is_empty(),
{
    Arena::new()
}

/// Relies on `Arena::insert`: the value is stored under an index that was
/// not in use, and every other entry stays as it was.
#[verifier::external_body]
pub(crate) fn arena_insert(a: &mut Arena<NodeContent>, v: NodeContent) -> (r: (usize, u64))
    ensures
        !arena_contents(*old(a)).contains_key(r),
        arena_contents(*final(a)) == arena_contents(*old(a)).insert(r, v),
{
    a.insert(v).into_raw_parts()
}

/// Relies on `Arena::get`: the entry under the index, if there is one.
#[verifier::external_body]
pub(crate) fn arena_get(a: &Arena<NodeContent>, k: (usize, u64)) -> (r: Option<&NodeContent>)
    ensures
        match r {
            Some(x) => arena_contents(*a).contains_key(k) && *x == arena_contents(*a)[k],
            None => !arena_contents(*a).contains_key(k),
        },
{
    a.get(Index::from_raw_parts(k.0, k.1))
}

/// Relies on `Arena::get_mut`: a mutable borrow of the entry under the
/// index; what is written through it becomes that entry.
#[verifier::external_body]
pub(crate) fn arena_get_mut(a: &mut Arena<NodeContent>, k: (usize, u64)) -> (r: Option<&mut NodeContent>)
    ensures
        match r {
            Some(x) => arena_contents(*old(a)).contains_key(k) && *x == arena_contents(*old(a))[k]
                && arena_contents(*final(a)) == arena_contents(*old(a)).insert(k, *final(x)),
            None => !arena_contents(*old(a)).contains_key(k) && arena_contents(*final(a)) == arena_contents(*old(a)),
        },
{
    a.get_mut(Index::from_raw_parts(k.0, k.1))
}

/// Relies on `Arena::len`: the number of entries held.
#[verifier::external_body]
pub(crate) fn arena_len(a: &Arena<NodeContent>) -> (r: usize)
    ensures
        r == arena_contents(*a).len(),
{
    a.len()
}

} // verus!
