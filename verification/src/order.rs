//! The order of a folder's children: larger first, then by id.
use crate::model::{range_of, Id, Node};
use std::cmp::Ordering;
use vstd::prelude::*;

verus! {

/// Child `a` comes before child `b`: it is larger, or as large with a smaller id.
pub open spec fn comes_before(nodes: Seq<Node>, a: Id, b: Id) -> bool {
    nodes[a as int].bytes > nodes[b as int].bytes || (nodes[a as int].bytes == nodes[b as int].bytes
        && a < b)
}

/// `ids[lo..hi]` never puts a child after one that comes before it.
pub open spec fn sorted_by_size(nodes: Seq<Node>, ids: Seq<Id>) -> bool {
    forall|x: int, y: int|
        0 <= x < y < ids.len() ==> !comes_before(nodes, #[trigger] ids[y], #[trigger] ids[x])
}

/// Compares two children of a folder in display order.
pub fn child_order(nodes: &Vec<Node>, a: Id, b: Id) -> (r: Ordering)
    requires
        a < nodes@.len(),
        b < nodes@.len(),
    ensures
        (r == Ordering::Less) == comes_before(nodes@, a, b),
        (r == Ordering::Greater) == comes_before(nodes@, b, a),
        (r == Ordering::Equal) == (a == b),
{
    let x = crate::model::bytes_of(nodes, a);
    let y = crate::model::bytes_of(nodes, b);
    if x > y {
        Ordering::Less
    } else if x < y {
        Ordering::Greater
    } else if a < b {
        Ordering::Less
    } else if a > b {
        Ordering::Greater
    } else {
        Ordering::Equal
    }
}

/// Sorts `v[start..end]` into display order with `<[T]>::sort_unstable_by`.
#[verifier::external_body]
pub(crate) fn sort_by_size(v: &mut Vec<Id>, start: usize, end: usize, nodes: &Vec<Node>)
    requires
        start <= end <= old(v)@.len(),
        forall|k: int| start <= k < end ==> #[trigger] old(v)@[k] < nodes@.len(),
    ensures
        final(v)@.len() == old(v)@.len(),
        forall|k: int|
            0 <= k < old(v)@.len() && !(start <= k < end) ==> #[trigger] final(v)@[k] == old(v)@[k],
        range_of(final(v)@, start, end).to_multiset() == range_of(old(v)@, start, end).to_multiset(),
        sorted_by_size(nodes@, range_of(final(v)@, start, end)),
{
    v[start..end].sort_unstable_by(|a, b| child_order(nodes, *a, *b));
}

} // verus!
