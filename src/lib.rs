//! Indexed sequence containers backed by rank-augmented binary trees.
//!
//! Both containers store, in every node, the number of elements of its left
//! subtree, which turns a position in the tree into an index in the sequence.
//! `RecursiveTreeList` keeps its tree balanced as a left-leaning red-black
//! tree; `TreeList` does no rebalancing at all. Both describe every operation
//! by its effect on the sequence of elements (their view), in the same terms
//! as `Vec`'s specification does.
pub mod recursive_tree_list;
pub mod tree_list;

use vstd::prelude::*;

use crate::recursive_tree_list::RecursiveTreeList;
use crate::tree_list::TreeList;

verus! {

/// The balanced list, the plain list and a `Vec` that hold the same elements
/// go on holding the same elements after the same positional operation on
/// each, and read the same element at every index.
pub proof fn lemma_lists_agree<T>(
    balanced: &RecursiveTreeList<T>,
    plain: &TreeList<T>,
    array: &Vec<T>,
    index: usize,
    v: T,
)
    requires
        balanced@ == array@,
        plain@ == array@,
        index <= array@.len(),
    ensures
        balanced@.insert(index as int, v) == plain@.insert(index as int, v),
        plain@.insert(index as int, v) == array@.insert(index as int, v),
        index < array@.len() ==> balanced@.remove(index as int) == array@.remove(index as int),
        index < array@.len() ==> plain@.remove(index as int) == array@.remove(index as int),
        balanced@.push(v) == array@.push(v),
        plain@.push(v) == array@.push(v),
        index < array@.len() ==> balanced@[index as int] == array@[index as int],
        index < array@.len() ==> plain@[index as int] == array@[index as int],
{
}

} // verus!
