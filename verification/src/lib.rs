//! A persistent ordered map kept in three files as a B-tree, with the paged file
//! buffer, the node cache and the priority queue that it is built from.

pub mod codec;
pub mod error;
pub mod file_buffer;
pub mod node;
pub mod order;
pub mod priority_queue;
pub mod storage;
pub mod test_tree;

pub use crate::node::NONE;
pub use crate::node::NUM_CHILDREN;
pub use crate::node::NUM_KEYS;
pub use crate::node::T;
pub use crate::node::T_USIZE;
pub use crate::test_tree::TestTree;
use vstd::prelude::*;

verus! {

/// `<[E]>::swap`, of the standard library: the two elements at the indices given
/// change places, and every other element stays. It panics on an index beyond
/// the slice, so both must lie within.
pub assume_specification<E>[ <[E]>::swap ](slice: &mut [E], a: usize, b: usize)
    requires
        a < old(slice)@.len(),
        b < old(slice)@.len(),
    ensures
        final(slice)@ == old(slice)@.update(a as int, old(slice)@[b as int]).update(
            b as int,
            old(slice)@[a as int],
        ),
;

} // verus!

