//! Flat-array tree nodes.

use crate::scalar::Scalar;
use vstd::prelude::*;

verus! {

/// A node of the flat node array, laid out in preorder: the left subtree of a
/// node follows it at once, the right subtree follows the left one.
///
/// The top bit of `split_dim` marks a node both of whose children shrank along
/// every other axis, the sign of points that cluster on a low-dimensional
/// manifold. There the split plane says little about proximity, and queries
/// order and prune the children by their tight boxes instead. Build an inner
/// node with [`Node::inner`] and read its `split_dim` with [`unpack_split`].
#[derive(Clone, Copy)]
pub enum Node<S> {
    Leaf { start: u32, end: u32 },
    Inner { left: u32, right: u32, split_dim: u32, split_value: S },
}

/// The flag bit of `split_dim`.
const ORDER_BY_BOX: u32 = 0x8000_0000;

/// The axis and the flag that `split_dim` packs.
pub open spec fn unpack_split_spec(split_dim: u32) -> (usize, bool) {
    if split_dim >= 0x8000_0000 {
        ((split_dim - 0x8000_0000) as usize, true)
    } else {
        (split_dim as usize, false)
    }
}

impl<S: Scalar> Node<S> {
    /// An inner node that splits along axis `split_dim` at `split_value`.
    pub fn inner(
        left: u32,
        right: u32,
        split_dim: usize,
        order_by_box: bool,
        split_value: S,
    ) -> (r: Self)
        requires
            split_dim < 0x8000_0000,
        ensures
            r matches Node::Inner { left: l, right: rt, split_dim: d, split_value: v } && l == left
                && rt == right && v == split_value && unpack_split_spec(d) == (
                split_dim,
                order_by_box,
            ),
    {
        let axis: u32 = split_dim as u32;
        assert(axis < 0x8000_0000u32 ==> (axis | 0x8000_0000u32) == axis + 0x8000_0000u32)
            by (bit_vector);
        assert(axis | 0u32 == axis) by (bit_vector);
        Node::Inner {
            left,
            right,
            split_dim: axis | if order_by_box {
                ORDER_BY_BOX
            } else {
                0
            },
            split_value,
        }
    }
}

/// The axis and the flag of a packed `split_dim`.
pub fn unpack_split(split_dim: u32) -> (r: (usize, bool))
    ensures
        r == unpack_split_spec(split_dim),
{
    assert(split_dim >= 0x8000_0000u32 ==> (split_dim & !0x8000_0000u32) == split_dim
        - 0x8000_0000u32) by (bit_vector);
    assert(split_dim < 0x8000_0000u32 ==> (split_dim & !0x8000_0000u32) == split_dim)
        by (bit_vector);
    assert((split_dim & 0x8000_0000u32 != 0) == (split_dim >= 0x8000_0000u32)) by (bit_vector);
    ((split_dim & !ORDER_BY_BOX) as usize, split_dim & ORDER_BY_BOX != 0)
}

} // verus!
