//! The reference policy of the legality gate.

use vstd::prelude::*;
use vstd::string::*;
use crate::block::Block;

verus! {

/// The two blocks have the same parent: both heads name the same node as
/// their parent, or neither has one.
pub open spec fn same_scope(src: Block, dst: Block) -> bool {
    src.spec_head().parent == dst.spec_head().parent
}

/// Allows a move within one enclosing scope only.
pub fn assert_move_legal_fn(src_block: &Block, dst_block: &Block) -> (verdict: Result<(), String>)
    ensures
        verdict is Ok <==> same_scope(*src_block, *dst_block),
        verdict matches Err(reason) ==> reason@ == "Can't move block to different scope"@,
{
    let same = match (src_block.head().parent, dst_block.head().parent) {
        (Some(a), Some(b)) => a == b,
        (None, None) => true,
        _ => false,
    };
    if same {
        Ok(())
    } else {
        Err("Can't move block to different scope".to_owned())
    }
}

} // verus!
