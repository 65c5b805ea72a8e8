use vstd::prelude::*;
use crate::error::FigError;
use crate::json::Json;
use super::prune::{PruneRule, prune, prune_json};

verus! {

/// Removes `targetAspectRatio` from every object of the document.
///
/// `frameMaskDisabled` is kept: pixel renderers use it to decide whether a
/// frame clips its descendants.
pub fn remove_frame_properties(tree: &mut Json) -> (r: Result<(), FigError>)
    ensures
        r is Ok,
        final(tree)@ == prune(PruneRule::FrameProperties, false, old(tree)@),
{
    let pruned = prune_json(PruneRule::FrameProperties, false, tree);
    *tree = pruned;
    Ok(())
}

} // verus!
