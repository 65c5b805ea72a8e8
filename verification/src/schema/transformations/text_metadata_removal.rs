use vstd::prelude::*;
use crate::error::FigError;
use crate::json::Json;
use super::prune::{PruneRule, prune, prune_json};

verus! {

/// Removes the text configuration fields (`textBidiVersion`,
/// `textExplicitLayoutVersion`, `textUserLayoutVersion`,
/// `textDecorationSkipInk`, the `fontVariant*` fields, `fontVariations`,
/// `fontVersion`, `emojiImageSet`, `autoRename`, `textTracking`) from every
/// object. `textAlignVertical` and `textAutoResize` are kept.
pub fn remove_text_metadata_fields(tree: &mut Json) -> (r: Result<(), FigError>)
    ensures
        r is Ok,
        final(tree)@ == prune(PruneRule::TextMetadata, false, old(tree)@),
{
    let pruned = prune_json(PruneRule::TextMetadata, false, tree);
    *tree = pruned;
    Ok(())
}

} // verus!
