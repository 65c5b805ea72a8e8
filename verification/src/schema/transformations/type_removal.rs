use vstd::prelude::*;
use crate::error::FigError;
use crate::json::Json;
use super::prune::{PruneRule, prune, prune_json};

verus! {

/// Removes the node `type` field from every object, except below
/// `fillPaints`, `strokePaints` and `effects` keys, whose paint and effect
/// kinds cannot be inferred from the other fields.
pub fn remove_type(tree: &mut Json) -> (r: Result<(), FigError>)
    ensures
        r is Ok,
        final(tree)@ == prune(PruneRule::NodeType, false, old(tree)@),
{
    let pruned = prune_json(PruneRule::NodeType, false, tree);
    *tree = pruned;
    Ok(())
}

} // verus!
