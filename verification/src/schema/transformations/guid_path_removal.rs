use vstd::prelude::*;
use crate::error::FigError;
use crate::json::Json;
use super::prune::{PruneRule, prune, prune_json};

verus! {

/// Removes `guidPath` from every object, except below `derivedSymbolData`
/// and `symbolOverrides` keys, where renderers follow those paths to find
/// the overridden descendants of a component master.
pub fn remove_guid_paths(tree: &mut Json) -> (r: Result<(), FigError>)
    ensures
        r is Ok,
        final(tree)@ == prune(PruneRule::GuidPaths, false, old(tree)@),
{
    let pruned = prune_json(PruneRule::GuidPaths, false, tree);
    *tree = pruned;
    Ok(())
}

} // verus!
