use vstd::prelude::*;
use crate::error::FigError;
use crate::json::Json;
use super::prune::{PruneRule, prune, prune_json};

verus! {

/// Removes `symbolID` entries whose value is an object holding only
/// `localID` and/or `sessionID`, except below a `symbolData` key, where the
/// `symbolID` links an instance to its component master.
pub fn remove_symbol_id_fields(tree: &mut Json) -> (r: Result<(), FigError>)
    ensures
        r is Ok,
        final(tree)@ == prune(PruneRule::SymbolIds, false, old(tree)@),
{
    let pruned = prune_json(PruneRule::SymbolIds, false, tree);
    *tree = pruned;
    Ok(())
}

} // verus!
