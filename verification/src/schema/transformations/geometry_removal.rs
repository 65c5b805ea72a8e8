use vstd::prelude::*;
use crate::error::FigError;
use crate::json::Json;
use super::prune::{PruneRule, prune, prune_json};

verus! {

/// Removes `fillGeometry`, `strokeGeometry`, `windingRule` and `styleID`
/// from every object, except from icons and images and from anything below
/// a `derivedSymbolData` key.
///
/// A node is an icon or image when its own `name` starts with `icon/` or
/// `arrows/`, or when some entry of `symbolData.symbolOverrides` has an
/// `exportSettings` entry with an `imageType`. Only the node's own fields
/// are exempt: its descendants are judged on their own.
pub fn remove_geometry_fields(tree: &mut Json) -> (r: Result<(), FigError>)
    ensures
        r is Ok,
        final(tree)@ == prune(PruneRule::Geometry, false, old(tree)@),
{
    let pruned = prune_json(PruneRule::Geometry, false, tree);
    *tree = pruned;
    Ok(())
}

} // verus!
