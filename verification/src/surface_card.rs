use vstd::prelude::*;

use crate::parser_utils::spanned::Spanned;

verus! {

/// A surface card: its number and the transformation applied to it, if any.
#[derive(Debug, PartialEq, Clone)]
pub struct SurfaceCard {
    pub surface_id: Spanned<u32>,
    pub transform_id: Option<Spanned<u32>>,
}

} // verus!
