use vstd::prelude::*;

use crate::parser_utils::spanned::{Span, Spanned};

verus! {

/// A material card (`Mn`).
#[derive(Debug, PartialEq, Clone)]
pub struct MaterialCard {
    pub material_id: Spanned<u32>,
}

/// A transformation card (`TRn` or `*TRn`).
#[derive(Debug, PartialEq, Clone)]
pub struct TransformCard {
    pub transform_id: Spanned<u32>,
}

/// A card of the data block.
#[derive(Debug, PartialEq, Clone)]
pub enum DataCard {
    Material(MaterialCard),
    Transform(TransformCard),
    /// Any other data card, kept as its source text.
    Other(Span),
}

} // verus!
