use vstd::prelude::*;

use crate::parser_utils::spanned::{Span, Spanned};

verus! {

/// One element of a cell's geometry description.
#[derive(Debug, PartialEq, Clone)]
pub enum GeoElementSpanned {
    /// A signed surface number: the sense (negative or positive side) and
    /// the surface.
    Surface(Spanned<i32>),
    /// `#n`: the complement of cell `n`.
    Cell(Spanned<u32>),
    /// `:`, the union of the regions on either side.
    Union,
    /// `#` before a parenthesised region: its complement.
    Complement,
    /// `(`
    LeftParen,
    /// `)`
    RightParen,
}

/// The value of a `FILL` parameter: the universe that fills the cell and,
/// optionally, the transformation applied to it.
#[derive(Debug, PartialEq, Clone)]
pub struct FillData {
    pub universe: u32,
    pub transform: Option<u32>,
}

/// The kind and value of a cell parameter.
#[derive(Debug, PartialEq, Clone)]
pub enum ParamType {
    /// `U=n`: the universe the cell belongs to.
    U(u32),
    /// `FILL=u` or `FILL=u (t)`.
    Fill(FillData),
    /// Any other parameter (importances, volumes, ...), kept as its source text.
    Other,
}

/// A cell parameter and the span of its source text.
#[derive(Debug, PartialEq, Clone)]
pub struct Param {
    pub param_type: ParamType,
    pub span: Span,
}

/// A cell card: its number, its material, its geometry and its parameters.
#[derive(Debug, PartialEq, Clone)]
pub struct CellCard {
    pub cell_id: Spanned<u32>,
    pub material_id: Spanned<u32>,
    pub geometry: Vec<GeoElementSpanned>,
    pub params: Vec<Param>,
}

/// A cell card as values: its geometry and parameters as sequences.
#[verifier::ext_equal]
pub struct CellCardView {
    pub cell_id: Spanned<u32>,
    pub material_id: Spanned<u32>,
    pub geometry: Seq<GeoElementSpanned>,
    pub params: Seq<Param>,
}

impl View for CellCard {
    type V = CellCardView;

    open spec fn view(&self) -> CellCardView {
        CellCardView {
            cell_id: self.cell_id,
            material_id: self.material_id,
            geometry: self.geometry@,
            params: self.params@,
        }
    }
}

} // verus!
