pub mod renumbering;
pub mod renumbering_laws;

use vstd::prelude::*;

use crate::cell_card::{CellCard, CellCardView};
use crate::data_card::DataCard;
use crate::surface_card::SurfaceCard;

verus! {

/// The cards of an input deck that carry identifiers.
#[derive(Debug, PartialEq, Clone)]
pub struct Model {
    pub cells: Vec<CellCard>,
    pub surfaces: Vec<SurfaceCard>,
    pub data_cards: Vec<DataCard>,
}

/// A model as values.
#[verifier::ext_equal]
pub struct ModelView {
    pub cells: Seq<CellCardView>,
    pub surfaces: Seq<SurfaceCard>,
    pub data_cards: Seq<DataCard>,
}

impl View for Model {
    type V = ModelView;

    open spec fn view(&self) -> ModelView {
        ModelView {
            cells: self.cells@.map_values(|c: CellCard| c@),
            surfaces: self.surfaces@,
            data_cards: self.data_cards@,
        }
    }
}

} // verus!
