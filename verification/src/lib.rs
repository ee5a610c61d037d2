//! Byte-level parsing helpers for MCNP input decks and the renumbering of the
//! identifiers that cards carry (cells, surfaces, materials, transformations
//! and universes).

pub mod cell_card;
pub mod data_card;
pub mod model;
pub mod parser_utils;
pub mod surface_card;

pub use cell_card::FillData;
pub use data_card::DataCard;
pub use model::Model;
