use std::ops::RangeInclusive;

use vstd::prelude::*;

use crate::cell_card::{CellCard, CellCardView, FillData, GeoElementSpanned, Param, ParamType};
use crate::data_card::{DataCard, MaterialCard, TransformCard};
use crate::model::{Model, ModelView};
use crate::parser_utils::spanned::Spanned;
use crate::surface_card::SurfaceCard;

verus! {

/// `x` lies in the inclusive range `r` (an exhausted range leaves out its end).
pub open spec fn in_id_range(r: RangeInclusive<u32>, x: u32) -> bool {
    &&& r@.start <= x
    &&& if r@.exhausted {
        x < r@.end
    } else {
        x <= r@.end
    }
}

/// `x` read as a two's complement 32-bit integer.
pub open spec fn as_signed(x: u32) -> int {
    if x > 0x7fff_ffff {
        x - 0x1_0000_0000
    } else {
        x as int
    }
}

/// Shifting `x` by `offset` stays within the range of `i32`: the identifier,
/// read as an `i32`, plus the offset does not overflow.
pub open spec fn shift_fits(x: u32, offset: i32) -> bool {
    i32::MIN <= as_signed(x) + offset <= i32::MAX
}

/// `x` shifted by `offset`: the identifier read as an `i32`, plus the offset,
/// read back as a `u32` (a negative result wraps around).
pub open spec fn shifted_id(x: u32, offset: i32) -> u32 {
    let t = as_signed(x) + offset;
    if t < 0 {
        (t + 0x1_0000_0000) as u32
    } else {
        t as u32
    }
}

/// The identifier `x` after renumbering the range `r` by `offset`.
pub open spec fn renumbered(r: RangeInclusive<u32>, offset: i32, x: u32) -> u32 {
    if in_id_range(r, x) {
        shifted_id(x, offset)
    } else {
        x
    }
}

/// Renumbering `x` does not overflow.
pub open spec fn renumber_fits(r: RangeInclusive<u32>, offset: i32, x: u32) -> bool {
    in_id_range(r, x) ==> shift_fits(x, offset)
}

/// A spanned identifier after renumbering: same span, renumbered value.
pub open spec fn renumbered_spanned(r: RangeInclusive<u32>, offset: i32, s: Spanned<u32>) -> Spanned<u32> {
    Spanned { value: renumbered(r, offset, s.value), span: s.span }
}

impl GeoElementSpanned {
    /// This element after renumbering cells: cell references change.
    pub open spec fn with_cells_renumbered(self, r: RangeInclusive<u32>, offset: i32) -> GeoElementSpanned {
        match self {
            GeoElementSpanned::Cell(c) => GeoElementSpanned::Cell(renumbered_spanned(r, offset, c)),
            _ => self,
        }
    }

    /// Renumbering cells in this element does not overflow.
    pub open spec fn cell_refs_fit(self, r: RangeInclusive<u32>, offset: i32) -> bool {
        self matches GeoElementSpanned::Cell(c) ==> renumber_fits(r, offset, c.value)
    }
}

impl CellCardView {
    /// This cell after renumbering cells: its number and the cells its
    /// geometry refers to change.
    pub open spec fn with_cells_renumbered(self, r: RangeInclusive<u32>, offset: i32) -> CellCardView {
        CellCardView {
            cell_id: renumbered_spanned(r, offset, self.cell_id),
            geometry: self.geometry.map_values(
                |g: GeoElementSpanned| g.with_cells_renumbered(r, offset),
            ),
            ..self
        }
    }

    /// Renumbering cells in this cell does not overflow.
    pub open spec fn cell_ids_fit(self, r: RangeInclusive<u32>, offset: i32) -> bool {
        &&& renumber_fits(r, offset, self.cell_id.value)
        &&& forall|j: int|
            0 <= j < self.geometry.len() ==> (#[trigger] self.geometry[j]).cell_refs_fit(r, offset)
    }
}

impl ModelView {
    /// The model after renumbering the cells in `r` by `offset`.
    pub open spec fn with_cells_renumbered(self, r: RangeInclusive<u32>, offset: i32) -> ModelView {
        ModelView {
            cells: self.cells.map_values(|c: CellCardView| c.with_cells_renumbered(r, offset)),
            ..self
        }
    }

    /// Renumbering the cells in `r` by `offset` does not overflow.
    pub open spec fn cell_ids_fit(self, r: RangeInclusive<u32>, offset: i32) -> bool {
        forall|i: int| 0 <= i < self.cells.len() ==> (#[trigger] self.cells[i]).cell_ids_fit(r, offset)
    }
}

/// The surface number of a signed surface reference.
pub open spec fn id_magnitude(v: i32) -> u32 {
    (if v < 0 {
        -v
    } else {
        v as int
    }) as u32
}

/// The sign of `v`: -1, 0 or 1.
pub open spec fn sign_of(v: i32) -> int {
    if v > 0 {
        1
    } else if v < 0 {
        -1
    } else {
        0
    }
}

/// Renumbering the signed surface reference `v` does not overflow: the
/// offset, carried to the side of the reference, and the sum both fit in an
/// `i32`.
pub open spec fn surface_ref_fits(r: RangeInclusive<u32>, offset: i32, v: i32) -> bool {
    in_id_range(r, id_magnitude(v)) ==> {
        &&& i32::MIN <= offset * sign_of(v) <= i32::MAX
        &&& i32::MIN <= v + offset * sign_of(v) <= i32::MAX
    }
}

/// The signed surface reference `v` after renumbering: its surface number
/// moves by `offset` and its sense is kept.
pub open spec fn renumbered_surface_ref(r: RangeInclusive<u32>, offset: i32, v: i32) -> i32 {
    if in_id_range(r, id_magnitude(v)) {
        (v + offset * sign_of(v)) as i32
    } else {
        v
    }
}

/// An optional spanned identifier after renumbering.
pub open spec fn renumbered_opt_spanned(
    r: RangeInclusive<u32>,
    offset: i32,
    s: Option<Spanned<u32>>,
) -> Option<Spanned<u32>> {
    match s {
        Some(t) => Some(renumbered_spanned(r, offset, t)),
        None => None,
    }
}

/// Renumbering an optional identifier does not overflow.
pub open spec fn opt_fits(r: RangeInclusive<u32>, offset: i32, s: Option<u32>) -> bool {
    s matches Some(t) ==> renumber_fits(r, offset, t)
}

/// An optional identifier after renumbering.
pub open spec fn renumbered_opt(r: RangeInclusive<u32>, offset: i32, s: Option<u32>) -> Option<u32> {
    match s {
        Some(t) => Some(renumbered(r, offset, t)),
        None => None,
    }
}

impl GeoElementSpanned {
    /// This element after renumbering surfaces: surface references change.
    pub open spec fn with_surfaces_renumbered(self, r: RangeInclusive<u32>, offset: i32) -> GeoElementSpanned {
        match self {
            GeoElementSpanned::Surface(s) => GeoElementSpanned::Surface(
                Spanned { value: renumbered_surface_ref(r, offset, s.value), span: s.span },
            ),
            _ => self,
        }
    }

    /// Renumbering surfaces in this element does not overflow.
    pub open spec fn surface_refs_fit(self, r: RangeInclusive<u32>, offset: i32) -> bool {
        self matches GeoElementSpanned::Surface(s) ==> surface_ref_fits(r, offset, s.value)
    }
}

impl Param {
    /// This parameter after renumbering transformations: the transformation
    /// of a `FILL` changes.
    pub open spec fn with_transforms_renumbered(self, r: RangeInclusive<u32>, offset: i32) -> Param {
        match self.param_type {
            ParamType::Fill(fd) => Param {
                param_type: ParamType::Fill(
                    FillData { transform: renumbered_opt(r, offset, fd.transform), ..fd },
                ),
                ..self
            },
            _ => self,
        }
    }

    /// Renumbering transformations in this parameter does not overflow.
    pub open spec fn transforms_fit(self, r: RangeInclusive<u32>, offset: i32) -> bool {
        self.param_type matches ParamType::Fill(fd) ==> opt_fits(r, offset, fd.transform)
    }

    /// This parameter after renumbering universes: the universe of a `U` and
    /// of a `FILL` change.
    pub open spec fn with_universes_renumbered(self, r: RangeInclusive<u32>, offset: i32) -> Param {
        match self.param_type {
            ParamType::U(u) => Param { param_type: ParamType::U(renumbered(r, offset, u)), ..self },
            ParamType::Fill(fd) => Param {
                param_type: ParamType::Fill(
                    FillData { universe: renumbered(r, offset, fd.universe), ..fd },
                ),
                ..self
            },
            _ => self,
        }
    }

    /// Renumbering universes in this parameter does not overflow.
    pub open spec fn universes_fit(self, r: RangeInclusive<u32>, offset: i32) -> bool {
        match self.param_type {
            ParamType::U(u) => renumber_fits(r, offset, u),
            ParamType::Fill(fd) => renumber_fits(r, offset, fd.universe),
            _ => true,
        }
    }
}

impl SurfaceCard {
    /// This surface after renumbering surfaces: its number changes.
    pub open spec fn with_surfaces_renumbered(self, r: RangeInclusive<u32>, offset: i32) -> SurfaceCard {
        SurfaceCard { surface_id: renumbered_spanned(r, offset, self.surface_id), ..self }
    }

    /// This surface after renumbering transformations: its transformation
    /// changes.
    pub open spec fn with_transforms_renumbered(self, r: RangeInclusive<u32>, offset: i32) -> SurfaceCard {
        SurfaceCard { transform_id: renumbered_opt_spanned(r, offset, self.transform_id), ..self }
    }

    /// Renumbering transformations in this surface does not overflow.
    pub open spec fn transform_fits(self, r: RangeInclusive<u32>, offset: i32) -> bool {
        self.transform_id matches Some(t) ==> renumber_fits(r, offset, t.value)
    }
}

impl DataCard {
    /// This card after renumbering materials: a material card's number changes.
    pub open spec fn with_materials_renumbered(self, r: RangeInclusive<u32>, offset: i32) -> DataCard {
        match self {
            DataCard::Material(m) => DataCard::Material(
                MaterialCard { material_id: renumbered_spanned(r, offset, m.material_id) },
            ),
            _ => self,
        }
    }

    /// Renumbering materials in this card does not overflow.
    pub open spec fn material_fits(self, r: RangeInclusive<u32>, offset: i32) -> bool {
        self matches DataCard::Material(m) ==> renumber_fits(r, offset, m.material_id.value)
    }

    /// This card after renumbering transformations: a transformation card's
    /// number changes.
    pub open spec fn with_transforms_renumbered(self, r: RangeInclusive<u32>, offset: i32) -> DataCard {
        match self {
            DataCard::Transform(t) => DataCard::Transform(
                TransformCard { transform_id: renumbered_spanned(r, offset, t.transform_id) },
            ),
            _ => self,
        }
    }

    /// Renumbering transformations in this card does not overflow.
    pub open spec fn transform_fits(self, r: RangeInclusive<u32>, offset: i32) -> bool {
        self matches DataCard::Transform(t) ==> renumber_fits(r, offset, t.transform_id.value)
    }
}

impl CellCardView {
    /// This cell after renumbering surfaces: the surfaces its geometry refers
    /// to change.
    pub open spec fn with_surfaces_renumbered(self, r: RangeInclusive<u32>, offset: i32) -> CellCardView {
        CellCardView {
            geometry: self.geometry.map_values(
                |g: GeoElementSpanned| g.with_surfaces_renumbered(r, offset),
            ),
            ..self
        }
    }

    /// Renumbering surfaces in this cell does not overflow.
    pub open spec fn surface_refs_fit(self, r: RangeInclusive<u32>, offset: i32) -> bool {
        forall|j: int|
            0 <= j < self.geometry.len() ==> (#[trigger] self.geometry[j]).surface_refs_fit(r, offset)
    }

    /// This cell after renumbering materials: its material changes.
    pub open spec fn with_materials_renumbered(self, r: RangeInclusive<u32>, offset: i32) -> CellCardView {
        CellCardView { material_id: renumbered_spanned(r, offset, self.material_id), ..self }
    }

    /// This cell after renumbering transformations: the transformations of
    /// its `FILL` parameters change.
    pub open spec fn with_transforms_renumbered(self, r: RangeInclusive<u32>, offset: i32) -> CellCardView {
        CellCardView {
            params: self.params.map_values(|p: Param| p.with_transforms_renumbered(r, offset)),
            ..self
        }
    }

    /// Renumbering transformations in this cell does not overflow.
    pub open spec fn transforms_fit(self, r: RangeInclusive<u32>, offset: i32) -> bool {
        forall|j: int| 0 <= j < self.params.len() ==> (#[trigger] self.params[j]).transforms_fit(r, offset)
    }

    /// This cell after renumbering universes: the universes of its `U` and
    /// `FILL` parameters change.
    pub open spec fn with_universes_renumbered(self, r: RangeInclusive<u32>, offset: i32) -> CellCardView {
        CellCardView {
            params: self.params.map_values(|p: Param| p.with_universes_renumbered(r, offset)),
            ..self
        }
    }

    /// Renumbering universes in this cell does not overflow.
    pub open spec fn universes_fit(self, r: RangeInclusive<u32>, offset: i32) -> bool {
        forall|j: int| 0 <= j < self.params.len() ==> (#[trigger] self.params[j]).universes_fit(r, offset)
    }
}

impl ModelView {
    /// The model after renumbering the surfaces in `r` by `offset`: surface
    /// cards and the surface references in cell geometries.
    pub open spec fn with_surfaces_renumbered(self, r: RangeInclusive<u32>, offset: i32) -> ModelView {
        ModelView {
            cells: self.cells.map_values(|c: CellCardView| c.with_surfaces_renumbered(r, offset)),
            surfaces: self.surfaces.map_values(|s: SurfaceCard| s.with_surfaces_renumbered(r, offset)),
            ..self
        }
    }

    /// Renumbering the surfaces in `r` by `offset` does not overflow.
    pub open spec fn surface_ids_fit(self, r: RangeInclusive<u32>, offset: i32) -> bool {
        &&& forall|i: int| 0 <= i < self.cells.len() ==> (#[trigger] self.cells[i]).surface_refs_fit(r, offset)
        &&& forall|i: int|
            0 <= i < self.surfaces.len() ==> renumber_fits(r, offset, (#[trigger] self.surfaces[i]).surface_id.value)
    }

    /// The model after renumbering the materials in `r` by `offset`: the
    /// materials of cells and material cards.
    pub open spec fn with_materials_renumbered(self, r: RangeInclusive<u32>, offset: i32) -> ModelView {
        ModelView {
            cells: self.cells.map_values(|c: CellCardView| c.with_materials_renumbered(r, offset)),
            data_cards: self.data_cards.map_values(|d: DataCard| d.with_materials_renumbered(r, offset)),
            ..self
        }
    }

    /// Renumbering the materials in `r` by `offset` does not overflow.
    pub open spec fn material_ids_fit(self, r: RangeInclusive<u32>, offset: i32) -> bool {
        &&& forall|i: int|
            0 <= i < self.cells.len() ==> renumber_fits(r, offset, (#[trigger] self.cells[i]).material_id.value)
        &&& forall|i: int| 0 <= i < self.data_cards.len() ==> (#[trigger] self.data_cards[i]).material_fits(r, offset)
    }

    /// The model after renumbering the transformations in `r` by `offset`:
    /// those of `FILL` parameters, of surfaces and transformation cards.
    pub open spec fn with_transforms_renumbered(self, r: RangeInclusive<u32>, offset: i32) -> ModelView {
        ModelView {
            cells: self.cells.map_values(|c: CellCardView| c.with_transforms_renumbered(r, offset)),
            surfaces: self.surfaces.map_values(|s: SurfaceCard| s.with_transforms_renumbered(r, offset)),
            data_cards: self.data_cards.map_values(|d: DataCard| d.with_transforms_renumbered(r, offset)),
        }
    }

    /// Renumbering the transformations in `r` by `offset` does not overflow.
    pub open spec fn transform_ids_fit(self, r: RangeInclusive<u32>, offset: i32) -> bool {
        &&& forall|i: int| 0 <= i < self.cells.len() ==> (#[trigger] self.cells[i]).transforms_fit(r, offset)
        &&& forall|i: int| 0 <= i < self.surfaces.len() ==> (#[trigger] self.surfaces[i]).transform_fits(r, offset)
        &&& forall|i: int| 0 <= i < self.data_cards.len() ==> (#[trigger] self.data_cards[i]).transform_fits(r, offset)
    }

    /// The model after renumbering the universes in `r` by `offset`: those of
    /// `U` and `FILL` parameters.
    pub open spec fn with_universes_renumbered(self, r: RangeInclusive<u32>, offset: i32) -> ModelView {
        ModelView {
            cells: self.cells.map_values(|c: CellCardView| c.with_universes_renumbered(r, offset)),
            ..self
        }
    }

    /// Renumbering the universes in `r` by `offset` does not overflow.
    pub open spec fn universe_ids_fit(self, r: RangeInclusive<u32>, offset: i32) -> bool {
        forall|i: int| 0 <= i < self.cells.len() ==> (#[trigger] self.cells[i]).universes_fit(r, offset)
    }
}

/// Tests whether `x` lies in `r`.
fn id_in_range(r: &RangeInclusive<u32>, x: u32) -> (b: bool)
    ensures
        b == in_id_range(*r, x),
{
    r.contains(&x)
}

/// Shifts `x` by `offset`.
fn shift_id(x: u32, offset: i32) -> (y: u32)
    requires
        shift_fits(x, offset),
    ensures
        y == shifted_id(x, offset),
{
    let s: i64 = if x > 0x7fff_ffff {
        x as i64 - 0x1_0000_0000i64
    } else {
        x as i64
    };
    let t: i64 = s + offset as i64;
    if t < 0 {
        (t + 0x1_0000_0000i64) as u32
    } else {
        t as u32
    }
}

/// Renumbers `x` if it lies in `r`.
fn renumber_id(r: &RangeInclusive<u32>, offset: i32, x: u32) -> (y: u32)
    requires
        renumber_fits(*r, offset, x),
    ensures
        y == renumbered(*r, offset, x),
{
    if id_in_range(r, x) {
        shift_id(x, offset)
    } else {
        x
    }
}

impl CellCard {
    /// Renumbers the cell's number and the cells its geometry refers to.
    fn renumber_cell_ids(&mut self, r: &RangeInclusive<u32>, offset: i32)
        requires
            old(self)@.cell_ids_fit(*r, offset),
        ensures
            final(self)@ == old(self)@.with_cells_renumbered(*r, offset),
    {
        self.cell_id.value = renumber_id(r, offset, self.cell_id.value);
        let n = self.geometry.len();
        let mut j: usize = 0;
        while j < n
            invariant
                n == self.geometry.len() == old(self).geometry.len(),
                0 <= j <= n,
                self.cell_id == renumbered_spanned(*r, offset, old(self).cell_id),
                self.material_id == old(self).material_id,
                self.params@ == old(self).params@,
                old(self)@.cell_ids_fit(*r, offset),
                forall|k: int| 0 <= k < j ==> self.geometry@[k] == old(self).geometry@[k].with_cells_renumbered(*r, offset),
                forall|k: int| j <= k < n ==> self.geometry@[k] == old(self).geometry@[k],
            decreases n - j,
        {
            assert(old(self)@.geometry[j as int].cell_refs_fit(*r, offset));
            match &mut self.geometry[j] {
                GeoElementSpanned::Cell(c) => {
                    c.value = renumber_id(r, offset, c.value);
                },
                _ => {},
            }
            j = j + 1;
        }
        assert(self@.geometry =~= old(self)@.with_cells_renumbered(*r, offset).geometry);
    }
}


/// Renumbers the signed surface reference `v` if its surface number lies in `r`.
fn renumber_surface_ref(r: &RangeInclusive<u32>, offset: i32, v: i32) -> (w: i32)
    requires
        surface_ref_fits(*r, offset, v),
    ensures
        w == renumbered_surface_ref(*r, offset, v),
{
    let magnitude: u32 = if v < 0 {
        (0i64 - v as i64) as u32
    } else {
        v as u32
    };
    if id_in_range(r, magnitude) {
        let sign: i32 = if v > 0 {
            1
        } else if v < 0 {
            -1
        } else {
            0
        };
        v + offset * sign
    } else {
        v
    }
}

impl CellCard {
    /// Renumbers the surfaces that the cell's geometry refers to.
    fn renumber_surface_refs(&mut self, r: &RangeInclusive<u32>, offset: i32)
        requires
            old(self)@.surface_refs_fit(*r, offset),
        ensures
            final(self)@ == old(self)@.with_surfaces_renumbered(*r, offset),
    {
        let n = self.geometry.len();
        let mut j: usize = 0;
        while j < n
            invariant
                n == self.geometry.len() == old(self).geometry.len(),
                0 <= j <= n,
                self.cell_id == old(self).cell_id,
                self.material_id == old(self).material_id,
                self.params@ == old(self).params@,
                old(self)@.surface_refs_fit(*r, offset),
                forall|k: int| 0 <= k < j ==> self.geometry@[k] == old(self).geometry@[k].with_surfaces_renumbered(*r, offset),
                forall|k: int| j <= k < n ==> self.geometry@[k] == old(self).geometry@[k],
            decreases n - j,
        {
            assert(old(self)@.geometry[j as int].surface_refs_fit(*r, offset));
            match &mut self.geometry[j] {
                GeoElementSpanned::Surface(sref) => {
                    sref.value = renumber_surface_ref(r, offset, sref.value);
                },
                _ => {},
            }
            j = j + 1;
        }
        assert(self@.geometry =~= old(self)@.with_surfaces_renumbered(*r, offset).geometry);
    }

    /// Renumbers the transformations of the cell's `FILL` parameters.
    fn renumber_fill_transforms(&mut self, r: &RangeInclusive<u32>, offset: i32)
        requires
            old(self)@.transforms_fit(*r, offset),
        ensures
            final(self)@ == old(self)@.with_transforms_renumbered(*r, offset),
    {
        let n = self.params.len();
        let mut j: usize = 0;
        while j < n
            invariant
                n == self.params.len() == old(self).params.len(),
                0 <= j <= n,
                self.cell_id == old(self).cell_id,
                self.material_id == old(self).material_id,
                self.geometry@ == old(self).geometry@,
                old(self)@.transforms_fit(*r, offset),
                forall|k: int| 0 <= k < j ==> self.params@[k] == old(self).params@[k].with_transforms_renumbered(*r, offset),
                forall|k: int| j <= k < n ==> self.params@[k] == old(self).params@[k],
            decreases n - j,
        {
            assert(old(self)@.params[j as int].transforms_fit(*r, offset));
            match &mut self.params[j].param_type {
                ParamType::Fill(fd) => {
                    match &mut fd.transform {
                        Some(t) => {
                            *t = renumber_id(r, offset, *t);
                        },
                        None => {},
                    }
                },
                _ => {},
            }
            j = j + 1;
        }
        assert(self@.params =~= old(self)@.with_transforms_renumbered(*r, offset).params);
    }

    /// Renumbers the universes of the cell's `U` and `FILL` parameters.
    fn renumber_param_universes(&mut self, r: &RangeInclusive<u32>, offset: i32)
        requires
            old(self)@.universes_fit(*r, offset),
        ensures
            final(self)@ == old(self)@.with_universes_renumbered(*r, offset),
    {
        let n = self.params.len();
        let mut j: usize = 0;
        while j < n
            invariant
                n == self.params.len() == old(self).params.len(),
                0 <= j <= n,
                self.cell_id == old(self).cell_id,
                self.material_id == old(self).material_id,
                self.geometry@ == old(self).geometry@,
                old(self)@.universes_fit(*r, offset),
                forall|k: int| 0 <= k < j ==> self.params@[k] == old(self).params@[k].with_universes_renumbered(*r, offset),
                forall|k: int| j <= k < n ==> self.params@[k] == old(self).params@[k],
            decreases n - j,
        {
            assert(old(self)@.params[j as int].universes_fit(*r, offset));
            match &mut self.params[j].param_type {
                ParamType::U(universe_id) => {
                    *universe_id = renumber_id(r, offset, *universe_id);
                },
                ParamType::Fill(fd) => {
                    fd.universe = renumber_id(r, offset, fd.universe);
                },
                _ => {},
            }
            j = j + 1;
        }
        assert(self@.params =~= old(self)@.with_universes_renumbered(*r, offset).params);
    }
}

impl Model {
    /// Renumber cell ids for a specific subset of cell ids
    pub fn renumber_cells(&mut self, id_range_to_mod: RangeInclusive<u32>, offset: i32)
        requires
            old(self)@.cell_ids_fit(id_range_to_mod, offset),
        ensures
            final(self)@ == old(self)@.with_cells_renumbered(id_range_to_mod, offset),
    {
        let n = self.cells.len();
        let mut i: usize = 0;
        while i < n
            invariant
                n == self.cells.len() == old(self).cells.len(),
                0 <= i <= n,
                self.surfaces@ == old(self).surfaces@,
                self.data_cards@ == old(self).data_cards@,
                old(self)@.cell_ids_fit(id_range_to_mod, offset),
                forall|k: int| 0 <= k < i ==> self.cells@[k]@ == old(self).cells@[k]@.with_cells_renumbered(id_range_to_mod, offset),
                forall|k: int| i <= k < n ==> self.cells@[k] == old(self).cells@[k],
            decreases n - i,
        {
            assert(old(self)@.cells[i as int] == old(self).cells@[i as int]@);
            self.cells[i].renumber_cell_ids(&id_range_to_mod, offset);
            i = i + 1;
        }
        assert(self@.cells =~= old(self)@.with_cells_renumbered(id_range_to_mod, offset).cells);
    }
    /// Renumber surface ids for a specific subset of surface ids
    pub fn renumber_surfaces(&mut self, id_range_to_mod: RangeInclusive<u32>, offset: i32)
        requires
            old(self)@.surface_ids_fit(id_range_to_mod, offset),
        ensures
            final(self)@ == old(self)@.with_surfaces_renumbered(id_range_to_mod, offset),
    {
        // Renumber surface IDs in cell definitions
        let n = self.cells.len();
        let mut i: usize = 0;
        while i < n
            invariant
                n == self.cells.len() == old(self).cells.len(),
                0 <= i <= n,
                self.surfaces@ == old(self).surfaces@,
                self.data_cards@ == old(self).data_cards@,
                old(self)@.surface_ids_fit(id_range_to_mod, offset),
                forall|k: int| 0 <= k < i ==> self.cells@[k]@ == old(self).cells@[k]@.with_surfaces_renumbered(id_range_to_mod, offset),
                forall|k: int| i <= k < n ==> self.cells@[k] == old(self).cells@[k],
            decreases n - i,
        {
            assert(old(self)@.cells[i as int] == old(self).cells@[i as int]@);
            self.cells[i].renumber_surface_refs(&id_range_to_mod, offset);
            i = i + 1;
        }

        // Renumber the card IDs
        let m = self.surfaces.len();
        let mut i: usize = 0;
        while i < m
            invariant
                m == self.surfaces.len() == old(self).surfaces.len(),
                0 <= i <= m,
                n == self.cells.len() == old(self).cells.len(),
                forall|k: int| 0 <= k < n ==> self.cells@[k]@ == old(self).cells@[k]@.with_surfaces_renumbered(id_range_to_mod, offset),
                self.data_cards@ == old(self).data_cards@,
                old(self)@.surface_ids_fit(id_range_to_mod, offset),
                forall|k: int| 0 <= k < i ==> self.surfaces@[k] == old(self).surfaces@[k].with_surfaces_renumbered(id_range_to_mod, offset),
                forall|k: int| i <= k < m ==> self.surfaces@[k] == old(self).surfaces@[k],
            decreases m - i,
        {
            assert(renumber_fits(id_range_to_mod, offset, old(self)@.surfaces[i as int].surface_id.value));
            let id = self.surfaces[i].surface_id.value;
            self.surfaces[i].surface_id.value = renumber_id(&id_range_to_mod, offset, id);
            i = i + 1;
        }
        assert(self@.cells =~= old(self)@.with_surfaces_renumbered(id_range_to_mod, offset).cells);
        assert(self@.surfaces =~= old(self)@.with_surfaces_renumbered(id_range_to_mod, offset).surfaces);
    }

    /// Renumber material IDs for a specific subset of materials
    pub fn renumber_materials(&mut self, id_range_to_mod: RangeInclusive<u32>, offset: i32)
        requires
            old(self)@.material_ids_fit(id_range_to_mod, offset),
        ensures
            final(self)@ == old(self)@.with_materials_renumbered(id_range_to_mod, offset),
    {
        // Renumber the material IDs in cell definitions
        let n = self.cells.len();
        let mut i: usize = 0;
        while i < n
            invariant
                n == self.cells.len() == old(self).cells.len(),
                0 <= i <= n,
                self.surfaces@ == old(self).surfaces@,
                self.data_cards@ == old(self).data_cards@,
                old(self)@.material_ids_fit(id_range_to_mod, offset),
                forall|k: int| 0 <= k < i ==> self.cells@[k]@ == old(self).cells@[k]@.with_materials_renumbered(id_range_to_mod, offset),
                forall|k: int| i <= k < n ==> self.cells@[k] == old(self).cells@[k],
            decreases n - i,
        {
            assert(renumber_fits(id_range_to_mod, offset, old(self)@.cells[i as int].material_id.value));
            let id = self.cells[i].material_id.value;
            self.cells[i].material_id.value = renumber_id(&id_range_to_mod, offset, id);
            i = i + 1;
        }

        // Renumber the material IDs in data cards
        let m = self.data_cards.len();
        let mut i: usize = 0;
        while i < m
            invariant
                m == self.data_cards.len() == old(self).data_cards.len(),
                0 <= i <= m,
                n == self.cells.len() == old(self).cells.len(),
                forall|k: int| 0 <= k < n ==> self.cells@[k]@ == old(self).cells@[k]@.with_materials_renumbered(id_range_to_mod, offset),
                self.surfaces@ == old(self).surfaces@,
                old(self)@.material_ids_fit(id_range_to_mod, offset),
                forall|k: int| 0 <= k < i ==> self.data_cards@[k] == old(self).data_cards@[k].with_materials_renumbered(id_range_to_mod, offset),
                forall|k: int| i <= k < m ==> self.data_cards@[k] == old(self).data_cards@[k],
            decreases m - i,
        {
            assert(old(self)@.data_cards[i as int].material_fits(id_range_to_mod, offset));
            match &mut self.data_cards[i] {
                DataCard::Material(mat) => {
                    mat.material_id.value = renumber_id(&id_range_to_mod, offset, mat.material_id.value);
                },
                _ => {},
            }
            i = i + 1;
        }
        assert(self@.cells =~= old(self)@.with_materials_renumbered(id_range_to_mod, offset).cells);
        assert(self@.data_cards =~= old(self)@.with_materials_renumbered(id_range_to_mod, offset).data_cards);
    }

    /// Renumber transformation cards
    pub fn renumber_transformations(&mut self, id_range_to_mod: RangeInclusive<u32>, offset: i32)
        requires
            old(self)@.transform_ids_fit(id_range_to_mod, offset),
        ensures
            final(self)@ == old(self)@.with_transforms_renumbered(id_range_to_mod, offset),
    {
        // Renumber the transformation IDs in the FILL parameters of cell definitions
        let n = self.cells.len();
        let mut i: usize = 0;
        while i < n
            invariant
                n == self.cells.len() == old(self).cells.len(),
                0 <= i <= n,
                self.surfaces@ == old(self).surfaces@,
                self.data_cards@ == old(self).data_cards@,
                old(self)@.transform_ids_fit(id_range_to_mod, offset),
                forall|k: int| 0 <= k < i ==> self.cells@[k]@ == old(self).cells@[k]@.with_transforms_renumbered(id_range_to_mod, offset),
                forall|k: int| i <= k < n ==> self.cells@[k] == old(self).cells@[k],
            decreases n - i,
        {
            assert(old(self)@.cells[i as int] == old(self).cells@[i as int]@);
            self.cells[i].renumber_fill_transforms(&id_range_to_mod, offset);
            i = i + 1;
        }

        // Renumber the transformation IDs in surface definitions
        let m = self.surfaces.len();
        let mut i: usize = 0;
        while i < m
            invariant
                m == self.surfaces.len() == old(self).surfaces.len(),
                0 <= i <= m,
                n == self.cells.len() == old(self).cells.len(),
                forall|k: int| 0 <= k < n ==> self.cells@[k]@ == old(self).cells@[k]@.with_transforms_renumbered(id_range_to_mod, offset),
                self.data_cards@ == old(self).data_cards@,
                old(self)@.transform_ids_fit(id_range_to_mod, offset),
                forall|k: int| 0 <= k < i ==> self.surfaces@[k] == old(self).surfaces@[k].with_transforms_renumbered(id_range_to_mod, offset),
                forall|k: int| i <= k < m ==> self.surfaces@[k] == old(self).surfaces@[k],
            decreases m - i,
        {
            assert(old(self)@.surfaces[i as int].transform_fits(id_range_to_mod, offset));
            match &mut self.surfaces[i].transform_id {
                Some(transform_id) => {
                    transform_id.value = renumber_id(&id_range_to_mod, offset, transform_id.value);
                },
                None => {},
            }
            i = i + 1;
        }

        // Renumber the transformation IDs in data cards
        let d = self.data_cards.len();
        let mut i: usize = 0;
        while i < d
            invariant
                d == self.data_cards.len() == old(self).data_cards.len(),
                0 <= i <= d,
                n == self.cells.len() == old(self).cells.len(),
                forall|k: int| 0 <= k < n ==> self.cells@[k]@ == old(self).cells@[k]@.with_transforms_renumbered(id_range_to_mod, offset),
                m == self.surfaces.len() == old(self).surfaces.len(),
                forall|k: int| 0 <= k < m ==> self.surfaces@[k] == old(self).surfaces@[k].with_transforms_renumbered(id_range_to_mod, offset),
                old(self)@.transform_ids_fit(id_range_to_mod, offset),
                forall|k: int| 0 <= k < i ==> self.data_cards@[k] == old(self).data_cards@[k].with_transforms_renumbered(id_range_to_mod, offset),
                forall|k: int| i <= k < d ==> self.data_cards@[k] == old(self).data_cards@[k],
            decreases d - i,
        {
            assert(old(self)@.data_cards[i as int].transform_fits(id_range_to_mod, offset));
            match &mut self.data_cards[i] {
                DataCard::Transform(trans) => {
                    trans.transform_id.value = renumber_id(&id_range_to_mod, offset, trans.transform_id.value);
                },
                _ => {},
            }
            i = i + 1;
        }
        assert(self@.cells =~= old(self)@.with_transforms_renumbered(id_range_to_mod, offset).cells);
        assert(self@.surfaces =~= old(self)@.with_transforms_renumbered(id_range_to_mod, offset).surfaces);
        assert(self@.data_cards =~= old(self)@.with_transforms_renumbered(id_range_to_mod, offset).data_cards);
    }

    /// Renumber universes
    pub fn renumber_universes(&mut self, id_range_to_mod: RangeInclusive<u32>, offset: i32)
        requires
            old(self)@.universe_ids_fit(id_range_to_mod, offset),
        ensures
            final(self)@ == old(self)@.with_universes_renumbered(id_range_to_mod, offset),
    {
        let n = self.cells.len();
        let mut i: usize = 0;
        while i < n
            invariant
                n == self.cells.len() == old(self).cells.len(),
                0 <= i <= n,
                self.surfaces@ == old(self).surfaces@,
                self.data_cards@ == old(self).data_cards@,
                old(self)@.universe_ids_fit(id_range_to_mod, offset),
                forall|k: int| 0 <= k < i ==> self.cells@[k]@ == old(self).cells@[k]@.with_universes_renumbered(id_range_to_mod, offset),
                forall|k: int| i <= k < n ==> self.cells@[k] == old(self).cells@[k],
            decreases n - i,
        {
            assert(old(self)@.cells[i as int] == old(self).cells@[i as int]@);
            self.cells[i].renumber_param_universes(&id_range_to_mod, offset);
            i = i + 1;
        }
        assert(self@.cells =~= old(self)@.with_universes_renumbered(id_range_to_mod, offset).cells);
    }
}

/// Tests whether renumbering `x` fits.
fn id_fits(r: &RangeInclusive<u32>, offset: i32, x: u32) -> (b: bool)
    ensures
        b == renumber_fits(*r, offset, x),
{
    if !id_in_range(r, x) {
        return true;
    }
    let s: i64 = if x > 0x7fff_ffff {
        x as i64 - 0x1_0000_0000i64
    } else {
        x as i64
    };
    let t: i64 = s + offset as i64;
    -0x8000_0000i64 <= t && t <= 0x7fff_ffffi64
}

/// Tests whether renumbering the signed surface reference `v` fits.
fn surface_ref_fits_exec(r: &RangeInclusive<u32>, offset: i32, v: i32) -> (b: bool)
    ensures
        b == surface_ref_fits(*r, offset, v),
{
    let magnitude: u32 = if v < 0 {
        (0i64 - v as i64) as u32
    } else {
        v as u32
    };
    if !id_in_range(r, magnitude) {
        return true;
    }
    let sign: i64 = if v > 0 {
        1
    } else if v < 0 {
        -1
    } else {
        0
    };
    let moved: i64 = offset as i64 * sign;
    assert(moved == offset * sign_of(v));
    let t: i64 = v as i64 + moved;
    -0x8000_0000i64 <= moved && moved <= 0x7fff_ffffi64 && -0x8000_0000i64 <= t && t
        <= 0x7fff_ffffi64
}

impl CellCard {
    /// Tests whether renumbering cells in this cell fits.
    fn cell_ids_fit_exec(&self, r: &RangeInclusive<u32>, offset: i32) -> (b: bool)
        ensures
            b == self@.cell_ids_fit(*r, offset),
    {
        if !id_fits(r, offset, self.cell_id.value) {
            return false;
        }
        let n = self.geometry.len();
        let mut j: usize = 0;
        while j < n
            invariant
                n == self.geometry.len(),
                0 <= j <= n,
                renumber_fits(*r, offset, self.cell_id.value),
                forall|k: int| 0 <= k < j ==> (#[trigger] self@.geometry[k]).cell_refs_fit(*r, offset),
            decreases n - j,
        {
            match &self.geometry[j] {
                GeoElementSpanned::Cell(c) => {
                    if !id_fits(r, offset, c.value) {
                        assert(!self@.geometry[j as int].cell_refs_fit(*r, offset));
                        return false;
                    }
                },
                _ => {},
            }
            j = j + 1;
        }
        true
    }

    /// Tests whether renumbering surfaces in this cell fits.
    fn surface_refs_fit_exec(&self, r: &RangeInclusive<u32>, offset: i32) -> (b: bool)
        ensures
            b == self@.surface_refs_fit(*r, offset),
    {
        let n = self.geometry.len();
        let mut j: usize = 0;
        while j < n
            invariant
                n == self.geometry.len(),
                0 <= j <= n,
                forall|k: int| 0 <= k < j ==> (#[trigger] self@.geometry[k]).surface_refs_fit(*r, offset),
            decreases n - j,
        {
            match &self.geometry[j] {
                GeoElementSpanned::Surface(sref) => {
                    if !surface_ref_fits_exec(r, offset, sref.value) {
                        assert(!self@.geometry[j as int].surface_refs_fit(*r, offset));
                        return false;
                    }
                },
                _ => {},
            }
            j = j + 1;
        }
        true
    }

    /// Tests whether renumbering transformations in this cell fits.
    fn transforms_fit_exec(&self, r: &RangeInclusive<u32>, offset: i32) -> (b: bool)
        ensures
            b == self@.transforms_fit(*r, offset),
    {
        let n = self.params.len();
        let mut j: usize = 0;
        while j < n
            invariant
                n == self.params.len(),
                0 <= j <= n,
                forall|k: int| 0 <= k < j ==> (#[trigger] self@.params[k]).transforms_fit(*r, offset),
            decreases n - j,
        {
            match &self.params[j].param_type {
                ParamType::Fill(fd) => {
                    match fd.transform {
                        Some(t) => {
                            if !id_fits(r, offset, t) {
                                assert(!self@.params[j as int].transforms_fit(*r, offset));
                                return false;
                            }
                        },
                        None => {},
                    }
                },
                _ => {},
            }
            j = j + 1;
        }
        true
    }

    /// Tests whether renumbering universes in this cell fits.
    fn universes_fit_exec(&self, r: &RangeInclusive<u32>, offset: i32) -> (b: bool)
        ensures
            b == self@.universes_fit(*r, offset),
    {
        let n = self.params.len();
        let mut j: usize = 0;
        while j < n
            invariant
                n == self.params.len(),
                0 <= j <= n,
                forall|k: int| 0 <= k < j ==> (#[trigger] self@.params[k]).universes_fit(*r, offset),
            decreases n - j,
        {
            let ok = match &self.params[j].param_type {
                ParamType::U(u) => id_fits(r, offset, *u),
                ParamType::Fill(fd) => id_fits(r, offset, fd.universe),
                _ => true,
            };
            if !ok {
                assert(!self@.params[j as int].universes_fit(*r, offset));
                return false;
            }
            j = j + 1;
        }
        true
    }
}

impl Model {
    /// Tests whether `renumber_cells` can renumber this model without an
    /// overflow: the condition that it requires.
    pub fn can_renumber_cells(&self, id_range_to_mod: &RangeInclusive<u32>, offset: i32) -> (b: bool)
        ensures
            b == self@.cell_ids_fit(*id_range_to_mod, offset),
    {
        let n = self.cells.len();
        let mut i: usize = 0;
        while i < n
            invariant
                n == self.cells.len(),
                0 <= i <= n,
                forall|k: int| 0 <= k < i ==> (#[trigger] self@.cells[k]).cell_ids_fit(*id_range_to_mod, offset),
            decreases n - i,
        {
            assert(self@.cells[i as int] == self.cells@[i as int]@);
            if !self.cells[i].cell_ids_fit_exec(id_range_to_mod, offset) {
                return false;
            }
            i = i + 1;
        }
        true
    }

    /// Tests whether `renumber_surfaces` can renumber this model without an
    /// overflow: the condition that it requires.
    pub fn can_renumber_surfaces(&self, id_range_to_mod: &RangeInclusive<u32>, offset: i32) -> (b: bool)
        ensures
            b == self@.surface_ids_fit(*id_range_to_mod, offset),
    {
        let n = self.cells.len();
        let mut i: usize = 0;
        while i < n
            invariant
                n == self.cells.len(),
                0 <= i <= n,
                forall|k: int| 0 <= k < i ==> (#[trigger] self@.cells[k]).surface_refs_fit(*id_range_to_mod, offset),
            decreases n - i,
        {
            assert(self@.cells[i as int] == self.cells@[i as int]@);
            if !self.cells[i].surface_refs_fit_exec(id_range_to_mod, offset) {
                return false;
            }
            i = i + 1;
        }
        let m = self.surfaces.len();
        let mut i: usize = 0;
        while i < m
            invariant
                m == self.surfaces.len(),
                0 <= i <= m,
                forall|k: int| 0 <= k < self@.cells.len() ==> (#[trigger] self@.cells[k]).surface_refs_fit(*id_range_to_mod, offset),
                forall|k: int| 0 <= k < i ==> renumber_fits(*id_range_to_mod, offset, (#[trigger] self@.surfaces[k]).surface_id.value),
            decreases m - i,
        {
            if !id_fits(id_range_to_mod, offset, self.surfaces[i].surface_id.value) {
                assert(!renumber_fits(*id_range_to_mod, offset, self@.surfaces[i as int].surface_id.value));
                return false;
            }
            i = i + 1;
        }
        true
    }

    /// Tests whether `renumber_materials` can renumber this model without an
    /// overflow: the condition that it requires.
    pub fn can_renumber_materials(&self, id_range_to_mod: &RangeInclusive<u32>, offset: i32) -> (b: bool)
        ensures
            b == self@.material_ids_fit(*id_range_to_mod, offset),
    {
        let n = self.cells.len();
        let mut i: usize = 0;
        while i < n
            invariant
                n == self.cells.len(),
                0 <= i <= n,
                forall|k: int| 0 <= k < i ==> renumber_fits(*id_range_to_mod, offset, (#[trigger] self@.cells[k]).material_id.value),
            decreases n - i,
        {
            assert(self@.cells[i as int] == self.cells@[i as int]@);
            if !id_fits(id_range_to_mod, offset, self.cells[i].material_id.value) {
                return false;
            }
            i = i + 1;
        }
        let m = self.data_cards.len();
        let mut i: usize = 0;
        while i < m
            invariant
                m == self.data_cards.len(),
                0 <= i <= m,
                forall|k: int| 0 <= k < self@.cells.len() ==> renumber_fits(*id_range_to_mod, offset, (#[trigger] self@.cells[k]).material_id.value),
                forall|k: int| 0 <= k < i ==> (#[trigger] self@.data_cards[k]).material_fits(*id_range_to_mod, offset),
            decreases m - i,
        {
            match &self.data_cards[i] {
                DataCard::Material(mat) => {
                    if !id_fits(id_range_to_mod, offset, mat.material_id.value) {
                        assert(!self@.data_cards[i as int].material_fits(*id_range_to_mod, offset));
                        return false;
                    }
                },
                _ => {},
            }
            i = i + 1;
        }
        true
    }

    /// Tests whether `renumber_transformations` can renumber this model
    /// without an overflow: the condition that it requires.
    pub fn can_renumber_transformations(&self, id_range_to_mod: &RangeInclusive<u32>, offset: i32) -> (b: bool)
        ensures
            b == self@.transform_ids_fit(*id_range_to_mod, offset),
    {
        let n = self.cells.len();
        let mut i: usize = 0;
        while i < n
            invariant
                n == self.cells.len(),
                0 <= i <= n,
                forall|k: int| 0 <= k < i ==> (#[trigger] self@.cells[k]).transforms_fit(*id_range_to_mod, offset),
            decreases n - i,
        {
            assert(self@.cells[i as int] == self.cells@[i as int]@);
            if !self.cells[i].transforms_fit_exec(id_range_to_mod, offset) {
                return false;
            }
            i = i + 1;
        }
        let m = self.surfaces.len();
        let mut i: usize = 0;
        while i < m
            invariant
                m == self.surfaces.len(),
                0 <= i <= m,
                forall|k: int| 0 <= k < self@.cells.len() ==> (#[trigger] self@.cells[k]).transforms_fit(*id_range_to_mod, offset),
                forall|k: int| 0 <= k < i ==> (#[trigger] self@.surfaces[k]).transform_fits(*id_range_to_mod, offset),
            decreases m - i,
        {
            match &self.surfaces[i].transform_id {
                Some(t) => {
                    if !id_fits(id_range_to_mod, offset, t.value) {
                        assert(!self@.surfaces[i as int].transform_fits(*id_range_to_mod, offset));
                        return false;
                    }
                },
                None => {},
            }
            i = i + 1;
        }
        let d = self.data_cards.len();
        let mut i: usize = 0;
        while i < d
            invariant
                d == self.data_cards.len(),
                0 <= i <= d,
                forall|k: int| 0 <= k < self@.cells.len() ==> (#[trigger] self@.cells[k]).transforms_fit(*id_range_to_mod, offset),
                forall|k: int| 0 <= k < self@.surfaces.len() ==> (#[trigger] self@.surfaces[k]).transform_fits(*id_range_to_mod, offset),
                forall|k: int| 0 <= k < i ==> (#[trigger] self@.data_cards[k]).transform_fits(*id_range_to_mod, offset),
            decreases d - i,
        {
            match &self.data_cards[i] {
                DataCard::Transform(trans) => {
                    if !id_fits(id_range_to_mod, offset, trans.transform_id.value) {
                        assert(!self@.data_cards[i as int].transform_fits(*id_range_to_mod, offset));
                        return false;
                    }
                },
                _ => {},
            }
            i = i + 1;
        }
        true
    }

    /// Tests whether `renumber_universes` can renumber this model without an
    /// overflow: the condition that it requires.
    pub fn can_renumber_universes(&self, id_range_to_mod: &RangeInclusive<u32>, offset: i32) -> (b: bool)
        ensures
            b == self@.universe_ids_fit(*id_range_to_mod, offset),
    {
        let n = self.cells.len();
        let mut i: usize = 0;
        while i < n
            invariant
                n == self.cells.len(),
                0 <= i <= n,
                forall|k: int| 0 <= k < i ==> (#[trigger] self@.cells[k]).universes_fit(*id_range_to_mod, offset),
            decreases n - i,
        {
            assert(self@.cells[i as int] == self.cells@[i as int]@);
            if !self.cells[i].universes_fit_exec(id_range_to_mod, offset) {
                return false;
            }
            i = i + 1;
        }
        true
    }
}

} // verus!
