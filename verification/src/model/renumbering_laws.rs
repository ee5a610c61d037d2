use std::ops::RangeInclusive;

use vstd::prelude::*;

use crate::cell_card::{CellCardView, GeoElementSpanned, Param, ParamType};
use crate::data_card::DataCard;
use crate::parser_utils::spanned::Spanned;
use crate::model::renumbering::{
    id_magnitude, in_id_range, renumber_fits, renumbered, renumbered_spanned,
    renumbered_surface_ref, shift_fits, shifted_id, sign_of, surface_ref_fits,
};
use crate::model::ModelView;
use crate::surface_card::SurfaceCard;

verus! {

/// Shifting by zero always fits and changes nothing.
pub proof fn lemma_shift_by_zero(x: u32)
    ensures
        shift_fits(x, 0),
        shifted_id(x, 0) == x,
{
}

/// Renumbering by an offset of zero is possible for every model and leaves
/// it unchanged, whatever the kind of identifier and the range.
pub proof fn lemma_zero_offset_changes_nothing(m: ModelView, r: RangeInclusive<u32>)
    ensures
        m.cell_ids_fit(r, 0),
        m.with_cells_renumbered(r, 0) == m,
        m.surface_ids_fit(r, 0),
        m.with_surfaces_renumbered(r, 0) == m,
        m.material_ids_fit(r, 0),
        m.with_materials_renumbered(r, 0) == m,
        m.transform_ids_fit(r, 0),
        m.with_transforms_renumbered(r, 0) == m,
        m.universe_ids_fit(r, 0),
        m.with_universes_renumbered(r, 0) == m,
{
    assert forall|x: u32| shifted_id(x, 0) == x && shift_fits(x, 0) by {
        lemma_shift_by_zero(x);
    }
    assert forall|x: u32| renumbered(r, 0, x) == x by {
        lemma_shift_by_zero(x);
    }
    assert forall|s: Spanned<u32>| renumbered_spanned(r, 0, s) == s by {
        lemma_shift_by_zero(s.value);
    }
    assert forall|v: i32| #[trigger] renumbered_surface_ref(r, 0, v) == v && surface_ref_fits(r, 0, v) by {
        assert(0 * sign_of(v) == 0);
    }
    assert forall|c: CellCardView| #[trigger] c.with_cells_renumbered(r, 0) == c by {
        assert(c.with_cells_renumbered(r, 0).geometry =~= c.geometry);
    }
    assert forall|c: CellCardView| #[trigger] c.with_surfaces_renumbered(r, 0) == c by {
        assert(c.with_surfaces_renumbered(r, 0).geometry =~= c.geometry);
    }
    assert forall|c: CellCardView| #[trigger] c.with_materials_renumbered(r, 0) == c by {
    }
    assert forall|p: Param| #[trigger] p.with_transforms_renumbered(r, 0) == p by {
        match p.param_type {
            ParamType::Fill(fd) => {
                match fd.transform {
                    Some(t) => {
                        lemma_shift_by_zero(t);
                    },
                    None => {},
                }
            },
            _ => {},
        }
    }
    assert forall|p: Param| #[trigger] p.with_universes_renumbered(r, 0) == p by {
        match p.param_type {
            ParamType::Fill(fd) => {
                lemma_shift_by_zero(fd.universe);
            },
            ParamType::U(u) => {
                lemma_shift_by_zero(u);
            },
            _ => {},
        }
    }
    assert forall|c: CellCardView| #[trigger] c.with_transforms_renumbered(r, 0) == c by {
        assert(c.with_transforms_renumbered(r, 0).params =~= c.params);
    }
    assert forall|c: CellCardView| #[trigger] c.with_universes_renumbered(r, 0) == c by {
        assert(c.with_universes_renumbered(r, 0).params =~= c.params);
    }
    assert forall|s: SurfaceCard| #[trigger] s.with_transforms_renumbered(r, 0) == s by {
        match s.transform_id {
            Some(t) => {
                lemma_shift_by_zero(t.value);
            },
            None => {},
        }
    }
    assert forall|d: DataCard| #[trigger] d.with_transforms_renumbered(r, 0) == d && #[trigger] d.with_materials_renumbered(r, 0) == d by {
    }
    assert(m.with_cells_renumbered(r, 0).cells =~= m.cells);
    assert(m.with_surfaces_renumbered(r, 0).cells =~= m.cells);
    assert(m.with_surfaces_renumbered(r, 0).surfaces =~= m.surfaces);
    assert(m.with_materials_renumbered(r, 0).cells =~= m.cells);
    assert(m.with_materials_renumbered(r, 0).data_cards =~= m.data_cards);
    assert(m.with_transforms_renumbered(r, 0).cells =~= m.cells);
    assert(m.with_transforms_renumbered(r, 0).surfaces =~= m.surfaces);
    assert(m.with_transforms_renumbered(r, 0).data_cards =~= m.data_cards);
    assert(m.with_universes_renumbered(r, 0).cells =~= m.cells);
}

/// `r2` is `r` moved by `offset`, with both ranges within the non-negative
/// values of an `i32`, so that moving back by `back` is exact.
pub open spec fn moved_range(
    r: RangeInclusive<u32>,
    r2: RangeInclusive<u32>,
    offset: i32,
    back: i32,
) -> bool {
    &&& !r@.exhausted
    &&& !r2@.exhausted
    &&& back == -offset
    &&& r@.end <= i32::MAX
    &&& 0 <= r@.start + offset
    &&& r@.end + offset <= i32::MAX
    &&& r2@.start == r@.start + offset
    &&& r2@.end == r@.end + offset
}

/// An identifier that the move back would catch was one that the first move
/// moved: nothing outside `r` lies in `r2`.
pub open spec fn only_moved_ids_in(r: RangeInclusive<u32>, r2: RangeInclusive<u32>, x: u32) -> bool {
    in_id_range(r2, x) ==> in_id_range(r, x)
}

/// Moving the identifiers of a range by an offset, then those of the moved
/// range back by the opposite offset, gives every identifier back, provided
/// no identifier outside the first range lies in the moved one.
pub proof fn lemma_renumber_then_back(
    r: RangeInclusive<u32>,
    r2: RangeInclusive<u32>,
    offset: i32,
    back: i32,
    x: u32,
)
    requires
        moved_range(r, r2, offset, back),
        only_moved_ids_in(r, r2, x),
    ensures
        renumber_fits(r, offset, x),
        renumber_fits(r2, back, renumbered(r, offset, x)),
        renumbered(r2, back, renumbered(r, offset, x)) == x,
{
    if in_id_range(r, x) {
        let y = shifted_id(x, offset);
        assert(y == x + offset);
        assert(in_id_range(r2, y));
        assert(shifted_id(y, back) == x);
    }
}

impl ModelView {
    /// Every cell identifier (cell numbers and cell references) that lies in
    /// `r2` also lies in `r`.
    pub open spec fn only_moved_cell_ids_in(self, r: RangeInclusive<u32>, r2: RangeInclusive<u32>) -> bool {
        forall|i: int|
            0 <= i < self.cells.len() ==> {
                &&& only_moved_ids_in(r, r2, (#[trigger] self.cells[i]).cell_id.value)
                &&& forall|j: int|
                    0 <= j < self.cells[i].geometry.len() ==> ((#[trigger] self.cells[i].geometry[j]) matches GeoElementSpanned::Cell(c)
                        ==> only_moved_ids_in(r, r2, c.value))
            }
    }
}

/// Renumbering the cells of a range, then those of the moved range back,
/// gives the model back, provided no cell identifier outside the first range
/// lies in the moved one.
pub proof fn lemma_cells_renumber_then_back(
    m: ModelView,
    r: RangeInclusive<u32>,
    r2: RangeInclusive<u32>,
    offset: i32,
    back: i32,
)
    requires
        moved_range(r, r2, offset, back),
        m.only_moved_cell_ids_in(r, r2),
    ensures
        m.cell_ids_fit(r, offset),
        m.with_cells_renumbered(r, offset).cell_ids_fit(r2, back),
        m.with_cells_renumbered(r, offset).with_cells_renumbered(r2, back) == m,
{
    let m1 = m.with_cells_renumbered(r, offset);
    let m2 = m1.with_cells_renumbered(r2, back);
    assert forall|x: u32| only_moved_ids_in(r, r2, x) implies {
        &&& renumber_fits(r, offset, x)
        &&& renumber_fits(r2, back, renumbered(r, offset, x))
        &&& renumbered(r2, back, renumbered(r, offset, x)) == x
    } by {
        lemma_renumber_then_back(r, r2, offset, back, x);
    }
    assert forall|i: int| 0 <= i < m.cells.len() implies (#[trigger] m.cells[i]).cell_ids_fit(r, offset) by {
        let c = m.cells[i];
        assert forall|j: int| 0 <= j < c.geometry.len() implies (#[trigger] c.geometry[j]).cell_refs_fit(r, offset) by {
            assert(m.cells[i].geometry[j] == c.geometry[j]);
        }
    }
    assert forall|i: int| 0 <= i < m1.cells.len() implies (#[trigger] m1.cells[i]).cell_ids_fit(r2, back) && m2.cells[i] == m.cells[i] by {
        let c = m.cells[i];
        let c1 = m1.cells[i];
        assert(c1 == c.with_cells_renumbered(r, offset));
        assert forall|j: int| 0 <= j < c1.geometry.len() implies (#[trigger] c1.geometry[j]).cell_refs_fit(r2, back) by {
            assert(m.cells[i].geometry[j] == c.geometry[j]);
        }
        let c2 = c1.with_cells_renumbered(r2, back);
        assert forall|j: int| 0 <= j < c.geometry.len() implies #[trigger] c2.geometry[j] == c.geometry[j] by {
            assert(m.cells[i].geometry[j] == c.geometry[j]);
        }
        assert(c2.geometry =~= c.geometry);
        assert(c2 == c);
    }
    assert(m2.cells =~= m.cells);
}

/// Moving a surface reference and back gives it back, with its sense, when
/// the moved range holds no surface number 0 and no other surface number.
pub proof fn lemma_surface_ref_then_back(
    r: RangeInclusive<u32>,
    r2: RangeInclusive<u32>,
    offset: i32,
    back: i32,
    v: i32,
)
    requires
        moved_range(r, r2, offset, back),
        1 <= r@.start + offset,
        only_moved_ids_in(r, r2, id_magnitude(v)),
    ensures
        surface_ref_fits(r, offset, v),
        surface_ref_fits(r2, back, renumbered_surface_ref(r, offset, v)),
        renumbered_surface_ref(r2, back, renumbered_surface_ref(r, offset, v)) == v,
{
    if in_id_range(r, id_magnitude(v)) {
        let w = renumbered_surface_ref(r, offset, v);
        if v > 0 {
            assert(offset * sign_of(v) == offset);
            assert(w == v + offset);
            assert(back * sign_of(w) == back);
        } else if v < 0 {
            assert(sign_of(v) == -1);
            assert(offset * sign_of(v) == -offset);
            assert(w == v - offset);
            assert(sign_of(w) == -1);
            assert(back * sign_of(w) == -back);
        } else {
            assert(offset * sign_of(v) == 0);
        }
    }
}

/// Renumbering `x` over `r` by `offset`, then over `r2` by `back`, fits
/// and gives `x` back.
pub open spec fn round_trips(r: RangeInclusive<u32>, r2: RangeInclusive<u32>, offset: i32, back: i32, x: u32) -> bool {
    &&& renumber_fits(r, offset, x)
    &&& renumber_fits(r2, back, renumbered(r, offset, x))
    &&& renumbered(r2, back, renumbered(r, offset, x)) == x
}

impl ModelView {
    /// Every surface number (of surface cards and of references in cell
    /// geometries) that lies in `r2` also lies in `r`.
    pub open spec fn only_moved_surface_ids_in(self, r: RangeInclusive<u32>, r2: RangeInclusive<u32>) -> bool {
        &&& forall|i: int|
            0 <= i < self.surfaces.len() ==> only_moved_ids_in(r, r2, (#[trigger] self.surfaces[i]).surface_id.value)
        &&& forall|i: int, j: int|
            0 <= i < self.cells.len() && 0 <= j < self.cells[i].geometry.len() ==> ((#[trigger] self.cells[i].geometry[j]) matches GeoElementSpanned::Surface(sref)
                ==> only_moved_ids_in(r, r2, id_magnitude(sref.value)))
    }

    /// Every material number (of cells and of material cards) that lies in
    /// `r2` also lies in `r`.
    pub open spec fn only_moved_material_ids_in(self, r: RangeInclusive<u32>, r2: RangeInclusive<u32>) -> bool {
        &&& forall|i: int|
            0 <= i < self.cells.len() ==> only_moved_ids_in(r, r2, (#[trigger] self.cells[i]).material_id.value)
        &&& forall|i: int|
            0 <= i < self.data_cards.len() ==> ((#[trigger] self.data_cards[i]) matches DataCard::Material(mc)
                ==> only_moved_ids_in(r, r2, mc.material_id.value))
    }

    /// Every transformation number (of `FILL` parameters, of surfaces and of
    /// transformation cards) that lies in `r2` also lies in `r`.
    pub open spec fn only_moved_transform_ids_in(self, r: RangeInclusive<u32>, r2: RangeInclusive<u32>) -> bool {
        &&& forall|i: int, j: int|
            0 <= i < self.cells.len() && 0 <= j < self.cells[i].params.len() ==> ((#[trigger] self.cells[i].params[j]).param_type matches ParamType::Fill(fd)
                ==> (fd.transform matches Some(t) ==> only_moved_ids_in(r, r2, t)))
        &&& forall|i: int|
            0 <= i < self.surfaces.len() ==> ((#[trigger] self.surfaces[i]).transform_id matches Some(t)
                ==> only_moved_ids_in(r, r2, t.value))
        &&& forall|i: int|
            0 <= i < self.data_cards.len() ==> ((#[trigger] self.data_cards[i]) matches DataCard::Transform(tc)
                ==> only_moved_ids_in(r, r2, tc.transform_id.value))
    }

    /// Every universe number (of `U` and `FILL` parameters) that lies in `r2`
    /// also lies in `r`.
    pub open spec fn only_moved_universe_ids_in(self, r: RangeInclusive<u32>, r2: RangeInclusive<u32>) -> bool {
        forall|i: int, j: int|
            0 <= i < self.cells.len() && 0 <= j < self.cells[i].params.len() ==> match (#[trigger] self.cells[i].params[j]).param_type {
                ParamType::U(u) => only_moved_ids_in(r, r2, u),
                ParamType::Fill(fd) => only_moved_ids_in(r, r2, fd.universe),
                _ => true,
            }
    }
}

/// Renumbering the surfaces of a range, then those of the moved range back,
/// gives the model back, provided the moved range holds no surface number 0
/// and no surface number from outside the first range.
pub proof fn lemma_surfaces_renumber_then_back(
    m: ModelView,
    r: RangeInclusive<u32>,
    r2: RangeInclusive<u32>,
    offset: i32,
    back: i32,
)
    requires
        moved_range(r, r2, offset, back),
        1 <= r@.start + offset,
        m.only_moved_surface_ids_in(r, r2),
    ensures
        m.surface_ids_fit(r, offset),
        m.with_surfaces_renumbered(r, offset).surface_ids_fit(r2, back),
        m.with_surfaces_renumbered(r, offset).with_surfaces_renumbered(r2, back) == m,
{
    let m1 = m.with_surfaces_renumbered(r, offset);
    let m2 = m1.with_surfaces_renumbered(r2, back);
    assert forall|x: u32| only_moved_ids_in(r, r2, x) implies round_trips(r, r2, offset, back, x) by {
        lemma_renumber_then_back(r, r2, offset, back, x);
    }
    assert forall|v: i32| only_moved_ids_in(r, r2, id_magnitude(v)) implies {
        &&& surface_ref_fits(r, offset, v)
        &&& surface_ref_fits(r2, back, renumbered_surface_ref(r, offset, v))
        &&& renumbered_surface_ref(r2, back, renumbered_surface_ref(r, offset, v)) == v
    } by {
        lemma_surface_ref_then_back(r, r2, offset, back, v);
    }
    assert forall|i: int| 0 <= i < m.cells.len() implies (#[trigger] m.cells[i]).surface_refs_fit(r, offset)
        && m1.cells[i].surface_refs_fit(r2, back) && m2.cells[i] == m.cells[i] by {
        let c = m.cells[i];
        let c1 = m1.cells[i];
        let c2 = m2.cells[i];
        assert forall|j: int| 0 <= j < c.geometry.len() implies (#[trigger] c.geometry[j]).surface_refs_fit(r, offset)
            && c1.geometry[j].surface_refs_fit(r2, back) && c2.geometry[j] == c.geometry[j] by {
            assert(m.cells[i].geometry[j] == c.geometry[j]);
        }
        assert forall|j: int| 0 <= j < c1.geometry.len() implies (#[trigger] c1.geometry[j]).surface_refs_fit(r2, back) by {
            assert(c.geometry[j].surface_refs_fit(r, offset));
        }
        assert(c2.geometry =~= c.geometry);
    }
    assert forall|i: int| 0 <= i < m1.cells.len() implies (#[trigger] m1.cells[i]).surface_refs_fit(r2, back) by {
        assert(m.cells[i].surface_refs_fit(r, offset));
    }
    assert forall|i: int| 0 <= i < m.surfaces.len() implies renumber_fits(r, offset, (#[trigger] m.surfaces[i]).surface_id.value)
        && renumber_fits(r2, back, m1.surfaces[i].surface_id.value) && m2.surfaces[i] == m.surfaces[i] by {
        assert(round_trips(r, r2, offset, back, m.surfaces[i].surface_id.value));
    }
    assert forall|i: int| 0 <= i < m1.surfaces.len() implies renumber_fits(r2, back, (#[trigger] m1.surfaces[i]).surface_id.value) by {
        assert(renumber_fits(r, offset, m.surfaces[i].surface_id.value));
    }
    assert(m2.cells =~= m.cells);
    assert(m2.surfaces =~= m.surfaces);
}

/// Renumbering the materials of a range, then those of the moved range back,
/// gives the model back, provided no material number outside the first range
/// lies in the moved one.
pub proof fn lemma_materials_renumber_then_back(
    m: ModelView,
    r: RangeInclusive<u32>,
    r2: RangeInclusive<u32>,
    offset: i32,
    back: i32,
)
    requires
        moved_range(r, r2, offset, back),
        m.only_moved_material_ids_in(r, r2),
    ensures
        m.material_ids_fit(r, offset),
        m.with_materials_renumbered(r, offset).material_ids_fit(r2, back),
        m.with_materials_renumbered(r, offset).with_materials_renumbered(r2, back) == m,
{
    let m1 = m.with_materials_renumbered(r, offset);
    let m2 = m1.with_materials_renumbered(r2, back);
    assert forall|x: u32| only_moved_ids_in(r, r2, x) implies round_trips(r, r2, offset, back, x) by {
        lemma_renumber_then_back(r, r2, offset, back, x);
    }
    assert forall|i: int| 0 <= i < m.cells.len() implies renumber_fits(r, offset, (#[trigger] m.cells[i]).material_id.value)
        && renumber_fits(r2, back, m1.cells[i].material_id.value) && m2.cells[i] == m.cells[i] by {
        assert(round_trips(r, r2, offset, back, m.cells[i].material_id.value));
    }
    assert forall|i: int| 0 <= i < m1.cells.len() implies renumber_fits(r2, back, (#[trigger] m1.cells[i]).material_id.value) by {
        assert(renumber_fits(r, offset, m.cells[i].material_id.value));
    }
    assert forall|i: int| 0 <= i < m.data_cards.len() implies (#[trigger] m.data_cards[i]).material_fits(r, offset)
        && m1.data_cards[i].material_fits(r2, back) && m2.data_cards[i] == m.data_cards[i] by {
        match m.data_cards[i] {
            DataCard::Material(mc) => {
                assert(round_trips(r, r2, offset, back, mc.material_id.value));
            },
            _ => {},
        }
    }
    assert forall|i: int| 0 <= i < m1.data_cards.len() implies (#[trigger] m1.data_cards[i]).material_fits(r2, back) by {
        assert(m.data_cards[i].material_fits(r, offset));
    }
    assert(m2.cells =~= m.cells);
    assert(m2.data_cards =~= m.data_cards);
}

/// Renumbering the transformations of a range, then those of the moved range
/// back, gives the model back, provided no transformation number outside the
/// first range lies in the moved one.
pub proof fn lemma_transformations_renumber_then_back(
    m: ModelView,
    r: RangeInclusive<u32>,
    r2: RangeInclusive<u32>,
    offset: i32,
    back: i32,
)
    requires
        moved_range(r, r2, offset, back),
        m.only_moved_transform_ids_in(r, r2),
    ensures
        m.transform_ids_fit(r, offset),
        m.with_transforms_renumbered(r, offset).transform_ids_fit(r2, back),
        m.with_transforms_renumbered(r, offset).with_transforms_renumbered(r2, back) == m,
{
    let m1 = m.with_transforms_renumbered(r, offset);
    let m2 = m1.with_transforms_renumbered(r2, back);
    assert forall|x: u32| only_moved_ids_in(r, r2, x) implies round_trips(r, r2, offset, back, x) by {
        lemma_renumber_then_back(r, r2, offset, back, x);
    }
    assert forall|i: int| 0 <= i < m.cells.len() implies (#[trigger] m.cells[i]).transforms_fit(r, offset)
        && m1.cells[i].transforms_fit(r2, back) && m2.cells[i] == m.cells[i] by {
        let c = m.cells[i];
        let c1 = m1.cells[i];
        let c2 = m2.cells[i];
        assert forall|j: int| 0 <= j < c.params.len() implies (#[trigger] c.params[j]).transforms_fit(r, offset)
            && c1.params[j].transforms_fit(r2, back) && c2.params[j] == c.params[j] by {
            assert(m.cells[i].params[j] == c.params[j]);
            match c.params[j].param_type {
                ParamType::Fill(fd) => {
                    match fd.transform {
                        Some(t) => {
                            assert(round_trips(r, r2, offset, back, t));
                        },
                        None => {},
                    }
                },
                _ => {},
            }
        }
        assert forall|j: int| 0 <= j < c1.params.len() implies (#[trigger] c1.params[j]).transforms_fit(r2, back) by {
            assert(c.params[j].transforms_fit(r, offset));
        }
        assert(c2.params =~= c.params);
    }
    assert forall|i: int| 0 <= i < m1.cells.len() implies (#[trigger] m1.cells[i]).transforms_fit(r2, back) by {
        assert(m.cells[i].transforms_fit(r, offset));
    }
    assert forall|i: int| 0 <= i < m.surfaces.len() implies (#[trigger] m.surfaces[i]).transform_fits(r, offset)
        && m1.surfaces[i].transform_fits(r2, back) && m2.surfaces[i] == m.surfaces[i] by {
        match m.surfaces[i].transform_id {
            Some(t) => {
                assert(round_trips(r, r2, offset, back, t.value));
            },
            None => {},
        }
    }
    assert forall|i: int| 0 <= i < m1.surfaces.len() implies (#[trigger] m1.surfaces[i]).transform_fits(r2, back) by {
        assert(m.surfaces[i].transform_fits(r, offset));
    }
    assert forall|i: int| 0 <= i < m.data_cards.len() implies (#[trigger] m.data_cards[i]).transform_fits(r, offset)
        && m1.data_cards[i].transform_fits(r2, back) && m2.data_cards[i] == m.data_cards[i] by {
        match m.data_cards[i] {
            DataCard::Transform(tc) => {
                assert(round_trips(r, r2, offset, back, tc.transform_id.value));
            },
            _ => {},
        }
    }
    assert forall|i: int| 0 <= i < m1.data_cards.len() implies (#[trigger] m1.data_cards[i]).transform_fits(r2, back) by {
        assert(m.data_cards[i].transform_fits(r, offset));
    }
    assert(m2.cells =~= m.cells);
    assert(m2.surfaces =~= m.surfaces);
    assert(m2.data_cards =~= m.data_cards);
}

/// Renumbering the universes of a range, then those of the moved range back,
/// gives the model back, provided no universe number outside the first range
/// lies in the moved one.
pub proof fn lemma_universes_renumber_then_back(
    m: ModelView,
    r: RangeInclusive<u32>,
    r2: RangeInclusive<u32>,
    offset: i32,
    back: i32,
)
    requires
        moved_range(r, r2, offset, back),
        m.only_moved_universe_ids_in(r, r2),
    ensures
        m.universe_ids_fit(r, offset),
        m.with_universes_renumbered(r, offset).universe_ids_fit(r2, back),
        m.with_universes_renumbered(r, offset).with_universes_renumbered(r2, back) == m,
{
    let m1 = m.with_universes_renumbered(r, offset);
    let m2 = m1.with_universes_renumbered(r2, back);
    assert forall|x: u32| only_moved_ids_in(r, r2, x) implies round_trips(r, r2, offset, back, x) by {
        lemma_renumber_then_back(r, r2, offset, back, x);
    }
    assert forall|i: int| 0 <= i < m.cells.len() implies (#[trigger] m.cells[i]).universes_fit(r, offset)
        && m1.cells[i].universes_fit(r2, back) && m2.cells[i] == m.cells[i] by {
        let c = m.cells[i];
        let c1 = m1.cells[i];
        let c2 = m2.cells[i];
        assert forall|j: int| 0 <= j < c.params.len() implies (#[trigger] c.params[j]).universes_fit(r, offset)
            && c1.params[j].universes_fit(r2, back) && c2.params[j] == c.params[j] by {
            assert(m.cells[i].params[j] == c.params[j]);
            match c.params[j].param_type {
                ParamType::U(u) => {
                    assert(round_trips(r, r2, offset, back, u));
                },
                ParamType::Fill(fd) => {
                    assert(round_trips(r, r2, offset, back, fd.universe));
                },
                _ => {},
            }
        }
        assert forall|j: int| 0 <= j < c1.params.len() implies (#[trigger] c1.params[j]).universes_fit(r2, back) by {
            assert(c.params[j].universes_fit(r, offset));
        }
        assert(c2.params =~= c.params);
    }
    assert forall|i: int| 0 <= i < m1.cells.len() implies (#[trigger] m1.cells[i]).universes_fit(r2, back) by {
        assert(m.cells[i].universes_fit(r, offset));
    }
    assert(m2.cells =~= m.cells);
}

/// Renumbering cells keeps every cell reference pointing at the same cell:
/// a reference that names a cell's number names its new number afterwards.
pub proof fn lemma_cells_keep_links(m: ModelView, r: RangeInclusive<u32>, offset: i32, i: int, a: int, j: int)
    requires
        0 <= i < m.cells.len(),
        0 <= a < m.cells[i].geometry.len(),
        0 <= j < m.cells.len(),
        m.cells[i].geometry[a] matches GeoElementSpanned::Cell(c) && c.value == m.cells[j].cell_id.value,
    ensures
        ({
            let m2 = m.with_cells_renumbered(r, offset);
            m2.cells[i].geometry[a] matches GeoElementSpanned::Cell(c2) && c2.value == m2.cells[j].cell_id.value
        }),
{
}

/// Renumbering surfaces keeps every surface reference naming the same
/// surface, with its sense, as long as the surface is not surface 0 and its
/// moved number stays within the non-negative values of an `i32`.
pub proof fn lemma_surfaces_keep_links(m: ModelView, r: RangeInclusive<u32>, offset: i32, i: int, a: int, j: int)
    requires
        0 <= i < m.cells.len(),
        0 <= a < m.cells[i].geometry.len(),
        0 <= j < m.surfaces.len(),
        m.cells[i].geometry[a] matches GeoElementSpanned::Surface(sref) && {
            let x = m.surfaces[j].surface_id.value;
            &&& id_magnitude(sref.value) == x
            &&& sref.value != 0
            &&& x <= i32::MAX
            &&& surface_ref_fits(r, offset, sref.value)
            &&& in_id_range(r, x) ==> 0 <= x + offset
        },
    ensures
        ({
            let m2 = m.with_surfaces_renumbered(r, offset);
            &&& m2.cells[i].geometry[a] matches GeoElementSpanned::Surface(s2) && id_magnitude(s2.value)
                == m2.surfaces[j].surface_id.value
            &&& m.cells[i].geometry[a] matches GeoElementSpanned::Surface(sref) && m2.cells[i].geometry[a] matches GeoElementSpanned::Surface(s2)
                && (sref.value < 0 ==> s2.value <= 0) && (sref.value > 0 ==> s2.value >= 0)
        }),
{
    let m2 = m.with_surfaces_renumbered(r, offset);
    assert(m2.cells[i].geometry[a] == m.cells[i].geometry[a].with_surfaces_renumbered(r, offset));
    assert(m2.surfaces[j] == m.surfaces[j].with_surfaces_renumbered(r, offset));
    match m.cells[i].geometry[a] {
        GeoElementSpanned::Surface(sref) => {
            let v = sref.value;
            if in_id_range(r, id_magnitude(v)) {
                if v > 0 {
                    assert(offset * sign_of(v) == offset);
                } else {
                    assert(sign_of(v) == -1);
                    assert(offset * sign_of(v) == -offset);
                }
            }
        },
        _ => {},
    }
}

/// Renumbering materials keeps every cell pointing at the same material
/// card: a cell whose material is a card's number has that card's new number
/// afterwards.
pub proof fn lemma_materials_keep_links(m: ModelView, r: RangeInclusive<u32>, offset: i32, i: int, j: int)
    requires
        0 <= i < m.cells.len(),
        0 <= j < m.data_cards.len(),
        m.data_cards[j] matches DataCard::Material(mc) && mc.material_id.value == m.cells[i].material_id.value,
    ensures
        ({
            let m2 = m.with_materials_renumbered(r, offset);
            m2.data_cards[j] matches DataCard::Material(mc2) && mc2.material_id.value == m2.cells[i].material_id.value
        }),
{
}

/// Renumbering transformations keeps every `FILL` and every surface pointing
/// at the same transformation card.
pub proof fn lemma_transformations_keep_links(
    m: ModelView,
    r: RangeInclusive<u32>,
    offset: i32,
    i: int,
    a: int,
    s: int,
    j: int,
)
    requires
        0 <= i < m.cells.len(),
        0 <= a < m.cells[i].params.len(),
        0 <= s < m.surfaces.len(),
        0 <= j < m.data_cards.len(),
    ensures
        ({
            let m2 = m.with_transforms_renumbered(r, offset);
            &&& (m.cells[i].params[a].param_type matches ParamType::Fill(fd) && fd.transform
                matches Some(t) && m.data_cards[j] matches DataCard::Transform(tc) && t
                == tc.transform_id.value) ==> (m2.cells[i].params[a].param_type matches ParamType::Fill(
                fd2) && fd2.transform matches Some(t2) && m2.data_cards[j] matches DataCard::Transform(
                tc2) && t2 == tc2.transform_id.value)
            &&& (m.surfaces[s].transform_id matches Some(t) && m.data_cards[j] matches DataCard::Transform(
                tc) && t.value == tc.transform_id.value) ==> (m2.surfaces[s].transform_id matches Some(
                t2) && m2.data_cards[j] matches DataCard::Transform(tc2) && t2.value
                == tc2.transform_id.value)
        }),
{
    let m2 = m.with_transforms_renumbered(r, offset);
    assert(m2.cells[i].params[a] == m.cells[i].params[a].with_transforms_renumbered(r, offset));
}

/// Renumbering universes keeps every `FILL` pointing at the cells that make
/// up its universe: a `FILL` whose universe is a cell's `U` has that cell's
/// new `U` afterwards.
pub proof fn lemma_universes_keep_links(
    m: ModelView,
    r: RangeInclusive<u32>,
    offset: i32,
    i: int,
    a: int,
    j: int,
    b: int,
)
    requires
        0 <= i < m.cells.len(),
        0 <= a < m.cells[i].params.len(),
        0 <= j < m.cells.len(),
        0 <= b < m.cells[j].params.len(),
        m.cells[i].params[a].param_type matches ParamType::Fill(fd) && m.cells[j].params[b].param_type matches ParamType::U(
            u,
        ) && fd.universe == u,
    ensures
        ({
            let m2 = m.with_universes_renumbered(r, offset);
            m2.cells[i].params[a].param_type matches ParamType::Fill(fd2) && m2.cells[j].params[b].param_type matches ParamType::U(
                u2,
            ) && fd2.universe == u2
        }),
{
    let m2 = m.with_universes_renumbered(r, offset);
    assert(m2.cells[i].params[a] == m.cells[i].params[a].with_universes_renumbered(r, offset));
    assert(m2.cells[j].params[b] == m.cells[j].params[b].with_universes_renumbered(r, offset));
}

} // verus!
