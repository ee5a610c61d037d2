use migjorn::cell_card::{CellCard, GeoElementSpanned, Param, ParamType};
use migjorn::data_card::{MaterialCard, TransformCard};
use migjorn::parser_utils::spanned::{parse_spanned_u32, Span, Spanned};
use migjorn::surface_card::SurfaceCard;
use migjorn::{DataCard, FillData, Model};

/// The deck that `mock_model` holds, with the spans of its identifiers.
const MOCK_DECK: &str = "Mock model title
10 101 -1.23 -1 #100 IMP:N=1 FILL=1 (67)
20 101 -1.23  2 #200 IMP:N=1 FILL=1 (67)
30 102 -1.23 -3 #300 IMP:N=1 FILL=2 (3)

1 67 SO 10
2 SO 20
3 3 SO 30

M101 92235.70c 1.0
M102 92235.70c 1.0
*TR3 1 1 1 
TR67 2 2 2
";

fn mock_model() -> Model {
    Model {
        cells: vec![
            CellCard {
                cell_id: Spanned::new(10, Span(17, 19)),
                material_id: Spanned::new(101, Span(20, 23)),
                geometry: vec![
                    GeoElementSpanned::Surface(Spanned::new(-1, Span(24, 26))),
                    GeoElementSpanned::Cell(Spanned::new(100, Span(34, 37))),
                ],
                params: vec![
                    Param { param_type: ParamType::Other, span: Span(38, 45) },
                    Param { param_type: ParamType::Fill(FillData { universe: 1, transform: Some(67) }), span: Span(46, 57) },
                ],
            },
            CellCard {
                cell_id: Spanned::new(20, Span(58, 60)),
                material_id: Spanned::new(101, Span(61, 64)),
                geometry: vec![
                    GeoElementSpanned::Surface(Spanned::new(2, Span(72, 73))),
                    GeoElementSpanned::Cell(Spanned::new(200, Span(75, 78))),
                ],
                params: vec![
                    Param { param_type: ParamType::Other, span: Span(79, 86) },
                    Param { param_type: ParamType::Fill(FillData { universe: 1, transform: Some(67) }), span: Span(87, 98) },
                ],
            },
            CellCard {
                cell_id: Spanned::new(30, Span(99, 101)),
                material_id: Spanned::new(102, Span(102, 105)),
                geometry: vec![
                    GeoElementSpanned::Surface(Spanned::new(-3, Span(112, 114))),
                    GeoElementSpanned::Cell(Spanned::new(300, Span(116, 119))),
                ],
                params: vec![
                    Param { param_type: ParamType::Other, span: Span(120, 127) },
                    Param { param_type: ParamType::Fill(FillData { universe: 2, transform: Some(3) }), span: Span(128, 138) },
                ],
            },
        ],
        surfaces: vec![
            SurfaceCard { surface_id: Spanned::new(1, Span(140, 141)), transform_id: Some(Spanned::new(67, Span(142, 144))) },
            SurfaceCard { surface_id: Spanned::new(2, Span(151, 152)), transform_id: None },
            SurfaceCard { surface_id: Spanned::new(3, Span(159, 160)), transform_id: Some(Spanned::new(3, Span(161, 162))) },
        ],
        data_cards: vec![
            DataCard::Material(MaterialCard { material_id: Spanned::new(101, Span(171, 174)) }),
            DataCard::Material(MaterialCard { material_id: Spanned::new(102, Span(190, 193)) }),
            DataCard::Transform(TransformCard { transform_id: Spanned::new(3, Span(211, 212)) }),
            DataCard::Transform(TransformCard { transform_id: Spanned::new(67, Span(222, 224)) }),
        ],
    }
}

/// The cards of the deck with universes:
///
/// ```text
/// Mock model title
/// 10 101 -1.23 -1 IMP:N=1 FILL=101 (67)
/// 20 101 -1.23  2 IMP:N=1 U=101 (67)
/// 30 102 -1.23 -3 IMP:N=1 U=105 (3)
///
/// 1 67 SO 10
/// 2 SO 20
/// 3 3 SO 30
///
/// M101 92235.70c 1.0
/// ```
fn universe_model() -> Model {
    Model {
        cells: vec![
            CellCard {
                cell_id: Spanned::new(10, Span(17, 19)),
                material_id: Spanned::new(101, Span(20, 23)),
                geometry: vec![
                    GeoElementSpanned::Surface(Spanned::new(-1, Span(24, 26))),
                ],
                params: vec![
                    Param { param_type: ParamType::Other, span: Span(33, 40) },
                    Param { param_type: ParamType::Fill(FillData { universe: 101, transform: Some(67) }), span: Span(41, 54) },
                ],
            },
            CellCard {
                cell_id: Spanned::new(20, Span(55, 57)),
                material_id: Spanned::new(101, Span(58, 61)),
                geometry: vec![
                    GeoElementSpanned::Surface(Spanned::new(2, Span(69, 70))),
                ],
                params: vec![
                    Param { param_type: ParamType::Other, span: Span(71, 78) },
                    Param { param_type: ParamType::U(101), span: Span(79, 89) },
                ],
            },
            CellCard {
                cell_id: Spanned::new(30, Span(90, 92)),
                material_id: Spanned::new(102, Span(93, 96)),
                geometry: vec![
                    GeoElementSpanned::Surface(Spanned::new(-3, Span(103, 105))),
                ],
                params: vec![
                    Param { param_type: ParamType::Other, span: Span(106, 113) },
                    Param { param_type: ParamType::U(105), span: Span(114, 123) },
                ],
            },
        ],
        surfaces: vec![
            SurfaceCard { surface_id: Spanned::new(1, Span(125, 126)), transform_id: Some(Spanned::new(67, Span(127, 129))) },
            SurfaceCard { surface_id: Spanned::new(2, Span(136, 137)), transform_id: None },
            SurfaceCard { surface_id: Spanned::new(3, Span(144, 145)), transform_id: Some(Spanned::new(3, Span(146, 147))) },
        ],
        data_cards: vec![
            DataCard::Material(MaterialCard { material_id: Spanned::new(101, Span(156, 159)) }),
        ],
    }
}

fn cell_geo_surface_refs(cell: &CellCard) -> Vec<i32> {
    cell.geometry
        .iter()
        .filter_map(|g| {
            if let GeoElementSpanned::Surface(r) = g {
                Some(r.value)
            } else {
                None
            }
        })
        .collect()
}

fn cell_geo_cell_refs(cell: &CellCard) -> Vec<u32> {
    cell.geometry
        .iter()
        .filter_map(|g| {
            if let GeoElementSpanned::Cell(r) = g {
                Some(r.value)
            } else {
                None
            }
        })
        .collect()
}

#[test]
fn cells_in_range_are_renumbered() {
    // Cells 10 and 20 are in range [10..=20]; cell 30 is outside.
    let mut model = mock_model();

    model.renumber_cells(10..=20, 5);

    let ids: Vec<u32> = model.cells.iter().map(|c| c.cell_id.value).collect();
    assert_eq!(ids, vec![15, 25, 30]);
}

#[test]
fn geometry_cell_refs_in_range_are_renumbered() {
    // Cell 1 has geometry referencing cells 10 and 30 via the complement (#) operator.
    // Only the reference to cell 10 (inside range [10..=20]) should change.
    let mut model = mock_model();

    model.renumber_cells(100..=200, 5);

    let refs = cell_geo_cell_refs(&model.cells[0]);
    assert_eq!(refs, vec![105]);
    let refs = cell_geo_cell_refs(&model.cells[1]);
    assert_eq!(refs, vec![205]);
    let refs = cell_geo_cell_refs(&model.cells[2]);
    assert_eq!(refs, vec![300]);
}

#[test]
fn negative_offset_renumbers_correctly() {
    let mut model = mock_model();

    model.renumber_cells(10..=20, -5);

    let ids: Vec<u32> = model.cells.iter().map(|c| c.cell_id.value).collect();
    // Both cell IDs should decrease by 5
    assert_eq!(ids, vec![5, 15, 30]);

    // The cell reference inside cell 20 should also decrease by 5
    model.renumber_cells(200..=200, -199);
    let refs = cell_geo_cell_refs(&model.cells[1]);
    assert_eq!(refs, vec![1]);
}

#[test]
fn surface_ids_in_range_are_renumbered() {
    let mut model = mock_model();

    model.renumber_surfaces(1..=2, 10);

    let ids: Vec<u32> = model.surfaces.iter().map(|s| s.surface_id.value).collect();
    assert_eq!(ids, vec![11, 12, 3]);

    let refs = cell_geo_surface_refs(&model.cells[0]);
    assert_eq!(refs, vec![-11]);
    let refs = cell_geo_surface_refs(&model.cells[1]);
    assert_eq!(refs, vec![12]);
    let refs = cell_geo_surface_refs(&model.cells[2]);
    assert_eq!(refs, vec![-3]);
}

#[test]
fn material_numbers_in_range_are_renumbered() {
    let mut model = mock_model();
    model.renumber_materials(101..=101, 10);

    // Check cells
    let material_numbers: Vec<u32> = model.cells.iter().map(|c| c.material_id.value).collect();
    assert_eq!(material_numbers, vec![111, 111, 102]);

    // Check data cards
    let material_numbers: Vec<u32> = model
        .data_cards
        .iter()
        .filter_map(|dc| {
            if let DataCard::Material(mat_card) = dc {
                Some(mat_card.material_id.value)
            } else {
                None
            }
        })
        .collect();
    assert_eq!(material_numbers, vec![111, 102]);
}

#[test]
fn transformation_numbers_in_range_are_renumbered() {
    let mut model = mock_model();
    model.renumber_transformations(50..=100, 10);

    // Check cell FILL parameters
    let fill_transforms: Vec<Option<u32>> = model
        .cells
        .iter()
        .map(|c| {
            c.params.iter().find_map(|p| {
                if let ParamType::Fill(FillData { transform, .. }) = &p.param_type {
                    *transform
                } else {
                    None
                }
            })
        })
        .collect();
    assert_eq!(fill_transforms, vec![Some(77), Some(77), Some(3)]);

    // Check surface cards
    let transform_numbers: Vec<u32> = model
        .surfaces
        .iter()
        .filter_map(|s| s.transform_id.as_ref().map(|t| t.value))
        .collect();
    assert_eq!(transform_numbers, vec![77, 3]);

    // Check data cards
    let transformation_numbers: Vec<u32> = model
        .data_cards
        .iter()
        .filter_map(|dc| {
            if let DataCard::Transform(trans_card) = dc {
                Some(trans_card.transform_id.value)
            } else {
                None
            }
        })
        .collect();
    assert_eq!(transformation_numbers, vec![3, 77]);
}

#[test]
fn universe_numbers_in_range_are_renumbered() {
    let mut model = universe_model();
    model.renumber_universes(101..=101, 10);

    // Check cell U parameters
    let universe_params: Vec<Option<u32>> = model
        .cells
        .iter()
        .map(|c| {
            c.params.iter().find_map(|p| {
                if let ParamType::U(universe_id) = &p.param_type {
                    Some(*universe_id)
                } else {
                    None
                }
            })
        })
        .collect();
    assert_eq!(universe_params, vec![None, Some(111), Some(105)]);

    // Check cell FILL parameters
    let fill_universes: Vec<Option<u32>> = model
        .cells
        .iter()
        .map(|c| {
            c.params.iter().find_map(|p| {
                if let ParamType::Fill(FillData { universe, .. }) = &p.param_type {
                    Some(*universe)
                } else {
                    None
                }
            })
        })
        .collect();
    assert_eq!(fill_universes, vec![Some(111), None, None]);
}

#[test]
fn mock_model_spans_read_back_as_its_identifiers() {
    let model = mock_model();
    let deck = MOCK_DECK.as_bytes();
    let mut ids: Vec<Spanned<u32>> = Vec::new();
    for cell in &model.cells {
        ids.push(cell.cell_id.clone());
        ids.push(cell.material_id.clone());
    }
    for surface in &model.surfaces {
        ids.push(surface.surface_id.clone());
        if let Some(t) = &surface.transform_id {
            ids.push(t.clone());
        }
    }
    for card in &model.data_cards {
        match card {
            DataCard::Material(m) => ids.push(m.material_id.clone()),
            DataCard::Transform(t) => ids.push(t.transform_id.clone()),
            DataCard::Other(_) => {}
        }
    }
    for id in ids {
        let mut pos = id.span.0;
        let read = parse_spanned_u32(deck, &mut pos).unwrap();
        assert_eq!(read, id);
    }
}

#[test]
fn renumbering_keeps_spans_and_other_cards() {
    let original = mock_model();
    let mut model = mock_model();
    model.renumber_cells(10..=20, 5);
    assert_eq!(model.cells[0].cell_id, Spanned::new(15, Span(17, 19)));
    assert_eq!(model.cells[0].material_id, original.cells[0].material_id);
    assert_eq!(model.cells[0].params, original.cells[0].params);
    assert_eq!(model.surfaces, original.surfaces);
    assert_eq!(model.data_cards, original.data_cards);
}

#[test]
fn zero_offset_changes_nothing() {
    let original = mock_model();
    let mut model = mock_model();
    model.renumber_cells(0..=u32::MAX, 0);
    model.renumber_surfaces(0..=u32::MAX, 0);
    model.renumber_materials(0..=u32::MAX, 0);
    model.renumber_transformations(0..=u32::MAX, 0);
    model.renumber_universes(0..=u32::MAX, 0);
    assert_eq!(model, original);
}

#[test]
fn renumbering_cells_back_restores_the_model() {
    let original = mock_model();
    let mut model = mock_model();
    model.renumber_cells(10..=20, 1000);
    assert_ne!(model, original);
    model.renumber_cells(1010..=1020, -1000);
    assert_eq!(model, original);
}

#[test]
fn negative_result_wraps_to_large_unsigned() {
    let mut model = mock_model();
    model.renumber_cells(10..=10, -15);
    assert_eq!(model.cells[0].cell_id.value, 4294967291);
}

#[test]
fn surface_reference_keeps_its_sense() {
    let mut model = mock_model();
    model.renumber_surfaces(1..=3, -1);
    assert_eq!(cell_geo_surface_refs(&model.cells[0]), vec![0]);
    assert_eq!(cell_geo_surface_refs(&model.cells[1]), vec![1]);
    assert_eq!(cell_geo_surface_refs(&model.cells[2]), vec![-2]);
    let ids: Vec<u32> = model.surfaces.iter().map(|s| s.surface_id.value).collect();
    assert_eq!(ids, vec![0, 1, 2]);
}

#[test]
fn other_parameters_and_cards_are_left_alone() {
    let mut model = mock_model();
    model.data_cards.push(DataCard::Other(Span(0, 4)));
    model.cells[0].geometry.push(GeoElementSpanned::Union);
    model.renumber_materials(0..=u32::MAX, 1);
    model.renumber_transformations(0..=u32::MAX, 1);
    assert_eq!(model.data_cards[4], DataCard::Other(Span(0, 4)));
    assert_eq!(model.cells[0].geometry[2], GeoElementSpanned::Union);
    assert_eq!(model.cells[0].params[0], Param { param_type: ParamType::Other, span: Span(38, 45) });
}

#[test]
fn renumbering_back_restores_every_kind() {
    let original = mock_model();
    let mut model = mock_model();
    model.renumber_surfaces(1..=3, 20);
    model.renumber_materials(100..=110, 900);
    model.renumber_transformations(0..=100, 5);
    assert_ne!(model, original);
    model.renumber_surfaces(21..=23, -20);
    model.renumber_materials(1000..=1010, -900);
    model.renumber_transformations(5..=105, -5);
    assert_eq!(model, original);

    let original = universe_model();
    let mut model = universe_model();
    model.renumber_universes(100..=105, 7);
    assert_ne!(model, original);
    model.renumber_universes(107..=112, -7);
    assert_eq!(model, original);
}

#[test]
fn moving_back_onto_an_unmoved_id_does_not_restore() {
    // Cell 30 lies outside the first range but inside the moved one.
    let original = mock_model();
    let mut model = mock_model();
    model.renumber_cells(10..=20, 10);
    model.renumber_cells(20..=30, -10);
    assert_ne!(model, original);
    let ids: Vec<u32> = model.cells.iter().map(|c| c.cell_id.value).collect();
    assert_eq!(ids, vec![10, 20, 20]);
}

#[test]
fn renumbering_conditions_can_be_tested() {
    let model = mock_model();
    assert!(model.can_renumber_cells(&(10..=20), 5));
    assert!(model.can_renumber_cells(&(0..=u32::MAX), i32::MIN));
    assert!(!model.can_renumber_cells(&(10..=20), i32::MAX));
    assert!(model.can_renumber_surfaces(&(1..=3), 100));
    assert!(!model.can_renumber_surfaces(&(1..=1), i32::MIN));
    assert!(!model.can_renumber_surfaces(&(2..=2), i32::MAX));
    assert!(model.can_renumber_materials(&(101..=101), 10));
    assert!(!model.can_renumber_materials(&(101..=101), i32::MAX));
    assert!(model.can_renumber_transformations(&(50..=100), 10));
    assert!(!model.can_renumber_transformations(&(3..=3), i32::MAX));
    let model = universe_model();
    assert!(model.can_renumber_universes(&(101..=101), 10));
    assert!(!model.can_renumber_universes(&(105..=105), i32::MAX));
}
