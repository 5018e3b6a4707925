use bevy_ecs_ldtk::model::EntityDefinition;
use bevy_ecs_ldtk::model::EnumDefinition;
use bevy_ecs_ldtk::model::FieldScalar;
use bevy_ecs_ldtk::model::FieldValue;
use bevy_ecs_ldtk::model::LayerData;
use bevy_ecs_ldtk::model::LayerInstance;
use bevy_ecs_ldtk::model::LdtkEntity;
use bevy_ecs_ldtk::model::LdtkEntityTile;
use bevy_ecs_ldtk::model::LdtkField;
use bevy_ecs_ldtk::model::Level;
use bevy_ecs_ldtk::model::Pivot;
use bevy_ecs_ldtk::model::Point;
use bevy_ecs_ldtk::model::Project;
use bevy_ecs_ldtk::model::Rect;
use bevy_ecs_ldtk::model::TilesetDefinition;
use bevy_ecs_ldtk::validation::all_distinct;
use bevy_ecs_ldtk::validation::check_keys;
use bevy_ecs_ldtk::validation::check_level_names;
use bevy_ecs_ldtk::validation::check_references;
use bevy_ecs_ldtk::validation::is_defined;
use bevy_ecs_ldtk::validation::validate;
use bevy_ecs_ldtk::validation::FormatError;
use bevy_ecs_ldtk::validation::ReferenceKind;

fn entity(def_uid: i64, value: FieldValue) -> LdtkEntity {
    LdtkEntity {
        grid: Point { x: 0, y: 0 },
        identifier: "Thing".to_string(),
        pivot: Pivot { x: 0, y: 0 },
        tile: None,
        def_uid,
        field_instances: vec![LdtkField { identifier: "f".to_string(), value, def_uid: 1 }],
        height: 8,
        px: Point { x: 0, y: 0 },
        width: 8,
    }
}

fn project(layers: Vec<LayerData>) -> Project {
    Project {
        tilesets: vec![TilesetDefinition {
            uid: 1,
            identifier: "tiles".to_string(),
            px_wid: 64,
            px_hei: 64,
            tile_grid_size: 16,
            spacing: 0,
            padding: 0,
        }],
        entity_defs: vec![EntityDefinition { uid: 50, identifier: "Thing".to_string() }],
        enum_defs: vec![EnumDefinition {
            uid: 3,
            identifier: "Rarity".to_string(),
            values: vec!["Common".to_string(), "Rare".to_string()],
        }],
        levels: vec![
            Level {
                uid: 1,
                identifier: "Empty".to_string(),
                world_x: 0,
                world_y: 0,
                px_wid: 64,
                px_hei: 64,
                layers: vec![],
            },
            Level {
                uid: 2,
                identifier: "Full".to_string(),
                world_x: 0,
                world_y: 0,
                px_wid: 64,
                px_hei: 64,
                layers: layers
                    .into_iter()
                    .map(|data| LayerInstance {
                        identifier: "L".to_string(),
                        c_wid: 4,
                        c_hei: 4,
                        grid_size: 16,
                        data,
                    })
                    .collect(),
            },
        ],
    }
}

fn rare() -> FieldValue {
    FieldValue::Scalar(FieldScalar::EnumRef { enum_uid: 3, value: "Rare".to_string() })
}

#[test]
fn project_whose_references_resolve_is_valid() {
    let mut e = entity(50, rare());
    e.tile = Some(LdtkEntityTile { src_rect: Rect { x: 0, y: 0, width: 1, height: 1 }, tileset_uid: 1 });
    let p = project(vec![
        LayerData::Tiles { tileset_uid: 1, tiles: vec![] },
        LayerData::AutoLayer { tileset_uid: 1, tiles: vec![] },
        LayerData::IntGrid { cells: vec![] },
        LayerData::Entities { entities: vec![e, entity(50, FieldValue::Null)] },
    ]);
    assert_eq!(validate(&p), Ok(()));
}

#[test]
fn project_without_levels_is_valid() {
    let p = Project { tilesets: vec![], entity_defs: vec![], enum_defs: vec![], levels: vec![] };
    assert_eq!(validate(&p), Ok(()));
}

#[test]
fn dangling_tileset_of_a_layer_is_reported() {
    let p = project(vec![
        LayerData::IntGrid { cells: vec![] },
        LayerData::Tiles { tileset_uid: 77, tiles: vec![] },
    ]);
    assert_eq!(
        validate(&p),
        Err(FormatError::DanglingReference { kind: ReferenceKind::Tileset, uid: 77 })
    );
    let p = project(vec![LayerData::AutoLayer { tileset_uid: 78, tiles: vec![] }]);
    assert_eq!(
        validate(&p),
        Err(FormatError::DanglingReference { kind: ReferenceKind::Tileset, uid: 78 })
    );
}

#[test]
fn dangling_entity_definition_is_reported() {
    let p = project(vec![LayerData::Entities {
        entities: vec![entity(50, FieldValue::Null), entity(51, FieldValue::Null)],
    }]);
    assert_eq!(
        validate(&p),
        Err(FormatError::DanglingReference { kind: ReferenceKind::EntityDefinition, uid: 51 })
    );
}

#[test]
fn dangling_tileset_of_an_entity_tile_is_reported() {
    let mut e = entity(50, FieldValue::Null);
    e.tile = Some(LdtkEntityTile { src_rect: Rect { x: 0, y: 0, width: 1, height: 1 }, tileset_uid: 9 });
    let p = project(vec![LayerData::Entities { entities: vec![e] }]);
    assert_eq!(
        validate(&p),
        Err(FormatError::DanglingReference { kind: ReferenceKind::Tileset, uid: 9 })
    );
}

#[test]
fn dangling_enum_of_a_field_is_reported() {
    let value = FieldValue::Scalar(FieldScalar::EnumRef { enum_uid: 4, value: "X".to_string() });
    let p = project(vec![LayerData::Entities { entities: vec![entity(50, value)] }]);
    assert_eq!(
        validate(&p),
        Err(FormatError::DanglingReference { kind: ReferenceKind::EnumDefinition, uid: 4 })
    );
}

#[test]
fn dangling_enum_in_an_array_is_reported() {
    let value = FieldValue::Array(vec![
        FieldScalar::Int(1),
        FieldScalar::EnumRef { enum_uid: 3, value: "Rare".to_string() },
        FieldScalar::EnumRef { enum_uid: 5, value: "X".to_string() },
    ]);
    let p = project(vec![LayerData::Entities { entities: vec![entity(50, value)] }]);
    assert_eq!(
        validate(&p),
        Err(FormatError::DanglingReference { kind: ReferenceKind::EnumDefinition, uid: 5 })
    );
}

#[test]
fn definitions_are_found_by_kind() {
    let p = project(vec![]);
    assert!(is_defined(&p, ReferenceKind::Tileset, 1));
    assert!(!is_defined(&p, ReferenceKind::Tileset, 50));
    assert!(is_defined(&p, ReferenceKind::EntityDefinition, 50));
    assert!(!is_defined(&p, ReferenceKind::EntityDefinition, 3));
    assert!(is_defined(&p, ReferenceKind::EnumDefinition, 3));
    assert!(!is_defined(&p, ReferenceKind::EnumDefinition, 1));
    assert!(p.knows_entity_def(50));
    assert!(p.knows_enum_def(3));
    assert_ne!(FormatError::Malformed, FormatError::DanglingReference { kind: ReferenceKind::Tileset, uid: 1 });
}

#[test]
fn first_dangling_reference_in_document_order_is_reported() {
    let mut e = entity(51, FieldValue::Scalar(FieldScalar::EnumRef { enum_uid: 4, value: "X".to_string() }));
    e.tile = Some(LdtkEntityTile { src_rect: Rect { x: 0, y: 0, width: 1, height: 1 }, tileset_uid: 9 });
    let p = project(vec![
        LayerData::Entities { entities: vec![entity(50, rare()), e.clone()] },
        LayerData::Tiles { tileset_uid: 77, tiles: vec![] },
    ]);
    assert_eq!(
        validate(&p),
        Err(FormatError::DanglingReference { kind: ReferenceKind::EntityDefinition, uid: 51 })
    );
    e.def_uid = 50;
    let p = project(vec![
        LayerData::Entities { entities: vec![entity(50, rare()), e.clone()] },
        LayerData::Tiles { tileset_uid: 77, tiles: vec![] },
    ]);
    assert_eq!(
        validate(&p),
        Err(FormatError::DanglingReference { kind: ReferenceKind::Tileset, uid: 9 })
    );
    e.tile = None;
    let p = project(vec![
        LayerData::Entities { entities: vec![entity(50, rare()), e] },
        LayerData::Tiles { tileset_uid: 77, tiles: vec![] },
    ]);
    assert_eq!(
        check_references(&p),
        Err(FormatError::DanglingReference { kind: ReferenceKind::EnumDefinition, uid: 4 })
    );
}

#[test]
fn level_uid_used_twice_is_malformed() {
    let mut p = project(vec![]);
    p.levels[1].uid = 1;
    assert_eq!(validate(&p), Err(FormatError::Malformed));
    assert!(!check_keys(&p));
    assert_eq!(check_references(&p), Ok(()));
}

#[test]
fn level_identifier_used_twice_is_malformed() {
    let mut p = project(vec![]);
    p.levels[1].identifier = "Empty".to_string();
    assert!(!check_level_names(&p));
    assert_eq!(validate(&p), Err(FormatError::Malformed));
}

#[test]
fn definition_uid_used_twice_is_malformed() {
    let mut p = project(vec![]);
    let again = p.tilesets[0].clone();
    p.tilesets.push(again);
    assert_eq!(validate(&p), Err(FormatError::Malformed));

    let mut p = project(vec![]);
    p.entity_defs.push(EntityDefinition { uid: 50, identifier: "Other".to_string() });
    assert_eq!(validate(&p), Err(FormatError::Malformed));

    let mut p = project(vec![]);
    p.enum_defs.push(EnumDefinition { uid: 3, identifier: "Other".to_string(), values: vec![] });
    assert_eq!(validate(&p), Err(FormatError::Malformed));
}

#[test]
fn malformed_comes_before_dangling() {
    let mut p = project(vec![LayerData::Tiles { tileset_uid: 77, tiles: vec![] }]);
    p.levels[0].uid = 2;
    assert_eq!(validate(&p), Err(FormatError::Malformed));
}

#[test]
fn one_uid_may_serve_definitions_of_different_kinds() {
    let mut p = project(vec![]);
    p.entity_defs.push(EntityDefinition { uid: 1, identifier: "Other".to_string() });
    p.enum_defs.push(EnumDefinition { uid: 1, identifier: "Other".to_string(), values: vec![] });
    assert!(check_keys(&p));
    assert_eq!(validate(&p), Ok(()));
}

#[test]
fn distinct_values() {
    assert!(all_distinct(&vec![]));
    assert!(all_distinct(&vec![5]));
    assert!(all_distinct(&vec![3, 1, 2]));
    assert!(!all_distinct(&vec![3, 1, 3]));
    assert!(!all_distinct(&vec![1, 1]));
}
