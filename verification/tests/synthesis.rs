use bevy_ecs_ldtk::model::EntityDefinition;
use bevy_ecs_ldtk::model::FieldScalar;
use bevy_ecs_ldtk::model::FieldValue;
use bevy_ecs_ldtk::model::GridCoords;
use bevy_ecs_ldtk::model::IntGridCell;
use bevy_ecs_ldtk::model::LayerData;
use bevy_ecs_ldtk::model::LayerInstance;
use bevy_ecs_ldtk::model::LayerKind;
use bevy_ecs_ldtk::model::LdtkEntity;
use bevy_ecs_ldtk::model::LdtkEntityTile;
use bevy_ecs_ldtk::model::LdtkField;
use bevy_ecs_ldtk::model::LdtkIntGridCell;
use bevy_ecs_ldtk::model::Level;
use bevy_ecs_ldtk::model::Pivot;
use bevy_ecs_ldtk::model::Point;
use bevy_ecs_ldtk::model::Project;
use bevy_ecs_ldtk::model::Rect;
use bevy_ecs_ldtk::model::TileInstance;
use bevy_ecs_ldtk::model::TilesetDefinition;
use bevy_ecs_ldtk::model::PIVOT_SCALE;
use bevy_ecs_ldtk::scene::CellNode;
use bevy_ecs_ldtk::scene::Construction;
use bevy_ecs_ldtk::scene::EntityKey;
use bevy_ecs_ldtk::scene::LayerContent;
use bevy_ecs_ldtk::scene::TileNode;
use bevy_ecs_ldtk::scene::Translation;
use bevy_ecs_ldtk::selector::LayoutMode;
use bevy_ecs_ldtk::synth::chunk_count;
use bevy_ecs_ldtk::synth::chunk_of;
use bevy_ecs_ldtk::synth::origin_of;
use bevy_ecs_ldtk::synth::place_cell;
use bevy_ecs_ldtk::synth::place_entity;
use bevy_ecs_ldtk::synth::place_tile;
use bevy_ecs_ldtk::synth::synthesize;
use bevy_ecs_ldtk::synth::synthesize_layer;
use bevy_ecs_ldtk::synth::to_units;
use bevy_ecs_ldtk::synth::EntityRegistration;
use bevy_ecs_ldtk::synth::EntityStrategy;
use bevy_ecs_ldtk::synth::IntCellRegistration;
use bevy_ecs_ldtk::synth::Registries;
use bevy_ecs_ldtk::synth::SynthesisError;
use bevy_ecs_ldtk::synth::TextureEntry;
use bevy_ecs_ldtk::synth::TextureLookup;
use bevy_ecs_ldtk::synth::CHUNK_SIZE;

fn tileset(uid: i64) -> TilesetDefinition {
    TilesetDefinition {
        uid,
        identifier: format!("tiles{}", uid),
        px_wid: 256,
        px_hei: 128,
        tile_grid_size: 16,
        spacing: 1,
        padding: 2,
    }
}

fn tile(gx: u32, gy: u32) -> TileInstance {
    TileInstance {
        grid: GridCoords { x: gx, y: gy },
        px: Point { x: gx as i64 * 16, y: gy as i64 * 16 },
        src: Rect { x: 32, y: 48, width: 16, height: 16 },
        flip_x: true,
        flip_y: false,
    }
}

fn entity(name: &str, def_uid: i64, px: Point) -> LdtkEntity {
    LdtkEntity {
        grid: Point { x: px.x / 16, y: px.y / 16 },
        identifier: name.to_string(),
        pivot: Pivot { x: 500, y: 1000 },
        tile: None,
        def_uid,
        field_instances: vec![],
        height: 32,
        px,
        width: 16,
    }
}

fn layer(name: &str, data: LayerData) -> LayerInstance {
    LayerInstance { identifier: name.to_string(), c_wid: 40, c_hei: 4, grid_size: 16, data }
}

fn level(uid: i64, layers: Vec<LayerInstance>) -> Level {
    Level {
        uid,
        identifier: format!("Level_{}", uid),
        world_x: 100,
        world_y: 200,
        px_wid: 640,
        px_hei: 64,
        layers,
    }
}

fn project() -> Project {
    Project {
        tilesets: vec![tileset(1)],
        entity_defs: vec![
            EntityDefinition { uid: 50, identifier: "Player".to_string() },
            EntityDefinition { uid: 51, identifier: "Chest".to_string() },
        ],
        enum_defs: vec![],
        levels: vec![],
    }
}

fn no_textures() -> TextureLookup {
    TextureLookup { entries: vec![] }
}

fn no_registries() -> Registries {
    Registries { entities: vec![], int_cells: vec![] }
}

#[test]
fn layers_get_z_indices_from_the_back() {
    let three = level(
        1,
        vec![
            layer("A", LayerData::IntGrid { cells: vec![] }),
            layer("B", LayerData::Entities { entities: vec![] }),
            layer("C", LayerData::Tiles { tileset_uid: 1, tiles: vec![] }),
        ],
    );
    let node =
        synthesize(&three, &project(), &no_textures(), &no_registries(), LayoutMode::OriginAnchored)
            .unwrap();
    let seen: Vec<(String, usize, usize, LayerKind)> = node
        .layers
        .iter()
        .map(|l| (l.identifier.clone(), l.layer_index, l.z_index, l.kind))
        .collect();
    assert_eq!(
        seen,
        vec![
            ("C".to_string(), 2, 0, LayerKind::Tiles),
            ("B".to_string(), 1, 1, LayerKind::Entities),
            ("A".to_string(), 0, 2, LayerKind::IntGrid),
        ]
    );
    for pair in node.layers.windows(2) {
        assert!(pair[0].z_index < pair[1].z_index);
        assert!(pair[0].layer_index > pair[1].layer_index);
    }
}

#[test]
fn empty_layers_still_have_nodes() {
    let empty = level(
        1,
        vec![
            layer("A", LayerData::Tiles { tileset_uid: 1, tiles: vec![] }),
            layer("B", LayerData::AutoLayer { tileset_uid: 1, tiles: vec![] }),
            layer("C", LayerData::IntGrid { cells: vec![] }),
            layer("D", LayerData::Entities { entities: vec![] }),
        ],
    );
    let node =
        synthesize(&empty, &project(), &no_textures(), &no_registries(), LayoutMode::OriginAnchored)
            .unwrap();
    assert_eq!(node.uid, 1);
    assert_eq!(node.layers.len(), 4);
    assert_eq!(node.layers[0].content, LayerContent::Entities(vec![]));
    assert_eq!(node.layers[1].content, LayerContent::Cells(vec![]));
    assert!(matches!(&node.layers[2].content, LayerContent::Surface(s) if s.tiles.is_empty()));
    assert!(matches!(&node.layers[3].content, LayerContent::Surface(s) if s.tiles.is_empty()));
}

#[test]
fn level_without_layers_has_a_bare_node() {
    let bare = level(4, vec![]);
    let node =
        synthesize(&bare, &project(), &no_textures(), &no_registries(), LayoutMode::OriginAnchored)
            .unwrap();
    assert_eq!(node.uid, 4);
    assert_eq!(node.translation, Translation { x: 0, y: 0 });
    assert!(node.layers.is_empty());
}

#[test]
fn level_origin_follows_the_layout() {
    let l = level(1, vec![]);
    assert_eq!(origin_of(&l, LayoutMode::OriginAnchored), Translation { x: 0, y: 0 });
    assert_eq!(
        origin_of(&l, LayoutMode::WorldTranslation),
        Translation { x: 100_000, y: -264_000 }
    );
}

#[test]
fn units_are_thousandths_of_a_pixel() {
    assert_eq!(PIVOT_SCALE, 1000);
    assert_eq!(to_units(3), 3000);
    assert_eq!(to_units(-7), -7000);
    assert_eq!(to_units(0), 0);
}

#[test]
fn tile_is_placed_by_its_bottom_left_corner() {
    let l = level(1, vec![]);
    let node = place_tile(&tile(1, 2), &l, LayoutMode::OriginAnchored, 16);
    assert_eq!(
        node,
        TileNode {
            cell: GridCoords { x: 1, y: 2 },
            chunk: GridCoords { x: 0, y: 0 },
            src: Rect { x: 32, y: 48, width: 16, height: 16 },
            flip_x: true,
            flip_y: false,
            translation: Translation { x: 16_000, y: 16_000 },
        }
    );
    let moved = place_tile(&tile(1, 2), &l, LayoutMode::WorldTranslation, 16);
    assert_eq!(moved.translation, Translation { x: 116_000, y: -248_000 });
}

#[test]
fn top_row_tile_sits_highest() {
    let l = level(1, vec![]);
    let top = place_tile(&tile(0, 0), &l, LayoutMode::OriginAnchored, 16);
    let bottom = place_tile(&tile(0, 3), &l, LayoutMode::OriginAnchored, 16);
    assert_eq!(top.translation, Translation { x: 0, y: 48_000 });
    assert_eq!(bottom.translation, Translation { x: 0, y: 0 });
}

#[test]
fn chunks_cover_the_grid() {
    assert_eq!(CHUNK_SIZE, 32);
    assert_eq!(chunk_count(0), 0);
    assert_eq!(chunk_count(1), 1);
    assert_eq!(chunk_count(32), 1);
    assert_eq!(chunk_count(33), 2);
    assert_eq!(chunk_count(u32::MAX), 134_217_728);
    assert_eq!(chunk_of(GridCoords { x: 31, y: 32 }), GridCoords { x: 0, y: 1 });
    assert_eq!(chunk_of(GridCoords { x: 33, y: 64 }), GridCoords { x: 1, y: 2 });
}

#[test]
fn tile_layer_gives_a_surface() {
    let mut p = project();
    p.tilesets.push(TilesetDefinition { px_wid: 512, ..tileset(2) });
    let tiles = vec![tile(0, 0), tile(33, 3)];
    let l = level(1, vec![layer("Ground", LayerData::AutoLayer { tileset_uid: 2, tiles })]);
    let textures = TextureLookup {
        entries: vec![
            TextureEntry { tileset_uid: 2, texture: 70 },
            TextureEntry { tileset_uid: 1, texture: 71 },
            TextureEntry { tileset_uid: 2, texture: 72 },
        ],
    };
    let node =
        synthesize_layer(&p, &l, &textures, &no_registries(), LayoutMode::OriginAnchored, 0).unwrap();
    assert_eq!(node.kind, LayerKind::AutoLayer);
    match node.content {
        LayerContent::Surface(surface) => {
            assert_eq!(surface.chunks_x, 2);
            assert_eq!(surface.chunks_y, 1);
            assert_eq!(surface.chunk_size, 32);
            assert_eq!(surface.tile_size, 16);
            assert_eq!(surface.texture_width, 512);
            assert_eq!(surface.texture_height, 128);
            assert_eq!(surface.texture, Some(72));
            assert_eq!(surface.tiles.len(), 2);
            assert_eq!(surface.tiles[0].chunk, GridCoords { x: 0, y: 0 });
            assert_eq!(surface.tiles[1].chunk, GridCoords { x: 1, y: 0 });
            assert_eq!(surface.tiles[1].cell, GridCoords { x: 33, y: 3 });
            assert_eq!(surface.tiles[1].translation, Translation { x: 528_000, y: 0 });
        },
        other => panic!("no surface: {:?}", other),
    }
}

#[test]
fn surface_without_a_known_texture_has_none() {
    let l = level(1, vec![layer("Ground", LayerData::Tiles { tileset_uid: 1, tiles: vec![] })]);
    let node = synthesize_layer(
        &project(),
        &l,
        &no_textures(),
        &no_registries(),
        LayoutMode::OriginAnchored,
        0,
    )
    .unwrap();
    assert!(matches!(node.content, LayerContent::Surface(s) if s.texture.is_none()));
    assert_eq!(no_textures().texture(1), None);
}

#[test]
fn later_tileset_with_the_same_uid_counts() {
    let mut p = project();
    p.tilesets.push(TilesetDefinition { tile_grid_size: 8, ..tileset(1) });
    assert_eq!(p.find_tileset(1), Some(1));
    assert_eq!(p.find_tileset(9), None);
}

#[test]
fn empty_cells_get_no_node() {
    let cells = vec![
        IntGridCell { grid: GridCoords { x: 0, y: 0 }, value: 0 },
        IntGridCell { grid: GridCoords { x: 2, y: 1 }, value: 3 },
        IntGridCell { grid: GridCoords { x: 1, y: 3 }, value: -4 },
        IntGridCell { grid: GridCoords { x: 5, y: 5 }, value: 0 },
    ];
    let l = level(1, vec![layer("Walls", LayerData::IntGrid { cells })]);
    let registries = Registries {
        entities: vec![],
        int_cells: vec![
            IntCellRegistration { value: 3, kind: 8 },
            IntCellRegistration { value: 3, kind: 9 },
        ],
    };
    let node =
        synthesize(&l, &project(), &no_textures(), &registries, LayoutMode::OriginAnchored).unwrap();
    assert_eq!(
        node.layers[0].content,
        LayerContent::Cells(vec![
            CellNode {
                value: LdtkIntGridCell(3),
                grid: GridCoords { x: 2, y: 1 },
                construction: Construction::Registered(9),
                translation: Translation { x: 32_000, y: 32_000 },
            },
            CellNode {
                value: LdtkIntGridCell(-4),
                grid: GridCoords { x: 1, y: 3 },
                construction: Construction::Default,
                translation: Translation { x: 16_000, y: 0 },
            },
        ])
    );
}

#[test]
fn cell_far_out_does_not_overflow() {
    let l = level(1, vec![]);
    let cell = IntGridCell { grid: GridCoords { x: u32::MAX, y: u32::MAX }, value: 1 };
    let node = place_cell(&cell, &l, LayoutMode::OriginAnchored, u32::MAX, &no_registries());
    let side = u32::MAX as i128;
    assert_eq!(node.translation.x, side * side * 1000);
    assert_eq!(node.translation.y, (64 - (side + 1) * side) * 1000);
}

#[test]
fn entity_is_placed_by_pivot_and_size() {
    let l = level(1, vec![]);
    let key = EntityKey { level_uid: 1, layer: 0, index: 0 };
    let e = entity("Player", 50, Point { x: 24, y: 40 });
    let node = place_entity(&e, key, &l, LayoutMode::OriginAnchored, 5, &no_registries());
    assert_eq!(node.translation, Translation { x: 16_000, y: 24_000 });
    assert_eq!(node.z_index, 5);
    assert_eq!(node.key, key);
    assert_eq!(node.instance, e);
    assert_eq!(node.construction, Construction::Default);
    assert!(!node.worldly);

    let top_left = LdtkEntity { pivot: Pivot { x: 0, y: 0 }, ..e.clone() };
    let node = place_entity(&top_left, key, &l, LayoutMode::OriginAnchored, 0, &no_registries());
    assert_eq!(node.translation, Translation { x: 24_000, y: -8_000 });

    let odd = LdtkEntity { pivot: Pivot { x: 500, y: 500 }, width: 15, height: 15, ..e.clone() };
    let node = place_entity(&odd, key, &l, LayoutMode::WorldTranslation, 0, &no_registries());
    assert_eq!(node.translation, Translation { x: 116_500, y: -247_500 });
}

#[test]
fn entity_at_the_ends_of_the_plane_does_not_overflow() {
    let l = Level { world_x: i64::MIN, world_y: i64::MAX, px_hei: u32::MAX, ..level(1, vec![]) };
    let key = EntityKey { level_uid: 1, layer: 0, index: 0 };
    let e = LdtkEntity {
        pivot: Pivot { x: u32::MAX, y: u32::MAX },
        width: i64::MAX,
        height: i64::MIN,
        ..entity("Player", 50, Point { x: i64::MIN, y: i64::MAX })
    };
    let node = place_entity(&e, key, &l, LayoutMode::WorldTranslation, 0, &no_registries());
    let big = u32::MAX as i128;
    assert_eq!(
        node.translation.x,
        (i64::MIN as i128) * 2000 - big * (i64::MAX as i128)
    );
    assert_eq!(
        node.translation.y,
        -((i64::MAX as i128) + big) * 1000
            + (big - (i64::MAX as i128) - (i64::MIN as i128)) * 1000
            + big * (i64::MIN as i128)
    );
}

#[test]
fn registered_entities_are_built_as_registered() {
    let entities = vec![
        entity("Player", 50, Point { x: 0, y: 0 }),
        entity("Chest", 51, Point { x: 16, y: 0 }),
        entity("Player", 50, Point { x: 32, y: 0 }),
    ];
    let l = level(
        9,
        vec![
            layer("Front", LayerData::IntGrid { cells: vec![] }),
            layer("Things", LayerData::Entities { entities: entities.clone() }),
        ],
    );
    let registries = Registries {
        entities: vec![
            EntityRegistration {
                identifier: "Player".to_string(),
                strategy: EntityStrategy { kind: 1, worldly: false },
            },
            EntityRegistration {
                identifier: "Player".to_string(),
                strategy: EntityStrategy { kind: 2, worldly: true },
            },
        ],
        int_cells: vec![],
    };
    assert_eq!(
        registries.entity_strategy(&"Player".to_string()),
        Some(EntityStrategy { kind: 2, worldly: true })
    );
    assert_eq!(registries.entity_strategy(&"Chest".to_string()), None);
    assert_eq!(registries.cell_kind(1), None);
    let node =
        synthesize(&l, &project(), &no_textures(), &registries, LayoutMode::OriginAnchored).unwrap();
    match &node.layers[0].content {
        LayerContent::Entities(nodes) => {
            assert_eq!(nodes.len(), 3);
            for (i, n) in nodes.iter().enumerate() {
                assert_eq!(n.key, EntityKey { level_uid: 9, layer: 1, index: i });
                assert_eq!(n.instance, entities[i]);
                assert_eq!(n.z_index, 0);
            }
            assert_eq!(nodes[0].construction, Construction::Registered(2));
            assert!(nodes[0].worldly);
            assert_eq!(nodes[1].construction, Construction::Default);
            assert!(!nodes[1].worldly);
            assert!(nodes[2].worldly);
        },
        other => panic!("no entities: {:?}", other),
    }
}

#[test]
fn entity_node_carries_the_fields() {
    let mut e = entity("Chest", 51, Point { x: 0, y: 0 });
    e.tile = Some(LdtkEntityTile { src_rect: Rect { x: 0, y: 0, width: 8, height: 8 }, tileset_uid: 1 });
    e.field_instances = vec![
        LdtkField {
            identifier: "gold".to_string(),
            value: FieldValue::Scalar(FieldScalar::Int(12)),
            def_uid: 1,
        },
        LdtkField {
            identifier: "loot".to_string(),
            value: FieldValue::Array(vec![
                FieldScalar::Text("key".to_string()),
                FieldScalar::Float { bits: 1.5f64.to_bits() },
                FieldScalar::Bool(true),
                FieldScalar::Point(Point { x: 1, y: 2 }),
                FieldScalar::Color(0xff00ff),
                FieldScalar::EnumRef { enum_uid: 3, value: "Rare".to_string() },
            ]),
            def_uid: 2,
        },
        LdtkField {
            identifier: "owner".to_string(),
            value: FieldValue::EntityRef("a1b2".to_string()),
            def_uid: 3,
        },
        LdtkField { identifier: "note".to_string(), value: FieldValue::Null, def_uid: 4 },
    ];
    assert_eq!(e.duplicate(), e);
    let l = level(1, vec![layer("Things", LayerData::Entities { entities: vec![e.clone()] })]);
    let node =
        synthesize(&l, &project(), &no_textures(), &no_registries(), LayoutMode::OriginAnchored)
            .unwrap();
    assert!(matches!(&node.layers[0].content, LayerContent::Entities(n) if n[0].instance == e));
}

#[test]
fn missing_tileset_is_an_invalid_reference() {
    let l = level(
        1,
        vec![
            layer("A", LayerData::IntGrid { cells: vec![] }),
            layer("B", LayerData::Tiles { tileset_uid: 404, tiles: vec![tile(0, 0)] }),
        ],
    );
    assert_eq!(
        synthesize(&l, &project(), &no_textures(), &no_registries(), LayoutMode::OriginAnchored),
        Err(SynthesisError::InvalidReference)
    );
    let auto = level(1, vec![layer("B", LayerData::AutoLayer { tileset_uid: 404, tiles: vec![] })]);
    assert_eq!(
        synthesize(&auto, &project(), &no_textures(), &no_registries(), LayoutMode::OriginAnchored),
        Err(SynthesisError::InvalidReference)
    );
}

#[test]
fn missing_entity_definition_is_an_invalid_reference() {
    let entities = vec![entity("Player", 50, Point { x: 0, y: 0 }), entity("Ghost", 404, Point { x: 0, y: 0 })];
    let l = level(1, vec![layer("Things", LayerData::Entities { entities })]);
    assert_eq!(
        synthesize(&l, &project(), &no_textures(), &no_registries(), LayoutMode::OriginAnchored),
        Err(SynthesisError::InvalidReference)
    );
}

#[test]
fn missing_tileset_of_an_entity_tile_is_an_invalid_reference() {
    let mut e = entity("Player", 50, Point { x: 0, y: 0 });
    e.tile =
        Some(LdtkEntityTile { src_rect: Rect { x: 0, y: 0, width: 1, height: 1 }, tileset_uid: 404 });
    let l = level(1, vec![layer("Things", LayerData::Entities { entities: vec![e] })]);
    assert_eq!(
        synthesize(&l, &project(), &no_textures(), &no_registries(), LayoutMode::OriginAnchored),
        Err(SynthesisError::InvalidReference)
    );
}

#[test]
fn layer_kind_and_tileset() {
    let tiles = layer("A", LayerData::Tiles { tileset_uid: 1, tiles: vec![] });
    let auto = layer("B", LayerData::AutoLayer { tileset_uid: 2, tiles: vec![] });
    let grid = layer("C", LayerData::IntGrid { cells: vec![] });
    let things = layer("D", LayerData::Entities { entities: vec![] });
    assert_eq!(tiles.kind(), LayerKind::Tiles);
    assert_eq!(auto.kind(), LayerKind::AutoLayer);
    assert_eq!(grid.kind(), LayerKind::IntGrid);
    assert_eq!(things.kind(), LayerKind::Entities);
    assert_eq!(tiles.tileset_uid(), Some(1));
    assert_eq!(auto.tileset_uid(), Some(2));
    assert_eq!(grid.tileset_uid(), None);
    assert_eq!(things.tileset_uid(), None);
}

#[test]
fn int_grid_cell_value() {
    assert_eq!(LdtkIntGridCell::default(), LdtkIntGridCell(0));
    assert!(LdtkIntGridCell::default().is_empty());
    assert_eq!(LdtkIntGridCell(5).value(), 5);
    assert!(!LdtkIntGridCell(-1).is_empty());
    assert!(LdtkIntGridCell(1) < LdtkIntGridCell(2));
}

#[test]
fn defaults_are_empty() {
    let e = LdtkEntity::default();
    assert_eq!(e.identifier, "");
    assert_eq!(e.def_uid, 0);
    assert_eq!(e.tile, None);
    assert!(e.field_instances.is_empty());
    assert_eq!(e.pivot, Pivot { x: 0, y: 0 });
    assert_eq!((e.width, e.height, e.px, e.grid), (0, 0, Point { x: 0, y: 0 }, Point { x: 0, y: 0 }));
    let f = LdtkField::default();
    assert_eq!(f, LdtkField { identifier: String::new(), value: FieldValue::Null, def_uid: 0 });
    assert_eq!(
        LdtkEntityTile::default(),
        LdtkEntityTile { src_rect: Rect { x: 0, y: 0, width: 0, height: 0 }, tileset_uid: 0 }
    );
}
