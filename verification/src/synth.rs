//! The level synthesizer: the scene that one level gives.

use vstd::prelude::*;
use crate::model::last_tileset;
use crate::model::GridCoords;
use crate::model::IntGridCell;
use crate::model::LayerData;
use crate::model::LayerInstance;
use crate::model::LdtkEntity;
use crate::model::LdtkIntGridCell;
use crate::model::Level;
use crate::model::Project;
use crate::model::TileInstance;
use crate::model::TilesetDefinition;
use crate::model::PIVOT_SCALE;
use crate::scene::entity_views;
use crate::scene::CellNode;
use crate::scene::Construction;
use crate::scene::EntityKey;
use crate::scene::EntityNode;
use crate::scene::EntityNodeView;
use crate::scene::LayerContent;
use crate::scene::LayerContentView;
use crate::scene::LayerNode;
use crate::scene::LayerNodeView;
use crate::scene::LevelNode;
use crate::scene::LevelNodeView;
use crate::scene::TileNode;
use crate::scene::TileSurface;
use crate::scene::TileSurfaceView;
use crate::scene::Translation;
use crate::selector::LayoutMode;
use crate::seqs::lemma_filter_push;

verus! {

/// Side of one chunk of a tile surface, in grid cells.
///
/// Chunks only divide a surface for drawing. Nothing else depends on where
/// one chunk ends and the next begins.
pub const CHUNK_SIZE: u32 = 32;

/// Why a level could not be synthesized.
#[derive(Clone, Copy, Debug, PartialEq, Eq, Structural, Hash)]
pub enum SynthesisError {
    /// A layer or an entity of the level names a tileset or an entity
    /// definition that the project does not hold.
    InvalidReference,
}

/// The drawable surface that stands for one tileset.
#[derive(Clone, Copy, Debug, PartialEq, Eq, Structural, Hash)]
pub struct TextureEntry {
    pub tileset_uid: i64,
    pub texture: u64,
}

/// The drawable surfaces of the tilesets, in the order in which they were
/// made known.
#[derive(Clone, Debug, PartialEq, Eq, Hash)]
pub struct TextureLookup {
    pub entries: Vec<TextureEntry>,
}

/// How entities with a registered identifier are built.
#[derive(Clone, Copy, Debug, PartialEq, Eq, Structural, Hash)]
pub struct EntityStrategy {
    /// The number of the registered node kind.
    pub kind: u32,
    /// Whether nodes of this kind outlive the level that they are spawned
    /// with.
    pub worldly: bool,
}

/// One registration for entities.
#[derive(Clone, Debug, PartialEq, Eq, Hash)]
pub struct EntityRegistration {
    pub identifier: String,
    pub strategy: EntityStrategy,
}

/// One registration for cells of integer grids: cells with this value are
/// built as the registered node kind with the number `kind`.
#[derive(Clone, Copy, Debug, PartialEq, Eq, Structural, Hash)]
pub struct IntCellRegistration {
    pub value: i64,
    pub kind: u32,
}

/// The registrations, in the order in which they were made.
#[derive(Clone, Debug, PartialEq, Eq, Hash)]
pub struct Registries {
    pub entities: Vec<EntityRegistration>,
    pub int_cells: Vec<IntCellRegistration>,
}

/// The surface known for the tileset `uid`: that of the last entry for it.
pub open spec fn texture_for(entries: Seq<TextureEntry>, uid: i64) -> Option<u64>
    decreases entries.len(),
{
    if entries.len() == 0 {
        None
    } else if entries.last().tileset_uid == uid {
        Some(entries.last().texture)
    } else {
        texture_for(entries.drop_last(), uid)
    }
}

/// The strategy registered for entities named `identifier`: that of the
/// last registration for that name.
pub open spec fn entity_strategy_for(
    registrations: Seq<EntityRegistration>,
    identifier: Seq<char>,
) -> Option<EntityStrategy>
    decreases registrations.len(),
{
    if registrations.len() == 0 {
        None
    } else if registrations.last().identifier@ == identifier {
        Some(registrations.last().strategy)
    } else {
        entity_strategy_for(registrations.drop_last(), identifier)
    }
}

/// The node kind registered for cells that hold `value`: that of the last
/// registration for that value.
pub open spec fn cell_kind_for(registrations: Seq<IntCellRegistration>, value: i64) -> Option<u32>
    decreases registrations.len(),
{
    if registrations.len() == 0 {
        None
    } else if registrations.last().value == value {
        Some(registrations.last().kind)
    } else {
        cell_kind_for(registrations.drop_last(), value)
    }
}

impl TextureLookup {
    /// The surface known for the tileset `uid`.
    pub fn texture(&self, uid: i64) -> (texture: Option<u64>)
        ensures
            texture == texture_for(self.entries@, uid),
    {
        let mut texture: Option<u64> = None;
        let mut i: usize = 0;
        while i < self.entries.len()
            invariant
                i <= self.entries.len(),
                texture == texture_for(self.entries@.take(i as int), uid),
            decreases self.entries.len() - i,
        {
            proof {
                assert(self.entries@.take(i + 1).drop_last() =~= self.entries@.take(i as int));
            }
            if self.entries[i].tileset_uid == uid {
                texture = Some(self.entries[i].texture);
            }
            i += 1;
        }
        proof {
            assert(self.entries@.take(self.entries@.len() as int) =~= self.entries@);
        }
        texture
    }
}

impl Registries {
    /// The strategy registered for entities named `identifier`.
    pub fn entity_strategy(&self, identifier: &String) -> (strategy: Option<EntityStrategy>)
        ensures
            strategy == entity_strategy_for(self.entities@, identifier@),
    {
        let mut strategy: Option<EntityStrategy> = None;
        let mut i: usize = 0;
        while i < self.entities.len()
            invariant
                i <= self.entities.len(),
                strategy == entity_strategy_for(self.entities@.take(i as int), identifier@),
            decreases self.entities.len() - i,
        {
            proof {
                assert(self.entities@.take(i + 1).drop_last() =~= self.entities@.take(i as int));
            }
            if self.entities[i].identifier == *identifier {
                strategy = Some(self.entities[i].strategy);
            }
            i += 1;
        }
        proof {
            assert(self.entities@.take(self.entities@.len() as int) =~= self.entities@);
        }
        strategy
    }

    /// The node kind registered for cells that hold `value`.
    pub fn cell_kind(&self, value: i64) -> (kind: Option<u32>)
        ensures
            kind == cell_kind_for(self.int_cells@, value),
    {
        let mut kind: Option<u32> = None;
        let mut i: usize = 0;
        while i < self.int_cells.len()
            invariant
                i <= self.int_cells.len(),
                kind == cell_kind_for(self.int_cells@.take(i as int), value),
            decreases self.int_cells.len() - i,
        {
            proof {
                assert(self.int_cells@.take(i + 1).drop_last() =~= self.int_cells@.take(i as int));
            }
            if self.int_cells[i].value == value {
                kind = Some(self.int_cells[i].kind);
            }
            i += 1;
        }
        proof {
            assert(self.int_cells@.take(self.int_cells@.len() as int) =~= self.int_cells@);
        }
        kind
    }
}

/// Number of chunks that cover `cells` grid cells along one axis.
pub open spec fn spec_chunk_count(cells: u32) -> u32 {
    ((cells as int + CHUNK_SIZE as int - 1) / (CHUNK_SIZE as int)) as u32
}

/// Number of chunks that cover `cells` grid cells along one axis.
#[verifier::when_used_as_spec(spec_chunk_count)]
pub fn chunk_count(cells: u32) -> (count: u32)
    ensures
        count == spec_chunk_count(cells),
{
    (cells / CHUNK_SIZE) + (if cells % CHUNK_SIZE == 0 { 0u32 } else { 1u32 })
}

/// The chunk that covers the grid cell `cell`.
pub open spec fn spec_chunk_of(cell: GridCoords) -> GridCoords {
    GridCoords { x: cell.x / CHUNK_SIZE, y: cell.y / CHUNK_SIZE }
}

/// The chunk that covers the grid cell `cell`.
#[verifier::when_used_as_spec(spec_chunk_of)]
pub fn chunk_of(cell: GridCoords) -> (chunk: GridCoords)
    ensures
        chunk == spec_chunk_of(cell),
{
    GridCoords { x: cell.x / CHUNK_SIZE, y: cell.y / CHUNK_SIZE }
}

/// The chunks that cover a grid reach every cell of the grid: a cell in
/// column `cell.x` of a grid of `columns` columns, and in row `cell.y` of
/// `rows` rows, lies in a chunk that the counts for that grid include.
pub proof fn lemma_chunk_in_surface(cell: GridCoords, columns: u32, rows: u32)
    requires
        cell.x < columns,
        cell.y < rows,
    ensures
        spec_chunk_of(cell).x < spec_chunk_count(columns),
        spec_chunk_of(cell).y < spec_chunk_count(rows),
{
}

/// Where the node of `level` stands.
///
/// With `OriginAnchored` the level's bottom-left corner is the origin. With
/// `WorldTranslation` it is the level's bottom-left corner in the world,
/// turned from the document's `y`, which grows downwards, to the scene's.
pub open spec fn level_origin(level: &Level, layout: LayoutMode) -> Translation {
    match layout {
        LayoutMode::OriginAnchored => Translation { x: 0, y: 0 },
        LayoutMode::WorldTranslation => Translation {
            x: (level.world_x as int * PIVOT_SCALE as int) as i128,
            y: (-(level.world_y as int + level.px_hei as int) * PIVOT_SCALE as int) as i128,
        },
    }
}

/// A length in pixels, in the units of the scene.
pub fn to_units(pixels: i128) -> (units: i128)
    requires
        -0x1_0000_0000_0000_0000_0000 <= pixels <= 0x1_0000_0000_0000_0000_0000,
    ensures
        units == pixels * PIVOT_SCALE as int,
{
    assert(PIVOT_SCALE == 1000);
    pixels * 1000
}

/// Where the node of `level` stands.
pub fn origin_of(level: &Level, layout: LayoutMode) -> (origin: Translation)
    ensures
        origin == level_origin(level, layout),
{
    match layout {
        LayoutMode::OriginAnchored => Translation { x: 0, y: 0 },
        LayoutMode::WorldTranslation => Translation {
            x: to_units(level.world_x as i128),
            y: to_units(-(level.world_y as i128 + level.px_hei as i128)),
        },
    }
}

/// The node of one tile of a layer with cells of `grid_size` pixels.
///
/// The tile keeps its cell, its source rectangle and its flip flags. Its
/// position is that of its bottom-left corner. The document counts `y`
/// downwards from the level's top edge and the scene upwards from its
/// bottom edge, so the row is turned over: this converts between the two
/// conventions and mirrors nothing on screen.
pub open spec fn tile_node_of(
    tile: TileInstance,
    level: &Level,
    layout: LayoutMode,
    grid_size: u32,
) -> TileNode {
    TileNode {
        cell: tile.grid,
        chunk: spec_chunk_of(tile.grid),
        src: tile.src,
        flip_x: tile.flip_x,
        flip_y: tile.flip_y,
        translation: Translation {
            x: (level_origin(level, layout).x as int + tile.px.x as int * PIVOT_SCALE as int) as i128,
            y: (level_origin(level, layout).y as int + (level.px_hei as int - tile.px.y as int
                - grid_size as int) * PIVOT_SCALE as int) as i128,
        },
    }
}

/// How a cell that holds `value` is built.
pub open spec fn cell_construction(registrations: Seq<IntCellRegistration>, value: i64) -> Construction {
    match cell_kind_for(registrations, value) {
        Some(kind) => Construction::Registered(kind),
        None => Construction::Default,
    }
}

/// The node of one cell of an integer grid with cells of `grid_size`
/// pixels. It carries the cell's value and grid coordinate whatever way it
/// is built.
pub open spec fn cell_node_of(
    cell: IntGridCell,
    level: &Level,
    layout: LayoutMode,
    grid_size: u32,
    registrations: Seq<IntCellRegistration>,
) -> CellNode {
    CellNode {
        value: LdtkIntGridCell(cell.value),
        grid: cell.grid,
        construction: cell_construction(registrations, cell.value),
        translation: Translation {
            x: (level_origin(level, layout).x as int + cell.grid.x as int * grid_size as int
                * PIVOT_SCALE as int) as i128,
            y: (level_origin(level, layout).y as int + (level.px_hei as int - (cell.grid.y as int + 1)
                * grid_size as int) * PIVOT_SCALE as int) as i128,
        },
    }
}

/// The node of the entity at `key`, placed in a layer with the z-index `z`.
///
/// The entity's pixel position is that of its pivot. The anchor offset is
/// the pivot times the entity's size on each axis, so the entity's
/// rectangle starts that far to the left of and above the pivot; the node's
/// position is the bottom-left corner of that rectangle, with `y` turned
/// over as for tiles.
pub open spec fn entity_node_of(
    entity: &LdtkEntity,
    key: EntityKey,
    level: &Level,
    layout: LayoutMode,
    z: usize,
    registrations: Seq<EntityRegistration>,
) -> EntityNodeView {
    let strategy = entity_strategy_for(registrations, entity.identifier@);
    EntityNodeView {
        key,
        instance: entity@,
        construction: match strategy {
            Some(s) => Construction::Registered(s.kind),
            None => Construction::Default,
        },
        worldly: match strategy {
            Some(s) => s.worldly,
            None => false,
        },
        z_index: z,
        translation: Translation {
            x: (level_origin(level, layout).x as int + entity.px.x as int * PIVOT_SCALE as int
                - entity.pivot.x as int * entity.width as int) as i128,
            y: (level_origin(level, layout).y as int + (level.px_hei as int - entity.px.y as int
                - entity.height as int) * PIVOT_SCALE as int + entity.pivot.y as int
                * entity.height as int) as i128,
        },
    }
}

/// Whether a cell of an integer grid holds something.
pub open spec fn is_filled() -> spec_fn(IntGridCell) -> bool {
    |cell: IntGridCell| cell.value != 0
}

/// The nodes of the cells of an integer grid: one for each cell that is
/// not empty, in the cells' order.
pub open spec fn cell_nodes_of(
    cells: Seq<IntGridCell>,
    level: &Level,
    layout: LayoutMode,
    grid_size: u32,
    registrations: Seq<IntCellRegistration>,
) -> Seq<CellNode> {
    cells.filter(is_filled()).map_values(
        |cell: IntGridCell| cell_node_of(cell, level, layout, grid_size, registrations),
    )
}

/// The nodes of the entities of the layer at position `layer` of `level`:
/// one for each entity, in the entities' order.
pub open spec fn entity_nodes_of(
    entities: Seq<LdtkEntity>,
    layer: usize,
    level: &Level,
    layout: LayoutMode,
    z: usize,
    registrations: Seq<EntityRegistration>,
) -> Seq<EntityNodeView> {
    Seq::new(
        entities.len(),
        |i: int|
            entity_node_of(
                &entities[i],
                EntityKey { level_uid: level.uid, layer, index: i as usize },
                level,
                layout,
                z,
                registrations,
            ),
    )
}

/// The surface of a tile layer that draws from `tileset`: as many chunks
/// as cover the layer's grid, and one tile node for each tile, in the
/// tiles' order.
pub open spec fn surface_of(
    tiles: Seq<TileInstance>,
    layer: &LayerInstance,
    tileset: &TilesetDefinition,
    level: &Level,
    layout: LayoutMode,
    texture: Option<u64>,
) -> TileSurfaceView {
    TileSurfaceView {
        chunks_x: spec_chunk_count(layer.c_wid),
        chunks_y: spec_chunk_count(layer.c_hei),
        chunk_size: CHUNK_SIZE,
        tile_size: tileset.tile_grid_size,
        texture_width: tileset.px_wid,
        texture_height: tileset.px_hei,
        texture,
        tiles: tiles.map_values(|tile: TileInstance| tile_node_of(tile, level, layout, layer.grid_size)),
    }
}

/// Whether every reference of `entity` resolves in `project`.
pub open spec fn entity_resolves(project: &Project, entity: &LdtkEntity) -> bool {
    project.has_entity_def(entity.def_uid) && match entity.tile {
        Some(tile) => project.has_tileset(tile.tileset_uid),
        None => true,
    }
}

/// Whether every tileset and entity definition that `layer` names is held
/// by `project`.
pub open spec fn layer_resolves(project: &Project, layer: &LayerInstance) -> bool {
    match layer.data {
        LayerData::Tiles { tileset_uid, .. } => project.has_tileset(tileset_uid),
        LayerData::AutoLayer { tileset_uid, .. } => project.has_tileset(tileset_uid),
        LayerData::Entities { entities } => forall|i: int|
            0 <= i < entities@.len() ==> entity_resolves(project, #[trigger] &entities@[i]),
        LayerData::IntGrid { .. } => true,
    }
}

/// Whether every tileset and entity definition that `level` names is held
/// by `project`.
pub open spec fn level_resolves(project: &Project, level: &Level) -> bool {
    forall|i: int| 0 <= i < level.layers@.len() ==> layer_resolves(project, #[trigger] &level.layers@[i])
}

/// What the layer at position `index` of `level` owns in the scene.
pub open spec fn layer_content_of(
    project: &Project,
    level: &Level,
    textures: &TextureLookup,
    registries: &Registries,
    layout: LayoutMode,
    index: int,
) -> LayerContentView {
    let layer = &level.layers@[index];
    let z = (level.layers@.len() - 1 - index) as usize;
    match layer.data {
        LayerData::Tiles { tileset_uid, tiles } => LayerContentView::Surface(
            surface_of(
                tiles@,
                layer,
                &project.tilesets@[last_tileset(project.tilesets@, tileset_uid).unwrap()],
                level,
                layout,
                texture_for(textures.entries@, tileset_uid),
            ),
        ),
        LayerData::AutoLayer { tileset_uid, tiles } => LayerContentView::Surface(
            surface_of(
                tiles@,
                layer,
                &project.tilesets@[last_tileset(project.tilesets@, tileset_uid).unwrap()],
                level,
                layout,
                texture_for(textures.entries@, tileset_uid),
            ),
        ),
        LayerData::IntGrid { cells } => LayerContentView::Cells(
            cell_nodes_of(cells@, level, layout, layer.grid_size, registries.int_cells@),
        ),
        LayerData::Entities { entities } => LayerContentView::Entities(
            entity_nodes_of(entities@, index as usize, level, layout, z, registries.entities@),
        ),
    }
}

/// The z-index of the layer at position `index` among `count` layers.
///
/// A level lists its layers from the front to the back, and the scene
/// numbers them from the back to the front: the last layer has z-index 0
/// and the first has the greatest.
pub open spec fn z_index_of(count: int, index: int) -> int {
    count - 1 - index
}

/// The node of the layer at position `index` of `level`. A layer that holds
/// nothing still has its node.
pub open spec fn layer_node_of(
    project: &Project,
    level: &Level,
    textures: &TextureLookup,
    registries: &Registries,
    layout: LayoutMode,
    index: int,
) -> LayerNodeView {
    LayerNodeView {
        identifier: level.layers@[index].identifier@,
        kind: level.layers@[index].kind(),
        layer_index: index as usize,
        z_index: z_index_of(level.layers@.len() as int, index) as usize,
        content: layer_content_of(project, level, textures, registries, layout, index),
    }
}

/// The node of `level`: its layer nodes stand from the backmost to the
/// frontmost, so the node at position `k` is that of the layer at position
/// `count - 1 - k` and has the z-index `k`.
pub open spec fn level_node_of(
    project: &Project,
    level: &Level,
    textures: &TextureLookup,
    registries: &Registries,
    layout: LayoutMode,
) -> LevelNodeView {
    LevelNodeView {
        uid: level.uid,
        translation: level_origin(level, layout),
        layers: Seq::new(
            level.layers@.len(),
            |k: int|
                layer_node_of(
                    project,
                    level,
                    textures,
                    registries,
                    layout,
                    level.layers@.len() - 1 - k,
                ),
        ),
    }
}

/// The product of two bounded numbers is bounded by the product of the
/// bounds.
pub proof fn lemma_product_bounded(a: int, b: int, bound_a: int, bound_b: int)
    requires
        -bound_a <= a <= bound_a,
        -bound_b <= b <= bound_b,
    ensures
        -(bound_a * bound_b) <= a * b <= bound_a * bound_b,
{
    assert(-(bound_a * bound_b) <= a * b <= bound_a * bound_b) by (nonlinear_arith)
        requires
            -bound_a <= a <= bound_a,
            -bound_b <= b <= bound_b,
    ;
}

/// The node of one tile.
pub fn place_tile(tile: &TileInstance, level: &Level, layout: LayoutMode, grid_size: u32) -> (node:
    TileNode)
    ensures
        node == tile_node_of(*tile, level, layout, grid_size),
{
    let origin = origin_of(level, layout);
    TileNode {
        cell: tile.grid,
        chunk: chunk_of(tile.grid),
        src: tile.src,
        flip_x: tile.flip_x,
        flip_y: tile.flip_y,
        translation: Translation {
            x: origin.x + to_units(tile.px.x as i128),
            y: origin.y + to_units(level.px_hei as i128 - tile.px.y as i128 - grid_size as i128),
        },
    }
}

/// The node of one cell of an integer grid.
pub fn place_cell(
    cell: &IntGridCell,
    level: &Level,
    layout: LayoutMode,
    grid_size: u32,
    registries: &Registries,
) -> (node: CellNode)
    ensures
        node == cell_node_of(*cell, level, layout, grid_size, registries.int_cells@),
{
    let origin = origin_of(level, layout);
    let construction = match registries.cell_kind(cell.value) {
        Some(kind) => Construction::Registered(kind),
        None => Construction::Default,
    };
    proof {
        lemma_product_bounded(cell.grid.x as int, grid_size as int, 0x1_0000_0000, 0x1_0000_0000);
        lemma_product_bounded(
            cell.grid.y as int + 1,
            grid_size as int,
            0x1_0000_0000,
            0x1_0000_0000,
        );
    }
    let left: i128 = cell.grid.x as i128 * grid_size as i128;
    let bottom: i128 = (cell.grid.y as i128 + 1) * grid_size as i128;
    CellNode {
        value: LdtkIntGridCell(cell.value),
        grid: cell.grid,
        construction,
        translation: Translation {
            x: origin.x + to_units(left),
            y: origin.y + to_units(level.px_hei as i128 - bottom),
        },
    }
}

/// The node of one entity.
pub fn place_entity(
    entity: &LdtkEntity,
    key: EntityKey,
    level: &Level,
    layout: LayoutMode,
    z: usize,
    registries: &Registries,
) -> (node: EntityNode)
    ensures
        node@ == entity_node_of(entity, key, level, layout, z, registries.entities@),
{
    let origin = origin_of(level, layout);
    let strategy = registries.entity_strategy(&entity.identifier);
    let construction = match strategy {
        Some(s) => Construction::Registered(s.kind),
        None => Construction::Default,
    };
    let worldly = match strategy {
        Some(s) => s.worldly,
        None => false,
    };
    proof {
        lemma_product_bounded(
            entity.pivot.x as int,
            entity.width as int,
            0x1_0000_0000,
            0x8000_0000_0000_0000,
        );
        lemma_product_bounded(
            entity.pivot.y as int,
            entity.height as int,
            0x1_0000_0000,
            0x8000_0000_0000_0000,
        );
    }
    let anchor_x: i128 = entity.pivot.x as i128 * entity.width as i128;
    let anchor_y: i128 = entity.pivot.y as i128 * entity.height as i128;
    EntityNode {
        key,
        instance: entity.duplicate(),
        construction,
        worldly,
        z_index: z,
        translation: Translation {
            x: origin.x + to_units(entity.px.x as i128) - anchor_x,
            y: origin.y + to_units(
                level.px_hei as i128 - entity.px.y as i128 - entity.height as i128,
            ) + anchor_y,
        },
    }
}

/// Whether every reference of `entity` resolves in `project`.
pub fn check_entity(project: &Project, entity: &LdtkEntity) -> (resolves: bool)
    ensures
        resolves == entity_resolves(project, entity),
{
    if !project.knows_entity_def(entity.def_uid) {
        return false;
    }
    match entity.tile {
        Some(tile) => project.find_tileset(tile.tileset_uid).is_some(),
        None => true,
    }
}

/// The surface of a tile layer.
pub fn synthesize_surface(
    tiles: &Vec<TileInstance>,
    layer: &LayerInstance,
    tileset: &TilesetDefinition,
    level: &Level,
    layout: LayoutMode,
    texture: Option<u64>,
) -> (surface: TileSurface)
    ensures
        surface@ == surface_of(tiles@, layer, tileset, level, layout, texture),
{
    let mut nodes: Vec<TileNode> = Vec::new();
    let mut i: usize = 0;
    while i < tiles.len()
        invariant
            i <= tiles.len(),
            nodes@.len() == i,
            forall|k: int|
                0 <= k < i ==> nodes@[k] == tile_node_of(tiles@[k], level, layout, layer.grid_size),
        decreases tiles.len() - i,
    {
        nodes.push(place_tile(&tiles[i], level, layout, layer.grid_size));
        i += 1;
    }
    let surface = TileSurface {
        chunks_x: chunk_count(layer.c_wid),
        chunks_y: chunk_count(layer.c_hei),
        chunk_size: CHUNK_SIZE,
        tile_size: tileset.tile_grid_size,
        texture_width: tileset.px_wid,
        texture_height: tileset.px_hei,
        texture,
        tiles: nodes,
    };
    proof {
        assert(surface@.tiles =~= surface_of(tiles@, layer, tileset, level, layout, texture).tiles);
    }
    surface
}

/// The nodes of the cells of an integer grid.
pub fn synthesize_cells(
    cells: &Vec<IntGridCell>,
    level: &Level,
    layout: LayoutMode,
    grid_size: u32,
    registries: &Registries,
) -> (nodes: Vec<CellNode>)
    ensures
        nodes@ == cell_nodes_of(cells@, level, layout, grid_size, registries.int_cells@),
{
    let ghost place = |cell: IntGridCell|
        cell_node_of(cell, level, layout, grid_size, registries.int_cells@);
    let mut nodes: Vec<CellNode> = Vec::new();
    let mut i: usize = 0;
    proof {
        assert(cells@.take(0).filter(is_filled()) =~= Seq::<IntGridCell>::empty()) by {
            reveal_with_fuel(Seq::filter, 1);
        }
        assert(nodes@ =~= cells@.take(0).filter(is_filled()).map_values(place));
    }
    while i < cells.len()
        invariant
            i <= cells.len(),
            place == |cell: IntGridCell|
                cell_node_of(cell, level, layout, grid_size, registries.int_cells@),
            nodes@ == cells@.take(i as int).filter(is_filled()).map_values(place),
        decreases cells.len() - i,
    {
        let cell = cells[i];
        proof {
            let seen = cells@.take(i as int);
            assert(cells@.take(i + 1) =~= seen.push(cell));
            lemma_filter_push(seen, cell, is_filled());
            if cell.value != 0 {
                assert(seen.filter(is_filled()).push(cell).map_values(place) =~= seen.filter(
                    is_filled(),
                ).map_values(place).push(place(cell)));
            }
        }
        if cell.value != 0 {
            nodes.push(place_cell(&cell, level, layout, grid_size, registries));
        }
        i += 1;
    }
    proof {
        assert(cells@.take(cells@.len() as int) =~= cells@);
    }
    nodes
}

/// The nodes of the entities of the layer at position `layer` of `level`,
/// unless a reference of one of them does not resolve.
pub fn synthesize_entities(
    project: &Project,
    entities: &Vec<LdtkEntity>,
    layer: usize,
    level: &Level,
    layout: LayoutMode,
    z: usize,
    registries: &Registries,
) -> (result: Result<Vec<EntityNode>, SynthesisError>)
    ensures
        match result {
            Ok(nodes) => (forall|i: int|
                0 <= i < entities@.len() ==> entity_resolves(project, #[trigger] &entities@[i]))
                && entity_views(nodes@) == entity_nodes_of(
                entities@,
                layer,
                level,
                layout,
                z,
                registries.entities@,
            ),
            Err(error) => !(forall|i: int|
                0 <= i < entities@.len() ==> entity_resolves(project, #[trigger] &entities@[i])),
        },
{
    let mut nodes: Vec<EntityNode> = Vec::new();
    let mut i: usize = 0;
    while i < entities.len()
        invariant
            i <= entities.len(),
            nodes@.len() == i,
            forall|k: int| 0 <= k < i ==> entity_resolves(project, #[trigger] &entities@[k]),
            forall|k: int|
                0 <= k < i ==> (#[trigger] nodes@[k])@ == entity_node_of(
                    &entities@[k],
                    EntityKey { level_uid: level.uid, layer, index: k as usize },
                    level,
                    layout,
                    z,
                    registries.entities@,
                ),
        decreases entities.len() - i,
    {
        if !check_entity(project, &entities[i]) {
            return Err(SynthesisError::InvalidReference);
        }
        let key = EntityKey { level_uid: level.uid, layer, index: i };
        nodes.push(place_entity(&entities[i], key, level, layout, z, registries));
        i += 1;
    }
    proof {
        assert(entity_views(nodes@) =~= entity_nodes_of(
            entities@,
            layer,
            level,
            layout,
            z,
            registries.entities@,
        ));
    }
    Ok(nodes)
}

/// The node of the layer at position `index` of `level`.
///
/// Fails if the layer names a tileset, or one of its entities names an
/// entity definition or a tileset, that `project` does not hold.
pub fn synthesize_layer(
    project: &Project,
    level: &Level,
    textures: &TextureLookup,
    registries: &Registries,
    layout: LayoutMode,
    index: usize,
) -> (result: Result<LayerNode, SynthesisError>)
    requires
        index < level.layers@.len(),
    ensures
        match result {
            Ok(node) => layer_resolves(project, &level.layers@[index as int]) && node@
                == layer_node_of(project, level, textures, registries, layout, index as int),
            Err(error) => !layer_resolves(project, &level.layers@[index as int]),
        },
{
    let layer = &level.layers[index];
    let z = level.layers.len() - 1 - index;
    let content = match &layer.data {
        LayerData::Tiles { tileset_uid, tiles } => {
            match project.find_tileset(*tileset_uid) {
                Some(at) => LayerContent::Surface(
                    synthesize_surface(
                        tiles,
                        layer,
                        &project.tilesets[at],
                        level,
                        layout,
                        textures.texture(*tileset_uid),
                    ),
                ),
                None => {
                    return Err(SynthesisError::InvalidReference);
                },
            }
        },
        LayerData::AutoLayer { tileset_uid, tiles } => {
            match project.find_tileset(*tileset_uid) {
                Some(at) => LayerContent::Surface(
                    synthesize_surface(
                        tiles,
                        layer,
                        &project.tilesets[at],
                        level,
                        layout,
                        textures.texture(*tileset_uid),
                    ),
                ),
                None => {
                    return Err(SynthesisError::InvalidReference);
                },
            }
        },
        LayerData::IntGrid { cells } => LayerContent::Cells(
            synthesize_cells(cells, level, layout, layer.grid_size, registries),
        ),
        LayerData::Entities { entities } => {
            match synthesize_entities(project, entities, index, level, layout, z, registries) {
                Ok(nodes) => LayerContent::Entities(nodes),
                Err(error) => {
                    return Err(error);
                },
            }
        },
    };
    Ok(
        LayerNode {
            identifier: layer.identifier.clone(),
            kind: layer.kind(),
            layer_index: index,
            z_index: z,
            content,
        },
    )
}

/// Builds the scene of one level.
///
/// The result is the level's node with one node for each layer, from the
/// backmost to the frontmost. Synthesis is all or nothing: it fails, and
/// gives no node at all, exactly when the level names a tileset or an
/// entity definition that `project` does not hold.
pub fn synthesize(
    level: &Level,
    project: &Project,
    textures: &TextureLookup,
    registries: &Registries,
    layout: LayoutMode,
) -> (result: Result<LevelNode, SynthesisError>)
    ensures
        match result {
            Ok(node) => level_resolves(project, level) && node@ == level_node_of(
                project,
                level,
                textures,
                registries,
                layout,
            ),
            Err(error) => !level_resolves(project, level) && error
                == SynthesisError::InvalidReference,
        },
{
    let count = level.layers.len();
    let mut layers: Vec<LayerNode> = Vec::new();
    let mut k: usize = 0;
    while k < count
        invariant
            k <= count,
            count == level.layers@.len(),
            layers@.len() == k,
            forall|j: int|
                0 <= j < k ==> layer_resolves(project, #[trigger] &level.layers@[count - 1 - j]),
            forall|j: int|
                0 <= j < k ==> (#[trigger] layers@[j])@ == layer_node_of(
                    project,
                    level,
                    textures,
                    registries,
                    layout,
                    count - 1 - j,
                ),
        decreases count - k,
    {
        match synthesize_layer(project, level, textures, registries, layout, count - 1 - k) {
            Ok(node) => {
                layers.push(node);
            },
            Err(error) => {
                return Err(SynthesisError::InvalidReference);
            },
        }
        k += 1;
    }
    let node = LevelNode { uid: level.uid, translation: origin_of(level, layout), layers };
    proof {
        assert forall|i: int| 0 <= i < level.layers@.len() implies layer_resolves(
            project,
            #[trigger] &level.layers@[i],
        ) by {
            let j = count - 1 - i;
            assert(layer_resolves(project, &level.layers@[count - 1 - j]));
        }
        assert(node@.layers =~= level_node_of(project, level, textures, registries, layout).layers);
    }
    Ok(node)
}

/// The z-order of a level: the node of each layer has the z-index that
/// its place in the level gives it, nodes stand in the order of their
/// z-indices, and of two layers the one that the level lists first gets
/// the greater z-index and so is drawn over the other.
pub proof fn lemma_z_order(
    project: &Project,
    level: &Level,
    textures: &TextureLookup,
    registries: &Registries,
    layout: LayoutMode,
    first: int,
    second: int,
)
    requires
        0 <= first < second < level.layers@.len(),
    ensures
        ({
            let node = level_node_of(project, level, textures, registries, layout);
            let count = level.layers@.len() as int;
            &&& node.layers.len() == count
            &&& node.layers[count - 1 - first].layer_index == first
            &&& node.layers[count - 1 - second].layer_index == second
            &&& node.layers[count - 1 - first].z_index == count - 1 - first
            &&& node.layers[count - 1 - second].z_index == count - 1 - second
            &&& node.layers[count - 1 - first].z_index > node.layers[count - 1 - second].z_index
        }),
{
    assert(level.layers@.len() <= usize::MAX) by {
        assert(level.layers.len() == level.layers@.len());
    }
}

} // verus!
