//! The scene: what synthesis makes of a level.
//!
//! A level node owns its layer nodes, and a layer node owns its tiles, its
//! cells or its entities. Positions are kept in world space, in units of
//! `1 / PIVOT_SCALE` of a pixel, with `y` growing upwards: a node keeps its
//! position when it is handed to another owner.

use vstd::prelude::*;
use crate::model::GridCoords;
use crate::model::LayerKind;
use crate::model::LdtkEntity;
use crate::model::LdtkEntityView;
use crate::model::LdtkIntGridCell;
use crate::model::Rect;

verus! {

/// The position of the bottom-left corner of a node's rectangle.
#[derive(Clone, Copy, Debug, PartialEq, Eq, Structural, Hash)]
pub struct Translation {
    pub x: i128,
    pub y: i128,
}

/// How a node is built: in the default way, or as the registered kind with
/// the given number.
#[derive(Clone, Copy, Debug, PartialEq, Eq, Structural, Hash)]
pub enum Construction {
    Default,
    Registered(u32),
}

/// One tile of a tile surface.
#[derive(Clone, Copy, Debug, PartialEq, Eq, Structural, Hash)]
pub struct TileNode {
    /// The grid cell that the tile covers, counted from the top-left cell.
    pub cell: GridCoords,
    /// The chunk that covers that cell.
    pub chunk: GridCoords,
    pub src: Rect,
    pub flip_x: bool,
    pub flip_y: bool,
    pub translation: Translation,
}

/// The tiles of one tile layer, ready for a chunked surface.
#[derive(Clone, Debug, PartialEq, Eq, Hash)]
pub struct TileSurface {
    /// Number of chunks in a row of chunks.
    pub chunks_x: u32,
    /// Number of rows of chunks.
    pub chunks_y: u32,
    /// Side of one chunk, in grid cells.
    pub chunk_size: u32,
    /// Side of one tile of the tileset, in pixels.
    pub tile_size: u32,
    pub texture_width: u32,
    pub texture_height: u32,
    /// The drawable surface of the tileset, where one is known.
    pub texture: Option<u64>,
    pub tiles: Vec<TileNode>,
}

/// The mathematical value of a [`TileSurface`].
pub struct TileSurfaceView {
    pub chunks_x: u32,
    pub chunks_y: u32,
    pub chunk_size: u32,
    pub tile_size: u32,
    pub texture_width: u32,
    pub texture_height: u32,
    pub texture: Option<u64>,
    pub tiles: Seq<TileNode>,
}

impl View for TileSurface {
    type V = TileSurfaceView;

    open spec fn view(&self) -> TileSurfaceView {
        TileSurfaceView {
            chunks_x: self.chunks_x,
            chunks_y: self.chunks_y,
            chunk_size: self.chunk_size,
            tile_size: self.tile_size,
            texture_width: self.texture_width,
            texture_height: self.texture_height,
            texture: self.texture,
            tiles: self.tiles@,
        }
    }
}

/// The node of one cell of an integer grid that is not empty.
#[derive(Clone, Copy, Debug, PartialEq, Eq, Structural, Hash)]
pub struct CellNode {
    pub value: LdtkIntGridCell,
    pub grid: GridCoords,
    pub construction: Construction,
    pub translation: Translation,
}

/// What tells one placed entity from every other: the level that holds it,
/// the position of its layer in that level and its own position in that
/// layer.
#[derive(Clone, Copy, Debug, PartialEq, Eq, Structural, Hash)]
pub struct EntityKey {
    pub level_uid: i64,
    pub layer: usize,
    pub index: usize,
}

/// The node of one entity.
#[derive(Clone, Debug, PartialEq, Eq, Hash)]
pub struct EntityNode {
    pub key: EntityKey,
    pub instance: LdtkEntity,
    pub construction: Construction,
    /// Whether the node outlives the level that it was spawned with.
    pub worldly: bool,
    /// The z-index of the layer that the entity was placed in.
    pub z_index: usize,
    pub translation: Translation,
}

/// The mathematical value of an [`EntityNode`].
pub struct EntityNodeView {
    pub key: EntityKey,
    pub instance: LdtkEntityView,
    pub construction: Construction,
    pub worldly: bool,
    pub z_index: usize,
    pub translation: Translation,
}

impl View for EntityNode {
    type V = EntityNodeView;

    open spec fn view(&self) -> EntityNodeView {
        EntityNodeView {
            key: self.key,
            instance: self.instance@,
            construction: self.construction,
            worldly: self.worldly,
            z_index: self.z_index,
            translation: self.translation,
        }
    }
}

impl EntityNode {
    /// An independent copy with the same value.
    pub fn duplicate(&self) -> (copy: EntityNode)
        ensures
            copy@ == self@,
    {
        EntityNode {
            key: self.key,
            instance: self.instance.duplicate(),
            construction: self.construction,
            worldly: self.worldly,
            z_index: self.z_index,
            translation: self.translation,
        }
    }
}

/// The values of a run of entity nodes, in order.
pub open spec fn entity_views(nodes: Seq<EntityNode>) -> Seq<EntityNodeView> {
    Seq::new(nodes.len(), |i: int| nodes[i]@)
}

/// What a layer node owns.
#[derive(Clone, Debug, PartialEq, Eq, Hash)]
pub enum LayerContent {
    Surface(TileSurface),
    Cells(Vec<CellNode>),
    Entities(Vec<EntityNode>),
}

/// The mathematical value of a [`LayerContent`].
pub enum LayerContentView {
    Surface(TileSurfaceView),
    Cells(Seq<CellNode>),
    Entities(Seq<EntityNodeView>),
}

impl View for LayerContent {
    type V = LayerContentView;

    open spec fn view(&self) -> LayerContentView {
        match *self {
            LayerContent::Surface(surface) => LayerContentView::Surface(surface@),
            LayerContent::Cells(cells) => LayerContentView::Cells(cells@),
            LayerContent::Entities(nodes) => LayerContentView::Entities(entity_views(nodes@)),
        }
    }
}

/// The node of one layer.
#[derive(Clone, Debug, PartialEq, Eq, Hash)]
pub struct LayerNode {
    pub identifier: String,
    pub kind: LayerKind,
    /// The position of the layer in its level's layer sequence.
    pub layer_index: usize,
    /// The drawing order: a node with a greater z-index is drawn over one
    /// with a smaller z-index.
    pub z_index: usize,
    pub content: LayerContent,
}

/// The mathematical value of a [`LayerNode`].
pub struct LayerNodeView {
    pub identifier: Seq<char>,
    pub kind: LayerKind,
    pub layer_index: usize,
    pub z_index: usize,
    pub content: LayerContentView,
}

impl View for LayerNode {
    type V = LayerNodeView;

    open spec fn view(&self) -> LayerNodeView {
        LayerNodeView {
            identifier: self.identifier@,
            kind: self.kind,
            layer_index: self.layer_index,
            z_index: self.z_index,
            content: self.content@,
        }
    }
}

/// The values of a run of layer nodes, in order.
pub open spec fn layer_views(nodes: Seq<LayerNode>) -> Seq<LayerNodeView> {
    Seq::new(nodes.len(), |i: int| nodes[i]@)
}

/// The node of one level, with its layer nodes from the backmost to the
/// frontmost.
#[derive(Clone, Debug, PartialEq, Eq, Hash)]
pub struct LevelNode {
    pub uid: i64,
    pub translation: Translation,
    pub layers: Vec<LayerNode>,
}

/// The mathematical value of a [`LevelNode`].
pub struct LevelNodeView {
    pub uid: i64,
    pub translation: Translation,
    pub layers: Seq<LayerNodeView>,
}

impl View for LevelNode {
    type V = LevelNodeView;

    open spec fn view(&self) -> LevelNodeView {
        LevelNodeView {
            uid: self.uid,
            translation: self.translation,
            layers: layer_views(self.layers@),
        }
    }
}

} // verus!
