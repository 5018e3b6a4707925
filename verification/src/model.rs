//! The project model: the typed form of one level-design document.
//!
//! Everything here is plain data. Identifiers named `uid` are opaque keys
//! minted by the authoring tool; they are looked up, never used as indices.

use vstd::prelude::*;

verus! {

/// A position in pixels or grid cells; `y` grows downwards in the document.
#[derive(Clone, Copy, Debug, PartialEq, Eq, Structural, Hash)]
pub struct Point {
    pub x: i64,
    pub y: i64,
}

/// The column and row of one cell of a layer's grid, counted from the
/// top-left cell.
#[derive(Clone, Copy, Debug, PartialEq, Eq, Structural, Hash)]
pub struct GridCoords {
    pub x: u32,
    pub y: u32,
}

/// A rectangle of pixels inside a tileset's texture.
#[derive(Clone, Copy, Debug, PartialEq, Eq, Structural, Hash)]
pub struct Rect {
    pub x: i64,
    pub y: i64,
    pub width: i64,
    pub height: i64,
}

/// Number of pivot units that make up the whole extent of an entity.
pub const PIVOT_SCALE: u32 = 1000;

/// The anchor of an entity inside its own rectangle, in units of
/// `1 / PIVOT_SCALE` of the entity's size: `(0, 0)` is the top-left corner,
/// `(PIVOT_SCALE, PIVOT_SCALE)` the bottom-right one.
#[derive(Clone, Copy, Debug, PartialEq, Eq, Structural, Hash)]
pub struct Pivot {
    pub x: u32,
    pub y: u32,
}

/// The value carried by a cell of an integer grid. Zero means "empty".
#[derive(Clone, Copy, Debug, PartialEq, Eq, Structural, PartialOrd, Ord, Hash)]
pub struct LdtkIntGridCell(pub i64);

impl Default for LdtkIntGridCell {
    fn default() -> (cell: Self)
        ensures
            cell.0 == 0,
    {
        LdtkIntGridCell(0)
    }
}

impl LdtkIntGridCell {
    /// The integer stored in the cell.
    pub fn value(&self) -> (value: i64)
        ensures
            value == self.0,
    {
        self.0
    }

    /// Whether the cell holds nothing.
    pub fn is_empty(&self) -> (empty: bool)
        ensures
            empty == (self.0 == 0),
    {
        self.0 == 0
    }
}

/// The tile that the editor draws for an entity.
#[derive(Clone, Copy, Debug, PartialEq, Eq, Structural, Hash)]
pub struct LdtkEntityTile {
    pub src_rect: Rect,
    pub tileset_uid: i64,
}

impl Default for LdtkEntityTile {
    fn default() -> (tile: Self)
        ensures
            tile == (LdtkEntityTile {
                src_rect: Rect { x: 0, y: 0, width: 0, height: 0 },
                tileset_uid: 0,
            }),
    {
        LdtkEntityTile { src_rect: Rect { x: 0, y: 0, width: 0, height: 0 }, tileset_uid: 0 }
    }
}

/// A field value that is not an array.
#[derive(Clone, Debug, PartialEq, Eq, Hash)]
pub enum FieldScalar {
    Int(i64),
    /// A floating-point number, kept as the bit pattern of its 64-bit
    /// IEEE 754 representation.
    Float { bits: u64 },
    Bool(bool),
    Text(String),
    /// One value of the enum definition `enum_uid`.
    EnumRef { enum_uid: i64, value: String },
    Point(Point),
    /// A colour as `0xRRGGBB`.
    Color(u32),
}

/// The mathematical value of a [`FieldScalar`].
pub enum FieldScalarView {
    Int(i64),
    Float { bits: u64 },
    Bool(bool),
    Text(Seq<char>),
    EnumRef { enum_uid: i64, value: Seq<char> },
    Point(Point),
    Color(u32),
}

impl View for FieldScalar {
    type V = FieldScalarView;

    open spec fn view(&self) -> FieldScalarView {
        match *self {
            FieldScalar::Int(v) => FieldScalarView::Int(v),
            FieldScalar::Float { bits } => FieldScalarView::Float { bits },
            FieldScalar::Bool(b) => FieldScalarView::Bool(b),
            FieldScalar::Text(s) => FieldScalarView::Text(s@),
            FieldScalar::EnumRef { enum_uid, value } => FieldScalarView::EnumRef {
                enum_uid,
                value: value@,
            },
            FieldScalar::Point(p) => FieldScalarView::Point(p),
            FieldScalar::Color(c) => FieldScalarView::Color(c),
        }
    }
}

impl FieldScalar {
    /// An independent copy with the same value.
    pub fn duplicate(&self) -> (copy: FieldScalar)
        ensures
            copy@ == self@,
    {
        match self {
            FieldScalar::Int(v) => FieldScalar::Int(*v),
            FieldScalar::Float { bits } => FieldScalar::Float { bits: *bits },
            FieldScalar::Bool(b) => FieldScalar::Bool(*b),
            FieldScalar::Text(s) => FieldScalar::Text(s.clone()),
            FieldScalar::EnumRef { enum_uid, value } => FieldScalar::EnumRef {
                enum_uid: *enum_uid,
                value: value.clone(),
            },
            FieldScalar::Point(p) => FieldScalar::Point(*p),
            FieldScalar::Color(c) => FieldScalar::Color(*c),
        }
    }
}

/// The typed value of one field of an entity.
#[derive(Clone, Debug, PartialEq, Eq, Hash)]
pub enum FieldValue {
    Scalar(FieldScalar),
    Array(Vec<FieldScalar>),
    /// A reference to another entity, by that entity's instance identifier.
    EntityRef(String),
    /// The field is unset.
    Null,
}

/// The mathematical value of a [`FieldValue`].
pub enum FieldValueView {
    Scalar(FieldScalarView),
    Array(Seq<FieldScalarView>),
    EntityRef(Seq<char>),
    Null,
}

/// The values of a run of scalars, in order.
pub open spec fn scalar_views(items: Seq<FieldScalar>) -> Seq<FieldScalarView> {
    Seq::new(items.len(), |i: int| items[i]@)
}

impl View for FieldValue {
    type V = FieldValueView;

    open spec fn view(&self) -> FieldValueView {
        match *self {
            FieldValue::Scalar(s) => FieldValueView::Scalar(s@),
            FieldValue::Array(items) => FieldValueView::Array(scalar_views(items@)),
            FieldValue::EntityRef(r) => FieldValueView::EntityRef(r@),
            FieldValue::Null => FieldValueView::Null,
        }
    }
}

impl FieldValue {
    /// An independent copy with the same value.
    pub fn duplicate(&self) -> (copy: FieldValue)
        ensures
            copy@ == self@,
    {
        match self {
            FieldValue::Scalar(s) => FieldValue::Scalar(s.duplicate()),
            FieldValue::Array(items) => {
                let mut out: Vec<FieldScalar> = Vec::new();
                let mut i: usize = 0;
                while i < items.len()
                    invariant
                        i <= items.len(),
                        out@.len() == i,
                        forall|k: int| 0 <= k < i ==> out@[k]@ == items@[k]@,
                    decreases items.len() - i,
                {
                    out.push(items[i].duplicate());
                    i += 1;
                }
                proof {
                    assert(scalar_views(out@) =~= scalar_views(items@));
                }
                FieldValue::Array(out)
            },
            FieldValue::EntityRef(r) => FieldValue::EntityRef(r.clone()),
            FieldValue::Null => FieldValue::Null,
        }
    }
}

/// One field of an entity: its name, the uid of its definition and its value.
#[derive(Clone, Debug, PartialEq, Eq, Hash)]
pub struct LdtkField {
    pub identifier: String,
    pub value: FieldValue,
    pub def_uid: i64,
}

/// The mathematical value of an [`LdtkField`].
pub struct LdtkFieldView {
    pub identifier: Seq<char>,
    pub value: FieldValueView,
    pub def_uid: i64,
}

impl View for LdtkField {
    type V = LdtkFieldView;

    open spec fn view(&self) -> LdtkFieldView {
        LdtkFieldView { identifier: self.identifier@, value: self.value@, def_uid: self.def_uid }
    }
}

impl Default for LdtkField {
    fn default() -> (field: Self)
        ensures
            field@ == (LdtkFieldView {
                identifier: Seq::<char>::empty(),
                value: FieldValueView::Null,
                def_uid: 0,
            }),
    {
        LdtkField { identifier: String::new(), value: FieldValue::Null, def_uid: 0 }
    }
}

impl LdtkField {
    /// An independent copy with the same value.
    pub fn duplicate(&self) -> (copy: LdtkField)
        ensures
            copy@ == self@,
    {
        LdtkField {
            identifier: self.identifier.clone(),
            value: self.value.duplicate(),
            def_uid: self.def_uid,
        }
    }
}

/// One entity placed in an entity layer.
#[derive(Clone, Debug, PartialEq, Eq, Hash)]
pub struct LdtkEntity {
    /// The grid cell that holds the entity's pivot.
    pub grid: Point,
    /// The identifier of the entity's definition.
    pub identifier: String,
    pub pivot: Pivot,
    pub tile: Option<LdtkEntityTile>,
    /// The uid of the entity's definition.
    pub def_uid: i64,
    pub field_instances: Vec<LdtkField>,
    /// Height in pixels.
    pub height: i64,
    /// The position of the pivot, in pixels from the level's top-left corner.
    pub px: Point,
    /// Width in pixels.
    pub width: i64,
}

/// The mathematical value of an [`LdtkEntity`].
pub struct LdtkEntityView {
    pub grid: Point,
    pub identifier: Seq<char>,
    pub pivot: Pivot,
    pub tile: Option<LdtkEntityTile>,
    pub def_uid: i64,
    pub field_instances: Seq<LdtkFieldView>,
    pub height: i64,
    pub px: Point,
    pub width: i64,
}

/// The values of a run of fields, in order.
pub open spec fn field_views(fields: Seq<LdtkField>) -> Seq<LdtkFieldView> {
    Seq::new(fields.len(), |i: int| fields[i]@)
}

impl View for LdtkEntity {
    type V = LdtkEntityView;

    open spec fn view(&self) -> LdtkEntityView {
        LdtkEntityView {
            grid: self.grid,
            identifier: self.identifier@,
            pivot: self.pivot,
            tile: self.tile,
            def_uid: self.def_uid,
            field_instances: field_views(self.field_instances@),
            height: self.height,
            px: self.px,
            width: self.width,
        }
    }
}

impl Default for LdtkEntity {
    fn default() -> (entity: Self)
        ensures
            entity@ == (LdtkEntityView {
                grid: Point { x: 0, y: 0 },
                identifier: Seq::<char>::empty(),
                pivot: Pivot { x: 0, y: 0 },
                tile: None,
                def_uid: 0,
                field_instances: Seq::<LdtkFieldView>::empty(),
                height: 0,
                px: Point { x: 0, y: 0 },
                width: 0,
            }),
    {
        let entity = LdtkEntity {
            grid: Point { x: 0, y: 0 },
            identifier: String::new(),
            pivot: Pivot { x: 0, y: 0 },
            tile: None,
            def_uid: 0,
            field_instances: Vec::new(),
            height: 0,
            px: Point { x: 0, y: 0 },
            width: 0,
        };
        proof {
            assert(entity@.field_instances =~= Seq::<LdtkFieldView>::empty());
        }
        entity
    }
}

impl LdtkEntity {
    /// An independent copy with the same value.
    pub fn duplicate(&self) -> (copy: LdtkEntity)
        ensures
            copy@ == self@,
    {
        let mut fields: Vec<LdtkField> = Vec::new();
        let mut i: usize = 0;
        while i < self.field_instances.len()
            invariant
                i <= self.field_instances.len(),
                fields@.len() == i,
                forall|k: int| 0 <= k < i ==> fields@[k]@ == self.field_instances@[k]@,
            decreases self.field_instances.len() - i,
        {
            fields.push(self.field_instances[i].duplicate());
            i += 1;
        }
        proof {
            assert(field_views(fields@) =~= field_views(self.field_instances@));
        }
        LdtkEntity {
            grid: self.grid,
            identifier: self.identifier.clone(),
            pivot: self.pivot,
            tile: self.tile,
            def_uid: self.def_uid,
            field_instances: fields,
            height: self.height,
            px: self.px,
            width: self.width,
        }
    }
}

/// One tile placed in a tile layer.
#[derive(Clone, Copy, Debug, PartialEq, Eq, Structural, Hash)]
pub struct TileInstance {
    /// The grid cell that the tile covers.
    pub grid: GridCoords,
    /// The tile's top-left corner, in pixels from the layer's top-left corner.
    pub px: Point,
    /// The part of the tileset's texture that the tile shows.
    pub src: Rect,
    pub flip_x: bool,
    pub flip_y: bool,
}

/// One cell of an integer grid. Cells that are absent, or whose value is
/// zero, are empty.
#[derive(Clone, Copy, Debug, PartialEq, Eq, Structural, Hash)]
pub struct IntGridCell {
    pub grid: GridCoords,
    pub value: i64,
}

/// The four kinds of layer.
#[derive(Clone, Copy, Debug, PartialEq, Eq, Structural, Hash)]
pub enum LayerKind {
    Tiles,
    AutoLayer,
    Entities,
    IntGrid,
}

/// What a layer holds. The variant is the layer's kind; the two tile kinds
/// name the tileset that their tiles are cut from.
#[derive(Clone, Debug, PartialEq, Eq, Hash)]
pub enum LayerData {
    Tiles { tileset_uid: i64, tiles: Vec<TileInstance> },
    AutoLayer { tileset_uid: i64, tiles: Vec<TileInstance> },
    Entities { entities: Vec<LdtkEntity> },
    IntGrid { cells: Vec<IntGridCell> },
}

/// One layer of a level.
#[derive(Clone, Debug, PartialEq, Eq, Hash)]
pub struct LayerInstance {
    pub identifier: String,
    /// Number of grid columns.
    pub c_wid: u32,
    /// Number of grid rows.
    pub c_hei: u32,
    /// Side of one grid cell, in pixels.
    pub grid_size: u32,
    pub data: LayerData,
}

impl LayerInstance {
    /// The kind of this layer.
    pub open spec fn spec_kind(&self) -> LayerKind {
        match self.data {
            LayerData::Tiles { .. } => LayerKind::Tiles,
            LayerData::AutoLayer { .. } => LayerKind::AutoLayer,
            LayerData::Entities { .. } => LayerKind::Entities,
            LayerData::IntGrid { .. } => LayerKind::IntGrid,
        }
    }

    /// The tileset that this layer draws from, if it is a tile layer.
    pub open spec fn spec_tileset_uid(&self) -> Option<i64> {
        match self.data {
            LayerData::Tiles { tileset_uid, .. } => Some(tileset_uid),
            LayerData::AutoLayer { tileset_uid, .. } => Some(tileset_uid),
            _ => None,
        }
    }

    /// The kind of this layer.
    #[verifier::when_used_as_spec(spec_kind)]
    pub fn kind(&self) -> (kind: LayerKind)
        ensures
            kind == self.spec_kind(),
    {
        match &self.data {
            LayerData::Tiles { .. } => LayerKind::Tiles,
            LayerData::AutoLayer { .. } => LayerKind::AutoLayer,
            LayerData::Entities { .. } => LayerKind::Entities,
            LayerData::IntGrid { .. } => LayerKind::IntGrid,
        }
    }

    /// The tileset that this layer draws from, if it is a tile layer.
    #[verifier::when_used_as_spec(spec_tileset_uid)]
    pub fn tileset_uid(&self) -> (uid: Option<i64>)
        ensures
            uid == self.spec_tileset_uid(),
    {
        match &self.data {
            LayerData::Tiles { tileset_uid, .. } => Some(*tileset_uid),
            LayerData::AutoLayer { tileset_uid, .. } => Some(*tileset_uid),
            _ => None,
        }
    }
}

/// A tileset: a texture cut into square tiles.
#[derive(Clone, Debug, PartialEq, Eq, Hash)]
pub struct TilesetDefinition {
    pub uid: i64,
    pub identifier: String,
    /// Width of the texture, in pixels.
    pub px_wid: u32,
    /// Height of the texture, in pixels.
    pub px_hei: u32,
    /// Side of one tile, in pixels.
    pub tile_grid_size: u32,
    /// Gap between neighbouring tiles, in pixels.
    pub spacing: u32,
    /// Margin around the tiles, in pixels.
    pub padding: u32,
}

/// The definition that entities of one kind refer to.
#[derive(Clone, Debug, PartialEq, Eq, Hash)]
pub struct EntityDefinition {
    pub uid: i64,
    pub identifier: String,
}

/// An enumeration that field values may refer to.
#[derive(Clone, Debug, PartialEq, Eq, Hash)]
pub struct EnumDefinition {
    pub uid: i64,
    pub identifier: String,
    pub values: Vec<String>,
}

/// One level: a rectangle of the world with its layers, front layer first.
#[derive(Clone, Debug, PartialEq, Eq, Hash)]
pub struct Level {
    pub uid: i64,
    pub identifier: String,
    /// Left edge in world space, in pixels.
    pub world_x: i64,
    /// Top edge in world space, in pixels; `y` grows downwards.
    pub world_y: i64,
    /// Width in pixels.
    pub px_wid: u32,
    /// Height in pixels.
    pub px_hei: u32,
    pub layers: Vec<LayerInstance>,
}

/// A whole document.
#[derive(Clone, Debug, PartialEq, Eq, Hash)]
pub struct Project {
    pub tilesets: Vec<TilesetDefinition>,
    pub entity_defs: Vec<EntityDefinition>,
    pub enum_defs: Vec<EnumDefinition>,
    pub levels: Vec<Level>,
}

/// The position in `tilesets` of the definition that stands for `uid`:
/// definitions are keyed by uid, so where several carry the same uid the
/// last of them counts.
pub open spec fn last_tileset(tilesets: Seq<TilesetDefinition>, uid: i64) -> Option<int>
    decreases tilesets.len(),
{
    if tilesets.len() == 0 {
        None
    } else if tilesets.last().uid == uid {
        Some(tilesets.len() - 1)
    } else {
        last_tileset(tilesets.drop_last(), uid)
    }
}

impl Project {
    /// Whether some tileset definition carries `uid`.
    pub open spec fn has_tileset(&self, uid: i64) -> bool {
        exists|i: int| 0 <= i < self.tilesets@.len() && #[trigger] self.tilesets@[i].uid == uid
    }

    /// Whether some entity definition carries `uid`.
    pub open spec fn has_entity_def(&self, uid: i64) -> bool {
        exists|i: int| 0 <= i < self.entity_defs@.len() && #[trigger] self.entity_defs@[i].uid == uid
    }

    /// Whether some enum definition carries `uid`.
    pub open spec fn has_enum_def(&self, uid: i64) -> bool {
        exists|i: int| 0 <= i < self.enum_defs@.len() && #[trigger] self.enum_defs@[i].uid == uid
    }

    /// The position of the tileset definition that stands for `uid`.
    pub fn find_tileset(&self, uid: i64) -> (found: Option<usize>)
        ensures
            found is Some <==> self.has_tileset(uid),
            match found {
                Some(i) => last_tileset(self.tilesets@, uid) == Some(i as int) && i
                    < self.tilesets@.len() && self.tilesets@[i as int].uid == uid,
                None => last_tileset(self.tilesets@, uid) is None,
            },
    {
        let mut found: Option<usize> = None;
        let mut i: usize = 0;
        while i < self.tilesets.len()
            invariant
                i <= self.tilesets.len(),
                found is Some <==> exists|k: int| 0 <= k < i && #[trigger] self.tilesets@[k].uid == uid,
                match found {
                    Some(j) => last_tileset(self.tilesets@.take(i as int), uid) == Some(j as int) && j
                        < i && self.tilesets@[j as int].uid == uid,
                    None => last_tileset(self.tilesets@.take(i as int), uid) is None,
                },
            decreases self.tilesets.len() - i,
        {
            proof {
                assert(self.tilesets@.take(i + 1).drop_last() =~= self.tilesets@.take(i as int));
            }
            if self.tilesets[i].uid == uid {
                found = Some(i);
            }
            i += 1;
        }
        proof {
            assert(self.tilesets@.take(self.tilesets@.len() as int) =~= self.tilesets@);
        }
        found
    }

    /// Whether some entity definition carries `uid`.
    pub fn knows_entity_def(&self, uid: i64) -> (known: bool)
        ensures
            known == self.has_entity_def(uid),
    {
        let mut i: usize = 0;
        while i < self.entity_defs.len()
            invariant
                i <= self.entity_defs.len(),
                forall|k: int| 0 <= k < i ==> self.entity_defs@[k].uid != uid,
            decreases self.entity_defs.len() - i,
        {
            if self.entity_defs[i].uid == uid {
                return true;
            }
            i += 1;
        }
        false
    }

    /// Whether some enum definition carries `uid`.
    pub fn knows_enum_def(&self, uid: i64) -> (known: bool)
        ensures
            known == self.has_enum_def(uid),
    {
        let mut i: usize = 0;
        while i < self.enum_defs.len()
            invariant
                i <= self.enum_defs.len(),
                forall|k: int| 0 <= k < i ==> self.enum_defs@[k].uid != uid,
            decreases self.enum_defs.len() - i,
        {
            if self.enum_defs[i].uid == uid {
                return true;
            }
            i += 1;
        }
        false
    }
}

} // verus!
