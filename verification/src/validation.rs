//! Reference checking: whether every uid that a document names is held by
//! the document itself.

use vstd::prelude::*;
use crate::model::FieldScalar;
use crate::model::FieldValue;
use crate::model::LayerData;
use crate::model::LayerInstance;
use crate::model::LdtkEntity;
use crate::model::Level;
use crate::model::LdtkField;
use crate::model::Project;
use crate::seqs::first_some;
use crate::seqs::lemma_first_some_found;
use crate::seqs::lemma_first_some_none;
use crate::synth::level_resolves;

verus! {

/// What a uid refers to.
#[derive(Clone, Copy, Debug, PartialEq, Eq, Structural, Hash)]
pub enum ReferenceKind {
    Tileset,
    EntityDefinition,
    EnumDefinition,
}

/// Why a document is not a project.
#[derive(Clone, Copy, Debug, PartialEq, Eq, Structural, Hash)]
pub enum FormatError {
    /// The document could not be read as a project at all, or it uses one
    /// uid or one level identifier for two things.
    Malformed,
    /// The document names a uid that it holds no definition for.
    DanglingReference { kind: ReferenceKind, uid: i64 },
}

/// The uids of the levels of `project`, in order.
pub open spec fn level_uids(project: &Project) -> Seq<i64> {
    Seq::new(project.levels@.len(), |i: int| project.levels@[i].uid)
}

/// The uids of the tileset definitions of `project`, in order.
pub open spec fn tileset_uids(project: &Project) -> Seq<i64> {
    Seq::new(project.tilesets@.len(), |i: int| project.tilesets@[i].uid)
}

/// The uids of the entity definitions of `project`, in order.
pub open spec fn entity_def_uids(project: &Project) -> Seq<i64> {
    Seq::new(project.entity_defs@.len(), |i: int| project.entity_defs@[i].uid)
}

/// The uids of the enum definitions of `project`, in order.
pub open spec fn enum_def_uids(project: &Project) -> Seq<i64> {
    Seq::new(project.enum_defs@.len(), |i: int| project.enum_defs@[i].uid)
}

/// Whether no two levels of `project` have the same identifier.
pub open spec fn level_names_distinct(project: &Project) -> bool {
    forall|a: int, b: int|
        0 <= a < b < project.levels@.len() ==> (#[trigger] project.levels@[a]).identifier@ != (
        #[trigger] project.levels@[b]).identifier@
}

/// Whether the keys of `project` are keys: no two levels share a uid or an
/// identifier, and no two definitions of one kind share a uid.
pub open spec fn is_well_formed(project: &Project) -> bool {
    &&& level_uids(project).no_duplicates()
    &&& level_names_distinct(project)
    &&& tileset_uids(project).no_duplicates()
    &&& entity_def_uids(project).no_duplicates()
    &&& enum_def_uids(project).no_duplicates()
}

/// Whether `project` holds a definition of the kind `kind` for `uid`.
pub open spec fn resolves(project: &Project, kind: ReferenceKind, uid: i64) -> bool {
    match kind {
        ReferenceKind::Tileset => project.has_tileset(uid),
        ReferenceKind::EntityDefinition => project.has_entity_def(uid),
        ReferenceKind::EnumDefinition => project.has_enum_def(uid),
    }
}

/// Whether `scalar` names the definition `uid` of the kind `kind`.
pub open spec fn scalar_refers(scalar: &FieldScalar, kind: ReferenceKind, uid: i64) -> bool {
    match *scalar {
        FieldScalar::EnumRef { enum_uid, .. } => kind == ReferenceKind::EnumDefinition && enum_uid
            == uid,
        _ => false,
    }
}

/// Whether one of `items` names the definition `uid` of the kind `kind`.
pub open spec fn items_refer(items: Seq<FieldScalar>, kind: ReferenceKind, uid: i64) -> bool {
    exists|i: int| 0 <= i < items.len() && scalar_refers(#[trigger] &items[i], kind, uid)
}

/// Whether `value` names the definition `uid` of the kind `kind`.
pub open spec fn value_refers(value: &FieldValue, kind: ReferenceKind, uid: i64) -> bool {
    match *value {
        FieldValue::Scalar(scalar) => scalar_refers(&scalar, kind, uid),
        FieldValue::Array(items) => items_refer(items@, kind, uid),
        _ => false,
    }
}

/// Whether `entity` names the definition `uid` of the kind `kind`: as its
/// own definition, as the tileset of its tile, or in one of its fields.
pub open spec fn entity_refers(entity: &LdtkEntity, kind: ReferenceKind, uid: i64) -> bool {
    ||| kind == ReferenceKind::EntityDefinition && entity.def_uid == uid
    ||| kind == ReferenceKind::Tileset && entity.tile is Some && entity.tile->0.tileset_uid == uid
    ||| exists|i: int|
        0 <= i < entity.field_instances@.len() && value_refers(
            &(#[trigger] entity.field_instances@[i]).value,
            kind,
            uid,
        )
}

/// Whether one of `entities` names the definition `uid` of the kind `kind`.
pub open spec fn entities_refer(entities: Seq<LdtkEntity>, kind: ReferenceKind, uid: i64) -> bool {
    exists|i: int| 0 <= i < entities.len() && entity_refers(#[trigger] &entities[i], kind, uid)
}

/// Whether `layer` names the definition `uid` of the kind `kind`: as its
/// tileset, or through one of its entities.
pub open spec fn layer_refers(layer: &LayerInstance, kind: ReferenceKind, uid: i64) -> bool {
    match layer.data {
        LayerData::Tiles { tileset_uid, .. } => kind == ReferenceKind::Tileset && tileset_uid == uid,
        LayerData::AutoLayer { tileset_uid, .. } => kind == ReferenceKind::Tileset && tileset_uid
            == uid,
        LayerData::Entities { entities } => entities_refer(entities@, kind, uid),
        LayerData::IntGrid { .. } => false,
    }
}

/// Whether `level` names the definition `uid` of the kind `kind`.
pub open spec fn level_refers(level: &Level, kind: ReferenceKind, uid: i64) -> bool {
    exists|i: int| 0 <= i < level.layers@.len() && layer_refers(#[trigger] &level.layers@[i], kind, uid)
}

/// Whether `project` names the definition `uid` of the kind `kind`.
pub open spec fn project_refers(project: &Project, kind: ReferenceKind, uid: i64) -> bool {
    exists|i: int|
        0 <= i < project.levels@.len() && level_refers(#[trigger] &project.levels@[i], kind, uid)
}

/// Whether every definition that `project` names is held by it.
pub open spec fn references_resolve(project: &Project) -> bool {
    forall|kind: ReferenceKind, uid: i64| #[trigger]
        project_refers(project, kind, uid) ==> resolves(project, kind, uid)
}

/// Whether `error` reports a definition of the kind `kind` for `uid` that
/// is missing.
pub open spec fn reports(error: FormatError, kind: ReferenceKind, uid: i64) -> bool {
    error == (FormatError::DanglingReference { kind, uid })
}

/// What `result` says as a finding.
pub open spec fn finding_of(result: Result<(), FormatError>) -> Option<FormatError> {
    match result {
        Ok(_) => None,
        Err(error) => Some(error),
    }
}

/// The reference of `scalar` that does not resolve, if it has one.
pub open spec fn scalar_dangling(project: &Project, scalar: FieldScalar) -> Option<FormatError> {
    match scalar {
        FieldScalar::EnumRef { enum_uid, .. } => if project.has_enum_def(enum_uid) {
            None
        } else {
            Some(FormatError::DanglingReference { kind: ReferenceKind::EnumDefinition, uid: enum_uid })
        },
        _ => None,
    }
}

/// The first reference among `items` that does not resolve.
pub open spec fn items_dangling(project: &Project, items: Seq<FieldScalar>) -> Option<FormatError> {
    first_some(Seq::new(items.len(), |i: int| scalar_dangling(project, items[i])))
}

/// The first reference of `value` that does not resolve.
pub open spec fn value_dangling(project: &Project, value: FieldValue) -> Option<FormatError> {
    match value {
        FieldValue::Scalar(scalar) => scalar_dangling(project, scalar),
        FieldValue::Array(items) => items_dangling(project, items@),
        _ => None,
    }
}

/// The first reference among the values of `fields` that does not resolve.
pub open spec fn fields_dangling(project: &Project, fields: Seq<LdtkField>) -> Option<FormatError> {
    first_some(Seq::new(fields.len(), |i: int| value_dangling(project, fields[i].value)))
}

/// The first reference of `entity` that does not resolve: its definition
/// comes first, then the tileset of its tile, then its fields in order.
pub open spec fn entity_dangling(project: &Project, entity: &LdtkEntity) -> Option<FormatError> {
    if !project.has_entity_def(entity.def_uid) {
        Some(
            FormatError::DanglingReference {
                kind: ReferenceKind::EntityDefinition,
                uid: entity.def_uid,
            },
        )
    } else if entity.tile is Some && !project.has_tileset(entity.tile->0.tileset_uid) {
        Some(
            FormatError::DanglingReference {
                kind: ReferenceKind::Tileset,
                uid: entity.tile->0.tileset_uid,
            },
        )
    } else {
        fields_dangling(project, entity.field_instances@)
    }
}

/// The first reference among `entities` that does not resolve.
pub open spec fn entities_dangling(project: &Project, entities: Seq<LdtkEntity>) -> Option<
    FormatError,
> {
    first_some(Seq::new(entities.len(), |i: int| entity_dangling(project, &entities[i])))
}

/// The tileset `uid` as a finding, if `project` does not hold it.
pub open spec fn tileset_dangling(project: &Project, uid: i64) -> Option<FormatError> {
    if project.has_tileset(uid) {
        None
    } else {
        Some(FormatError::DanglingReference { kind: ReferenceKind::Tileset, uid })
    }
}

/// The first reference of `layer` that does not resolve.
pub open spec fn layer_dangling(project: &Project, layer: &LayerInstance) -> Option<FormatError> {
    match layer.data {
        LayerData::Tiles { tileset_uid, .. } => tileset_dangling(project, tileset_uid),
        LayerData::AutoLayer { tileset_uid, .. } => tileset_dangling(project, tileset_uid),
        LayerData::Entities { entities } => entities_dangling(project, entities@),
        LayerData::IntGrid { .. } => None,
    }
}

/// The first reference of `level` that does not resolve, layer by layer.
pub open spec fn level_dangling(project: &Project, level: &Level) -> Option<FormatError> {
    first_some(Seq::new(level.layers@.len(), |i: int| layer_dangling(project, &level.layers@[i])))
}

/// What is wrong with `project`, if anything: a key that is used twice
/// makes it malformed; otherwise its first dangling reference is reported.
pub open spec fn first_fault(project: &Project) -> Option<FormatError> {
    if is_well_formed(project) {
        first_dangling(project)
    } else {
        Some(FormatError::Malformed)
    }
}

/// The first reference of `project` that does not resolve, in the order of
/// the document: level by level, layer by layer, entity by entity.
pub open spec fn first_dangling(project: &Project) -> Option<FormatError> {
    first_some(
        Seq::new(project.levels@.len(), |i: int| level_dangling(project, &project.levels@[i])),
    )
}

/// Whether `project` holds a definition of the kind `kind` for `uid`.
pub fn is_defined(project: &Project, kind: ReferenceKind, uid: i64) -> (defined: bool)
    ensures
        defined == resolves(project, kind, uid),
{
    match kind {
        ReferenceKind::Tileset => project.find_tileset(uid).is_some(),
        ReferenceKind::EntityDefinition => project.knows_entity_def(uid),
        ReferenceKind::EnumDefinition => project.knows_enum_def(uid),
    }
}

/// Checks the reference of one scalar.
pub fn check_scalar(project: &Project, scalar: &FieldScalar) -> (result: Result<(), FormatError>)
    ensures
        finding_of(result) == scalar_dangling(project, *scalar),
        match result {
            Ok(_) => forall|kind: ReferenceKind, uid: i64| #[trigger]
                scalar_refers(scalar, kind, uid) ==> resolves(project, kind, uid),
            Err(error) => exists|kind: ReferenceKind, uid: i64|
                reports(error, kind, uid) && scalar_refers(scalar, kind, uid) && !resolves(
                    project,
                    kind,
                    uid,
                ),
        },
{
    match scalar {
        FieldScalar::EnumRef { enum_uid, .. } => {
            if project.knows_enum_def(*enum_uid) {
                Ok(())
            } else {
                let error = FormatError::DanglingReference {
                    kind: ReferenceKind::EnumDefinition,
                    uid: *enum_uid,
                };
                assert(reports(error, ReferenceKind::EnumDefinition, *enum_uid));
                Err(error)
            }
        },
        _ => Ok(()),
    }
}

/// Checks the references of one field value.
pub fn check_value(project: &Project, value: &FieldValue) -> (result: Result<(), FormatError>)
    ensures
        finding_of(result) == value_dangling(project, *value),
        match result {
            Ok(_) => forall|kind: ReferenceKind, uid: i64| #[trigger]
                value_refers(value, kind, uid) ==> resolves(project, kind, uid),
            Err(error) => exists|kind: ReferenceKind, uid: i64|
                reports(error, kind, uid) && value_refers(value, kind, uid) && !resolves(
                    project,
                    kind,
                    uid,
                ),
        },
{
    match value {
        FieldValue::Scalar(scalar) => check_scalar(project, scalar),
        FieldValue::Array(items) => {
            let ghost findings = Seq::new(
                items@.len(),
                |i: int| scalar_dangling(project, items@[i]),
            );
            let mut i: usize = 0;
            while i < items.len()
                invariant
                    i <= items.len(),
                    *value == FieldValue::Array(*items),
                    findings == Seq::new(items@.len(), |i: int| scalar_dangling(project, items@[i])),
                    forall|k: int| 0 <= k < i ==> (#[trigger] findings[k]) is None,
                    forall|k: int, kind: ReferenceKind, uid: i64|
                        0 <= k < i && #[trigger] scalar_refers(&items@[k], kind, uid) ==> resolves(
                            project,
                            kind,
                            uid,
                        ),
                decreases items.len() - i,
            {
                match check_scalar(project, &items[i]) {
                    Ok(_) => {},
                    Err(error) => {
                        proof {
                            let (kind, uid) = choose|kind: ReferenceKind, uid: i64|
                                reports(error, kind, uid) && scalar_refers(
                                    &items@[i as int],
                                    kind,
                                    uid,
                                ) && !resolves(project, kind, uid);
                            assert(items_refer(items@, kind, uid));
                            lemma_first_some_found(findings, i as int);
                        }
                        return Err(error);
                    },
                }
                i += 1;
            }
            proof {
                lemma_first_some_none(findings);
            }
            Ok(())
        },
        _ => Ok(()),
    }
}

/// Checks the references of one entity.
pub fn check_entity_references(project: &Project, entity: &LdtkEntity) -> (result: Result<
    (),
    FormatError,
>)
    ensures
        finding_of(result) == entity_dangling(project, entity),
        match result {
            Ok(_) => forall|kind: ReferenceKind, uid: i64| #[trigger]
                entity_refers(entity, kind, uid) ==> resolves(project, kind, uid),
            Err(error) => exists|kind: ReferenceKind, uid: i64|
                reports(error, kind, uid) && entity_refers(entity, kind, uid) && !resolves(
                    project,
                    kind,
                    uid,
                ),
        },
{
    if !project.knows_entity_def(entity.def_uid) {
        let error = FormatError::DanglingReference {
            kind: ReferenceKind::EntityDefinition,
            uid: entity.def_uid,
        };
        assert(reports(error, ReferenceKind::EntityDefinition, entity.def_uid));
        assert(entity_refers(entity, ReferenceKind::EntityDefinition, entity.def_uid));
        return Err(error);
    }
    match entity.tile {
        Some(tile) => {
            if project.find_tileset(tile.tileset_uid).is_none() {
                let error = FormatError::DanglingReference {
                    kind: ReferenceKind::Tileset,
                    uid: tile.tileset_uid,
                };
                assert(reports(error, ReferenceKind::Tileset, tile.tileset_uid));
                assert(entity_refers(entity, ReferenceKind::Tileset, tile.tileset_uid));
                return Err(error);
            }
        },
        None => {},
    }
    let ghost findings = Seq::new(
        entity.field_instances@.len(),
        |i: int| value_dangling(project, entity.field_instances@[i].value),
    );
    let mut i: usize = 0;
    while i < entity.field_instances.len()
        invariant
            i <= entity.field_instances.len(),
            project.has_entity_def(entity.def_uid),
            entity.tile is Some ==> project.has_tileset(entity.tile->0.tileset_uid),
            findings == Seq::new(
                entity.field_instances@.len(),
                |i: int| value_dangling(project, entity.field_instances@[i].value),
            ),
            forall|k: int| 0 <= k < i ==> (#[trigger] findings[k]) is None,
            forall|k: int, kind: ReferenceKind, uid: i64|
                0 <= k < i && #[trigger] value_refers(&entity.field_instances@[k].value, kind, uid)
                    ==> resolves(project, kind, uid),
        decreases entity.field_instances.len() - i,
    {
        match check_value(project, &entity.field_instances[i].value) {
            Ok(_) => {},
            Err(error) => {
                proof {
                    let (kind, uid) = choose|kind: ReferenceKind, uid: i64|
                        reports(error, kind, uid) && value_refers(
                            &entity.field_instances@[i as int].value,
                            kind,
                            uid,
                        ) && !resolves(project, kind, uid);
                    assert(entity_refers(entity, kind, uid));
                    lemma_first_some_found(findings, i as int);
                }
                return Err(error);
            },
        }
        i += 1;
    }
    proof {
        lemma_first_some_none(findings);
    }
    Ok(())
}

/// Checks the references of one layer.
pub fn check_layer(project: &Project, layer: &LayerInstance) -> (result: Result<(), FormatError>)
    ensures
        finding_of(result) == layer_dangling(project, layer),
        match result {
            Ok(_) => forall|kind: ReferenceKind, uid: i64| #[trigger]
                layer_refers(layer, kind, uid) ==> resolves(project, kind, uid),
            Err(error) => exists|kind: ReferenceKind, uid: i64|
                reports(error, kind, uid) && layer_refers(layer, kind, uid) && !resolves(
                    project,
                    kind,
                    uid,
                ),
        },
{
    match &layer.data {
        LayerData::Tiles { tileset_uid, .. } => {
            if project.find_tileset(*tileset_uid).is_some() {
                Ok(())
            } else {
                let error = FormatError::DanglingReference {
                    kind: ReferenceKind::Tileset,
                    uid: *tileset_uid,
                };
                assert(reports(error, ReferenceKind::Tileset, *tileset_uid));
                assert(layer_refers(layer, ReferenceKind::Tileset, *tileset_uid));
                Err(error)
            }
        },
        LayerData::AutoLayer { tileset_uid, .. } => {
            if project.find_tileset(*tileset_uid).is_some() {
                Ok(())
            } else {
                let error = FormatError::DanglingReference {
                    kind: ReferenceKind::Tileset,
                    uid: *tileset_uid,
                };
                assert(reports(error, ReferenceKind::Tileset, *tileset_uid));
                assert(layer_refers(layer, ReferenceKind::Tileset, *tileset_uid));
                Err(error)
            }
        },
        LayerData::Entities { entities } => {
            let ghost findings = Seq::new(
                entities@.len(),
                |i: int| entity_dangling(project, &entities@[i]),
            );
            let mut i: usize = 0;
            while i < entities.len()
                invariant
                    i <= entities.len(),
                    layer.data == (LayerData::Entities { entities: *entities }),
                    findings == Seq::new(
                        entities@.len(),
                        |i: int| entity_dangling(project, &entities@[i]),
                    ),
                    forall|k: int| 0 <= k < i ==> (#[trigger] findings[k]) is None,
                    forall|k: int, kind: ReferenceKind, uid: i64|
                        0 <= k < i && #[trigger] entity_refers(&entities@[k], kind, uid) ==> resolves(
                            project,
                            kind,
                            uid,
                        ),
                decreases entities.len() - i,
            {
                match check_entity_references(project, &entities[i]) {
                    Ok(_) => {},
                    Err(error) => {
                        proof {
                            let (kind, uid) = choose|kind: ReferenceKind, uid: i64|
                                reports(error, kind, uid) && entity_refers(
                                    &entities@[i as int],
                                    kind,
                                    uid,
                                ) && !resolves(project, kind, uid);
                            assert(entities_refer(entities@, kind, uid));
                            lemma_first_some_found(findings, i as int);
                        }
                        return Err(error);
                    },
                }
                i += 1;
            }
            proof {
                lemma_first_some_none(findings);
            }
            Ok(())
        },
        LayerData::IntGrid { .. } => Ok(()),
    }
}

/// Checks the references of one level.
pub fn check_level(project: &Project, level: &Level) -> (result: Result<(), FormatError>)
    ensures
        finding_of(result) == level_dangling(project, level),
        match result {
            Ok(_) => forall|kind: ReferenceKind, uid: i64| #[trigger]
                level_refers(level, kind, uid) ==> resolves(project, kind, uid),
            Err(error) => exists|kind: ReferenceKind, uid: i64|
                reports(error, kind, uid) && level_refers(level, kind, uid) && !resolves(
                    project,
                    kind,
                    uid,
                ),
        },
{
    let ghost findings = Seq::new(
        level.layers@.len(),
        |i: int| layer_dangling(project, &level.layers@[i]),
    );
    let mut i: usize = 0;
    while i < level.layers.len()
        invariant
            i <= level.layers.len(),
            findings == Seq::new(
                level.layers@.len(),
                |i: int| layer_dangling(project, &level.layers@[i]),
            ),
            forall|k: int| 0 <= k < i ==> (#[trigger] findings[k]) is None,
            forall|k: int, kind: ReferenceKind, uid: i64|
                0 <= k < i && #[trigger] layer_refers(&level.layers@[k], kind, uid) ==> resolves(
                    project,
                    kind,
                    uid,
                ),
        decreases level.layers.len() - i,
    {
        match check_layer(project, &level.layers[i]) {
            Ok(_) => {},
            Err(error) => {
                proof {
                    let (kind, uid) = choose|kind: ReferenceKind, uid: i64|
                        reports(error, kind, uid) && layer_refers(&level.layers@[i as int], kind, uid)
                            && !resolves(project, kind, uid);
                    assert(level_refers(level, kind, uid));
                    lemma_first_some_found(findings, i as int);
                }
                return Err(error);
            },
        }
        i += 1;
    }
    proof {
        lemma_first_some_none(findings);
    }
    Ok(())
}

/// Whether no value occurs twice in `values`.
pub fn all_distinct(values: &Vec<i64>) -> (distinct: bool)
    ensures
        distinct == values@.no_duplicates(),
{
    let mut b: usize = 0;
    while b < values.len()
        invariant
            b <= values.len(),
            forall|i: int, j: int| 0 <= i < j < b ==> values@[i] != values@[j],
        decreases values.len() - b,
    {
        let mut a: usize = 0;
        while a < b
            invariant
                a <= b,
                b < values.len(),
                forall|i: int| 0 <= i < a ==> values@[i] != values@[b as int],
            decreases b - a,
        {
            if values[a] == values[b] {
                return false;
            }
            a += 1;
        }
        b += 1;
    }
    true
}

/// Whether no two levels of `project` have the same identifier.
pub fn check_level_names(project: &Project) -> (distinct: bool)
    ensures
        distinct == level_names_distinct(project),
{
    let mut b: usize = 0;
    while b < project.levels.len()
        invariant
            b <= project.levels.len(),
            forall|i: int, j: int|
                0 <= i < j < b ==> (#[trigger] project.levels@[i]).identifier@ != (
                #[trigger] project.levels@[j]).identifier@,
        decreases project.levels.len() - b,
    {
        let mut a: usize = 0;
        while a < b
            invariant
                a <= b,
                b < project.levels.len(),
                forall|i: int|
                    0 <= i < a ==> (#[trigger] project.levels@[i]).identifier@
                        != project.levels@[b as int].identifier@,
            decreases b - a,
        {
            if project.levels[a].identifier == project.levels[b].identifier {
                return false;
            }
            a += 1;
        }
        b += 1;
    }
    true
}

/// Whether the keys of `project` are keys.
pub fn check_keys(project: &Project) -> (well_formed: bool)
    ensures
        well_formed == is_well_formed(project),
{
    let mut levels: Vec<i64> = Vec::new();
    let mut i: usize = 0;
    while i < project.levels.len()
        invariant
            i <= project.levels.len(),
            levels@.len() == i,
            forall|k: int| 0 <= k < i ==> levels@[k] == project.levels@[k].uid,
        decreases project.levels.len() - i,
    {
        levels.push(project.levels[i].uid);
        i += 1;
    }
    let mut tilesets: Vec<i64> = Vec::new();
    let mut i: usize = 0;
    while i < project.tilesets.len()
        invariant
            i <= project.tilesets.len(),
            tilesets@.len() == i,
            forall|k: int| 0 <= k < i ==> tilesets@[k] == project.tilesets@[k].uid,
        decreases project.tilesets.len() - i,
    {
        tilesets.push(project.tilesets[i].uid);
        i += 1;
    }
    let mut entity_defs: Vec<i64> = Vec::new();
    let mut i: usize = 0;
    while i < project.entity_defs.len()
        invariant
            i <= project.entity_defs.len(),
            entity_defs@.len() == i,
            forall|k: int| 0 <= k < i ==> entity_defs@[k] == project.entity_defs@[k].uid,
        decreases project.entity_defs.len() - i,
    {
        entity_defs.push(project.entity_defs[i].uid);
        i += 1;
    }
    let mut enum_defs: Vec<i64> = Vec::new();
    let mut i: usize = 0;
    while i < project.enum_defs.len()
        invariant
            i <= project.enum_defs.len(),
            enum_defs@.len() == i,
            forall|k: int| 0 <= k < i ==> enum_defs@[k] == project.enum_defs@[k].uid,
        decreases project.enum_defs.len() - i,
    {
        enum_defs.push(project.enum_defs[i].uid);
        i += 1;
    }
    proof {
        assert(levels@ =~= level_uids(project));
        assert(tilesets@ =~= tileset_uids(project));
        assert(entity_defs@ =~= entity_def_uids(project));
        assert(enum_defs@ =~= enum_def_uids(project));
    }
    all_distinct(&levels) && check_level_names(project) && all_distinct(&tilesets) && all_distinct(
        &entity_defs,
    ) && all_distinct(&enum_defs)
}

/// Checks that every tileset, entity definition and enum definition that
/// the levels of `project` name is held by `project`.
///
/// Succeeds exactly when every reference resolves. Otherwise the error
/// reports the first reference of the document that does not.
pub fn check_references(project: &Project) -> (result: Result<(), FormatError>)
    ensures
        finding_of(result) == first_dangling(project),
        result is Ok <==> references_resolve(project),
        result matches Err(error) ==> exists|kind: ReferenceKind, uid: i64|
            reports(error, kind, uid) && project_refers(project, kind, uid) && !resolves(
                project,
                kind,
                uid,
            ),
{
    let ghost findings = Seq::new(
        project.levels@.len(),
        |i: int| level_dangling(project, &project.levels@[i]),
    );
    let mut i: usize = 0;
    while i < project.levels.len()
        invariant
            i <= project.levels.len(),
            findings == Seq::new(
                project.levels@.len(),
                |i: int| level_dangling(project, &project.levels@[i]),
            ),
            forall|k: int| 0 <= k < i ==> (#[trigger] findings[k]) is None,
            forall|k: int, kind: ReferenceKind, uid: i64|
                0 <= k < i && #[trigger] level_refers(&project.levels@[k], kind, uid) ==> resolves(
                    project,
                    kind,
                    uid,
                ),
        decreases project.levels.len() - i,
    {
        match check_level(project, &project.levels[i]) {
            Ok(_) => {},
            Err(error) => {
                proof {
                    let (kind, uid) = choose|kind: ReferenceKind, uid: i64|
                        reports(error, kind, uid) && level_refers(
                            &project.levels@[i as int],
                            kind,
                            uid,
                        ) && !resolves(project, kind, uid);
                    assert(project_refers(project, kind, uid));
                    lemma_first_some_found(findings, i as int);
                }
                return Err(error);
            },
        }
        i += 1;
    }
    proof {
        lemma_first_some_none(findings);
    }
    Ok(())
}

/// Checks that `project` is a project: that its keys are keys, and that
/// every definition that its levels name is held by it.
///
/// Succeeds exactly when both hold. A key that is used twice makes the
/// project `Malformed`; otherwise the error reports the first reference of
/// the document that does not resolve.
pub fn validate(project: &Project) -> (result: Result<(), FormatError>)
    ensures
        finding_of(result) == first_fault(project),
        result is Ok <==> is_well_formed(project) && references_resolve(project),
{
    if !check_keys(project) {
        return Err(FormatError::Malformed);
    }
    check_references(project)
}

/// Every level of a project whose references resolve can be synthesized.
pub proof fn lemma_valid_project_synthesizes(project: &Project, position: int)
    requires
        references_resolve(project),
        0 <= position < project.levels@.len(),
    ensures
        level_resolves(project, &project.levels@[position]),
{
    let level = &project.levels@[position];
    assert forall|l: int| 0 <= l < level.layers@.len() implies crate::synth::layer_resolves(
        project,
        #[trigger] &level.layers@[l],
    ) by {
        let layer = &level.layers@[l];
        match layer.data {
            LayerData::Tiles { tileset_uid, .. } => {
                assert(layer_refers(layer, ReferenceKind::Tileset, tileset_uid));
                assert(level_refers(level, ReferenceKind::Tileset, tileset_uid));
                assert(project_refers(project, ReferenceKind::Tileset, tileset_uid));
            },
            LayerData::AutoLayer { tileset_uid, .. } => {
                assert(layer_refers(layer, ReferenceKind::Tileset, tileset_uid));
                assert(level_refers(level, ReferenceKind::Tileset, tileset_uid));
                assert(project_refers(project, ReferenceKind::Tileset, tileset_uid));
            },
            LayerData::Entities { entities } => {
                assert forall|e: int| 0 <= e < entities@.len() implies crate::synth::entity_resolves(
                    project,
                    #[trigger] &entities@[e],
                ) by {
                    let entity = &entities@[e];
                    assert(entity_refers(entity, ReferenceKind::EntityDefinition, entity.def_uid));
                    assert(entities_refer(entities@, ReferenceKind::EntityDefinition, entity.def_uid));
                    assert(layer_refers(layer, ReferenceKind::EntityDefinition, entity.def_uid));
                    assert(level_refers(level, ReferenceKind::EntityDefinition, entity.def_uid));
                    assert(project_refers(project, ReferenceKind::EntityDefinition, entity.def_uid));
                    if entity.tile is Some {
                        let uid = entity.tile->0.tileset_uid;
                        assert(entity_refers(entity, ReferenceKind::Tileset, uid));
                        assert(entities_refer(entities@, ReferenceKind::Tileset, uid));
                        assert(layer_refers(layer, ReferenceKind::Tileset, uid));
                        assert(level_refers(level, ReferenceKind::Tileset, uid));
                        assert(project_refers(project, ReferenceKind::Tileset, uid));
                    }
                }
            },
            LayerData::IntGrid { .. } => {},
        }
    }
}

} // verus!
