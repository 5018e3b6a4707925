//! The lifecycle manager: the levels that are present in a world, and the
//! entities that outlive them.

use vstd::prelude::*;
use crate::laws::lemma_despawn_each_in_order;
use crate::laws::lemma_despawn_in_order;
use crate::laws::lemma_mark_worldly_in_order;
use crate::laws::lemma_respawn_in_order;
use crate::laws::lemma_spawn_each_in_order;
use crate::laws::lemma_spawn_in_order;
use crate::laws::world_in_order;
use crate::model::Level;
use crate::model::Project;
use crate::scene::entity_views;
use crate::scene::EntityKey;
use crate::scene::EntityNode;
use crate::scene::EntityNodeView;
use crate::scene::LayerContent;
use crate::scene::LayerContentView;
use crate::scene::LayerNodeView;
use crate::scene::LevelNode;
use crate::scene::LevelNodeView;
use crate::scene::Translation;
use crate::selector::is_selection_of;
use crate::selector::select;
use crate::selector::LayoutMode;
use crate::selector::Selection;
use crate::selector::SelectionPolicy;
use crate::seqs::lemma_filter_push;
use crate::synth::level_node_of;
use crate::synth::level_origin;
use crate::synth::level_resolves;
use crate::synth::synthesize;
use crate::synth::Registries;
use crate::synth::SynthesisError;
use crate::synth::TextureLookup;

verus! {

/// Where a level stands in its life.
///
/// `Spawning` and `Despawning` name the work between the two resting
/// states. That work is done within one call, so a world is only ever seen
/// with its levels `Unspawned` or `Spawned`.
#[derive(Clone, Copy, Debug, PartialEq, Eq, Structural, Hash)]
pub enum LevelState {
    Unspawned,
    Spawning,
    Spawned,
    Despawning,
}

/// What happened to a level.
#[derive(Clone, Copy, Debug, PartialEq, Eq, Structural, Hash)]
pub enum LevelEvent {
    /// The level's node was built and put into the world.
    Spawned { uid: i64 },
    /// The level's node was taken out of the world.
    Despawned { uid: i64 },
    /// The position of the level's node in the world is known.
    Transformed { uid: i64, translation: Translation },
}

/// What a respawn did.
#[derive(Clone, Debug, PartialEq, Eq, Hash)]
pub struct RespawnReport {
    pub events: Vec<LevelEvent>,
    /// Why the level is not present any more, if its new node could not be
    /// built.
    pub error: Option<SynthesisError>,
}

/// What one cycle did to a world.
#[derive(Clone, Debug, PartialEq, Eq, Hash)]
pub struct CycleReport {
    /// What the policy asked for.
    pub selection: Selection,
    /// What happened, in order: the despawns first, then the spawns.
    pub events: Vec<LevelEvent>,
    /// The uids of the levels that were to be spawned and could not be
    /// synthesized. They are not present.
    pub failed: Vec<i64>,
}

/// The world root: it owns the nodes of the levels that are present, in the
/// order in which they were spawned, and the worldly entities, in the order
/// in which they came to it.
#[derive(Clone, Debug, PartialEq, Eq, Hash)]
pub struct World {
    pub levels: Vec<LevelNode>,
    pub worldly: Vec<EntityNode>,
}

/// The mathematical value of a [`World`].
pub struct WorldView {
    pub levels: Seq<LevelNodeView>,
    pub worldly: Seq<EntityNodeView>,
}

/// The values of a run of level nodes, in order.
pub open spec fn level_views(nodes: Seq<LevelNode>) -> Seq<LevelNodeView> {
    Seq::new(nodes.len(), |i: int| nodes[i]@)
}

impl View for World {
    type V = WorldView;

    open spec fn view(&self) -> WorldView {
        WorldView { levels: level_views(self.levels@), worldly: entity_views(self.worldly@) }
    }
}

/// Whether an entity node is flagged to outlive its level.
pub open spec fn is_worldly() -> spec_fn(EntityNodeView) -> bool {
    |node: EntityNodeView| node.worldly
}

/// The keys of the nodes in `nodes`.
pub open spec fn keys_of(nodes: Seq<EntityNodeView>) -> Set<EntityKey> {
    Set::new(|key: EntityKey| exists|j: int| 0 <= j < nodes.len() && (#[trigger] nodes[j]).key == key)
}

/// Whether a new entity node stays with its level: it is not worldly, and
/// its entity is not in the world already.
pub open spec fn stays(taken: Set<EntityKey>) -> spec_fn(EntityNodeView) -> bool {
    |node: EntityNodeView| !node.worldly && !taken.contains(node.key)
}

/// Whether a new entity node goes to the world root: it is worldly, and its
/// entity is not in the world already.
pub open spec fn leaves(taken: Set<EntityKey>) -> spec_fn(EntityNodeView) -> bool {
    |node: EntityNodeView| node.worldly && !taken.contains(node.key)
}

/// The entity nodes of one layer that `pick` picks, in order.
pub open spec fn picked_in_layer(
    layer: LayerNodeView,
    pick: spec_fn(EntityNodeView) -> bool,
) -> Seq<EntityNodeView> {
    match layer.content {
        LayerContentView::Entities(nodes) => nodes.filter(pick),
        _ => Seq::empty(),
    }
}

/// The entity nodes of a run of layers that `pick` picks, layer by layer.
pub open spec fn picked_in_layers(
    layers: Seq<LayerNodeView>,
    pick: spec_fn(EntityNodeView) -> bool,
) -> Seq<EntityNodeView>
    decreases layers.len(),
{
    if layers.len() == 0 {
        Seq::empty()
    } else {
        picked_in_layers(layers.drop_last(), pick) + picked_in_layer(layers.last(), pick)
    }
}

/// The worldly entity nodes of a run of layers, layer by layer.
pub open spec fn worldly_in_layers(layers: Seq<LayerNodeView>) -> Seq<EntityNodeView> {
    picked_in_layers(layers, is_worldly())
}

/// A new layer node without the entity nodes that do not stay with it.
pub open spec fn resident_layer(layer: LayerNodeView, taken: Set<EntityKey>) -> LayerNodeView {
    LayerNodeView {
        content: match layer.content {
            LayerContentView::Entities(nodes) => LayerContentView::Entities(nodes.filter(stays(taken))),
            other => other,
        },
        ..layer
    }
}

/// The entity nodes of a run of new layers that go to the world root, layer
/// by layer.
pub open spec fn migrants_of(layers: Seq<LayerNodeView>, taken: Set<EntityKey>) -> Seq<
    EntityNodeView,
> {
    picked_in_layers(layers, leaves(taken))
}

/// Whether a step from the world `before` to the world `after` keeps a
/// world in order: if `before` is in order then so is `after`, and the
/// worldly nodes of `before` are still at the world root as they were, in
/// front of any that joined them. So an entity that outlives its level is
/// kept, and is not made twice.
pub open spec fn keeps_order(before: WorldView, after: WorldView) -> bool {
    world_in_order(before) ==> world_in_order(after) && before.worldly.is_prefix_of(after.worldly)
}

/// What one despawn tells the world's listeners.
pub open spec fn despawn_events(world: WorldView, uid: i64) -> Seq<LevelEvent> {
    if world.is_spawned(uid) {
        seq![LevelEvent::Despawned { uid }]
    } else {
        Seq::empty()
    }
}

/// What one spawn tells the world's listeners: that the level was spawned,
/// and where its node stands.
pub open spec fn spawn_events(
    world: WorldView,
    project: &Project,
    level: &Level,
    layout: LayoutMode,
) -> Seq<LevelEvent> {
    if !world.is_spawned(level.uid) && level_resolves(project, level) {
        seq![
            LevelEvent::Spawned { uid: level.uid },
            LevelEvent::Transformed { uid: level.uid, translation: level_origin(level, layout) },
        ]
    } else {
        Seq::empty()
    }
}

/// What one respawn tells the world's listeners: for a level that is
/// present, what its despawn tells and then what its spawn tells; for any
/// other level, nothing.
pub open spec fn respawn_events(
    world: WorldView,
    project: &Project,
    level: &Level,
    layout: LayoutMode,
) -> Seq<LevelEvent> {
    if world.is_spawned(level.uid) {
        despawn_events(world, level.uid) + spawn_events(
            world.spec_despawn(level.uid),
            project,
            level,
            layout,
        )
    } else {
        Seq::empty()
    }
}

/// The world after the levels in `uids` were despawned one after the
/// other.
pub open spec fn despawn_each(world: WorldView, uids: Seq<i64>) -> WorldView
    decreases uids.len(),
{
    if uids.len() == 0 {
        world
    } else {
        despawn_each(world, uids.drop_last()).spec_despawn(uids.last())
    }
}

/// What despawning the levels in `uids` one after the other tells the
/// world's listeners.
pub open spec fn despawn_each_events(world: WorldView, uids: Seq<i64>) -> Seq<LevelEvent>
    decreases uids.len(),
{
    if uids.len() == 0 {
        Seq::empty()
    } else {
        despawn_each_events(world, uids.drop_last()) + despawn_events(
            despawn_each(world, uids.drop_last()),
            uids.last(),
        )
    }
}

/// The world after the levels at `positions` of the project's level
/// sequence were spawned one after the other. A level that cannot be
/// synthesized is passed over and changes nothing for the others.
pub open spec fn spawn_each(
    world: WorldView,
    project: &Project,
    positions: Seq<usize>,
    textures: &TextureLookup,
    registries: &Registries,
    layout: LayoutMode,
) -> WorldView
    decreases positions.len(),
{
    if positions.len() == 0 {
        world
    } else {
        spawn_each(world, project, positions.drop_last(), textures, registries, layout).spec_spawn(
            project,
            &project.levels@[positions.last() as int],
            textures,
            registries,
            layout,
        )
    }
}

/// What spawning the levels at `positions` one after the other tells the
/// world's listeners.
pub open spec fn spawn_each_events(
    world: WorldView,
    project: &Project,
    positions: Seq<usize>,
    textures: &TextureLookup,
    registries: &Registries,
    layout: LayoutMode,
) -> Seq<LevelEvent>
    decreases positions.len(),
{
    if positions.len() == 0 {
        Seq::empty()
    } else {
        spawn_each_events(world, project, positions.drop_last(), textures, registries, layout)
            + spawn_events(
            spawn_each(world, project, positions.drop_last(), textures, registries, layout),
            project,
            &project.levels@[positions.last() as int],
            layout,
        )
    }
}

/// Whether a request to spawn `level` fails.
pub open spec fn spawn_fails(world: WorldView, project: &Project, level: &Level) -> bool {
    !world.is_spawned(level.uid) && !level_resolves(project, level)
}

/// The uids of the levels at `positions` that could not be synthesized
/// when they were spawned one after the other.
pub open spec fn spawn_each_failures(
    world: WorldView,
    project: &Project,
    positions: Seq<usize>,
    textures: &TextureLookup,
    registries: &Registries,
    layout: LayoutMode,
) -> Seq<i64>
    decreases positions.len(),
{
    if positions.len() == 0 {
        Seq::empty()
    } else {
        let earlier = spawn_each_failures(
            world,
            project,
            positions.drop_last(),
            textures,
            registries,
            layout,
        );
        let level = &project.levels@[positions.last() as int];
        if spawn_fails(
            spawn_each(world, project, positions.drop_last(), textures, registries, layout),
            project,
            level,
        ) {
            earlier.push(level.uid)
        } else {
            earlier
        }
    }
}

/// Whether one cycle takes the world `before` to the world `after` and
/// reports `report`, when `policy` selects among the levels of `project`.
///
/// The report's selection is what the policy asks for, given the levels
/// that are present in `before`. The world is what comes of despawning the
/// levels that the selection wants despawned and then spawning those that
/// it wants spawned. The events are those of the despawns and then those
/// of the spawns, and the failures are the levels that were to be spawned
/// and could not be synthesized.
pub open spec fn is_cycle_of(
    before: WorldView,
    after: WorldView,
    report: &CycleReport,
    project: &Project,
    policy: &SelectionPolicy,
    textures: &TextureLookup,
    registries: &Registries,
    layout: LayoutMode,
) -> bool {
    let cleared = despawn_each(before, report.selection.to_despawn@);
    let wanted = report.selection.to_spawn@;
    &&& is_selection_of(&report.selection, project.levels@, policy, layout, before.spawned_uids())
    &&& after == spawn_each(cleared, project, wanted, textures, registries, layout)
    &&& report.events@ == despawn_each_events(before, report.selection.to_despawn@)
        + spawn_each_events(cleared, project, wanted, textures, registries, layout)
    &&& report.failed@ == spawn_each_failures(cleared, project, wanted, textures, registries, layout)
}

/// An entity node, flagged as worldly if it carries `key`.
pub open spec fn marked(key: EntityKey) -> spec_fn(EntityNodeView) -> EntityNodeView {
    |node: EntityNodeView|
        if node.key == key {
            EntityNodeView { worldly: true, ..node }
        } else {
            node
        }
}

/// A layer node whose entity nodes with the key `key` are flagged as
/// worldly.
pub open spec fn marked_layer(key: EntityKey) -> spec_fn(LayerNodeView) -> LayerNodeView {
    |layer: LayerNodeView|
        LayerNodeView {
            content: match layer.content {
                LayerContentView::Entities(nodes) => LayerContentView::Entities(
                    nodes.map_values(marked(key)),
                ),
                other => other,
            },
            ..layer
        }
}

/// A level node whose entity nodes with the key `key` are flagged as
/// worldly.
pub open spec fn marked_level(key: EntityKey) -> spec_fn(LevelNodeView) -> LevelNodeView {
    |level: LevelNodeView| LevelNodeView { layers: level.layers.map_values(marked_layer(key)), ..level }
}

/// Whether some entity node of `layer` carries `key`.
pub open spec fn layer_holds(layer: LayerNodeView, key: EntityKey) -> bool {
    match layer.content {
        LayerContentView::Entities(nodes) => exists|e: int|
            0 <= e < nodes.len() && (#[trigger] nodes[e]).key == key,
        _ => false,
    }
}

/// Whether some entity node of `layers` carries `key`.
pub open spec fn layers_hold(layers: Seq<LayerNodeView>, key: EntityKey) -> bool {
    exists|l: int| 0 <= l < layers.len() && layer_holds(#[trigger] layers[l], key)
}

impl WorldView {
    /// Whether the level `uid` is present.
    pub open spec fn is_spawned(self, uid: i64) -> bool {
        exists|i: int| 0 <= i < self.levels.len() && (#[trigger] self.levels[i]).uid == uid
    }

    /// Whether `i` is the position of the first node of the level `uid`.
    pub open spec fn is_position_of(self, uid: i64, i: int) -> bool {
        0 <= i < self.levels.len() && self.levels[i].uid == uid && forall|k: int|
            0 <= k < i ==> (#[trigger] self.levels[k]).uid != uid
    }

    /// The position of the first node of the level `uid`, which is present.
    pub open spec fn position_of(self, uid: i64) -> int {
        choose|i: int| self.is_position_of(uid, i)
    }

    /// The uids of the levels that are present, in the order of their nodes.
    pub open spec fn spawned_uids(self) -> Seq<i64> {
        Seq::new(self.levels.len(), |i: int| self.levels[i].uid)
    }

    /// The world without the level `uid`.
    ///
    /// The worldly entity nodes of the level go to the world root as they
    /// are, behind those that are there already; everything else that the
    /// level's node owns goes with the node. A level that is not present
    /// leaves the world as it is.
    pub open spec fn spec_despawn(self, uid: i64) -> WorldView {
        if self.is_spawned(uid) {
            let at = self.position_of(uid);
            WorldView {
                levels: self.levels.remove(at),
                worldly: self.worldly + worldly_in_layers(self.levels[at].layers),
            }
        } else {
            self
        }
    }

    /// The world with the new node `node` behind the level nodes that are
    /// there already.
    ///
    /// An entity that is at the world root already is not made again: its
    /// new node is dropped. Of the other new entity nodes, the worldly ones
    /// go to the world root and the rest stay with their layer.
    pub open spec fn spec_attach(self, node: LevelNodeView) -> WorldView {
        let taken = keys_of(self.worldly);
        WorldView {
            levels: self.levels.push(
                LevelNodeView {
                    layers: node.layers.map_values(
                        |layer: LayerNodeView| resident_layer(layer, taken),
                    ),
                    ..node
                },
            ),
            worldly: self.worldly + migrants_of(node.layers, taken),
        }
    }

    /// The world after a request to spawn `level`.
    ///
    /// A level that is present stays as it is. A level that names a tileset
    /// or an entity definition that `project` does not hold is not spawned,
    /// and the world stays as it is. Any other level gets its node.
    pub open spec fn spec_spawn(
        self,
        project: &Project,
        level: &Level,
        textures: &TextureLookup,
        registries: &Registries,
        layout: LayoutMode,
    ) -> WorldView {
        if self.is_spawned(level.uid) || !level_resolves(project, level) {
            self
        } else {
            self.spec_attach(level_node_of(project, level, textures, registries, layout))
        }
    }

    /// The world after a request to respawn `level`: for a level that is
    /// present, the whole despawn and then the spawn; for any other level,
    /// the world as it is.
    pub open spec fn spec_respawn(
        self,
        project: &Project,
        level: &Level,
        textures: &TextureLookup,
        registries: &Registries,
        layout: LayoutMode,
    ) -> WorldView {
        if self.is_spawned(level.uid) {
            self.spec_despawn(level.uid).spec_spawn(project, level, textures, registries, layout)
        } else {
            self
        }
    }

    /// Whether some entity node of a level that is present carries `key`.
    pub open spec fn holds_in_level(self, key: EntityKey) -> bool {
        exists|i: int| 0 <= i < self.levels.len() && layers_hold((#[trigger] self.levels[i]).layers, key)
    }

    /// The world in which the entity nodes with the key `key` that levels
    /// own are flagged as worldly.
    pub open spec fn spec_mark_worldly(self, key: EntityKey) -> WorldView {
        WorldView { levels: self.levels.map_values(marked_level(key)), ..self }
    }
}

/// The first node of a level is the only first one.
pub proof fn lemma_position_unique(world: WorldView, uid: i64, i: int)
    requires
        world.is_position_of(uid, i),
    ensures
        world.is_spawned(uid),
        world.position_of(uid) == i,
{
    let j = world.position_of(uid);
    assert(world.is_position_of(uid, j));
    if i < j {
        assert(world.levels[i].uid != uid);
    }
    if j < i {
        assert(world.levels[j].uid != uid);
    }
}

/// Whether some node of `nodes` carries `key`.
pub fn holds_key(nodes: &Vec<EntityNode>, key: EntityKey) -> (found: bool)
    ensures
        found == keys_of(entity_views(nodes@)).contains(key),
{
    let mut i: usize = 0;
    while i < nodes.len()
        invariant
            i <= nodes.len(),
            forall|k: int| 0 <= k < i ==> (#[trigger] entity_views(nodes@)[k]).key != key,
        decreases nodes.len() - i,
    {
        let candidate = nodes[i].key;
        if candidate.level_uid == key.level_uid && candidate.layer == key.layer && candidate.index
            == key.index {
            assert(entity_views(nodes@)[i as int].key == key);
            return true;
        }
        i += 1;
    }
    false
}

/// Puts copies of the worldly nodes of `nodes` behind `out`.
pub fn collect_worldly(nodes: &Vec<EntityNode>, out: &mut Vec<EntityNode>)
    ensures
        entity_views(final(out)@) == entity_views(old(out)@) + entity_views(nodes@).filter(
            is_worldly(),
        ),
{
    let ghost all = entity_views(nodes@);
    let ghost start = entity_views(out@);
    let mut i: usize = 0;
    proof {
        reveal_with_fuel(Seq::filter, 1);
        assert(all.take(0).filter(is_worldly()) =~= Seq::<EntityNodeView>::empty());
        assert(entity_views(out@) =~= start + all.take(0).filter(is_worldly()));
    }
    while i < nodes.len()
        invariant
            i <= nodes.len(),
            all == entity_views(nodes@),
            entity_views(out@) == start + all.take(i as int).filter(is_worldly()),
        decreases nodes.len() - i,
    {
        let ghost before = out@;
        proof {
            assert(all.take(i + 1) =~= all.take(i as int).push(all[i as int]));
            lemma_filter_push(all.take(i as int), all[i as int], is_worldly());
        }
        if nodes[i].worldly {
            out.push(nodes[i].duplicate());
            proof {
                assert(entity_views(out@) =~= entity_views(before).push(all[i as int]));
                assert(entity_views(out@) =~= start + all.take(i + 1).filter(is_worldly()));
            }
        }
        i += 1;
    }
    proof {
        assert(all.take(all.len() as int) =~= all);
    }
}

/// Puts copies of the worldly entity nodes of `level` behind `out`.
pub fn detach_worldly(level: &LevelNode, out: &mut Vec<EntityNode>)
    ensures
        entity_views(final(out)@) == entity_views(old(out)@) + worldly_in_layers(level@.layers),
{
    let ghost layers = level@.layers;
    let ghost start = entity_views(out@);
    let mut l: usize = 0;
    proof {
        assert(entity_views(out@) =~= start + worldly_in_layers(layers.take(0)));
    }
    while l < level.layers.len()
        invariant
            l <= level.layers.len(),
            layers == level@.layers,
            layers.len() == level.layers@.len(),
            entity_views(out@) == start + worldly_in_layers(layers.take(l as int)),
        decreases level.layers.len() - l,
    {
        let ghost before = entity_views(out@);
        proof {
            assert(layers.take(l + 1).drop_last() =~= layers.take(l as int));
            assert(layers.take(l + 1).last() == level.layers@[l as int]@);
        }
        match &level.layers[l].content {
            LayerContent::Entities(nodes) => {
                collect_worldly(nodes, out);
            },
            _ => {},
        }
        proof {
            assert(entity_views(out@) =~= before + picked_in_layer(level.layers@[l as int]@, is_worldly()));
            assert(entity_views(out@) =~= start + worldly_in_layers(layers.take(l + 1)));
        }
        l += 1;
    }
    proof {
        assert(layers.take(layers.len() as int) =~= layers);
    }
}

impl World {
    /// A world in which no level is present.
    pub fn new() -> (world: World)
        ensures
            world@.levels.len() == 0,
            world@.worldly.len() == 0,
            world_in_order(world@),
    {
        World { levels: Vec::new(), worldly: Vec::new() }
    }

    /// The position of the first node of the level `uid`.
    pub fn find_level(&self, uid: i64) -> (found: Option<usize>)
        ensures
            found is Some <==> self@.is_spawned(uid),
            found matches Some(i) ==> self@.is_position_of(uid, i as int),
    {
        let mut i: usize = 0;
        while i < self.levels.len()
            invariant
                i <= self.levels.len(),
                forall|k: int| 0 <= k < i ==> (#[trigger] self@.levels[k]).uid != uid,
            decreases self.levels.len() - i,
        {
            if self.levels[i].uid == uid {
                assert(self@.levels[i as int].uid == uid);
                return Some(i);
            }
            i += 1;
        }
        None
    }

    /// Where the level `uid` stands in its life.
    pub fn level_state(&self, uid: i64) -> (state: LevelState)
        ensures
            state == if self@.is_spawned(uid) {
                LevelState::Spawned
            } else {
                LevelState::Unspawned
            },
    {
        match self.find_level(uid) {
            Some(_) => LevelState::Spawned,
            None => LevelState::Unspawned,
        }
    }

    /// The uids of the levels that are present, in the order of their nodes.
    pub fn spawned_uids(&self) -> (uids: Vec<i64>)
        ensures
            uids@ == self@.spawned_uids(),
    {
        let mut uids: Vec<i64> = Vec::new();
        let mut i: usize = 0;
        while i < self.levels.len()
            invariant
                i <= self.levels.len(),
                uids@.len() == i,
                forall|k: int| 0 <= k < i ==> uids@[k] == self@.levels[k].uid,
            decreases self.levels.len() - i,
        {
            uids.push(self.levels[i].uid);
            i += 1;
        }
        proof {
            assert(uids@ =~= self@.spawned_uids());
        }
        uids
    }

    /// Takes the level `uid` out of the world.
    ///
    /// The level's worldly entity nodes are handed to the world root first,
    /// with their positions as they are. Then the level's node goes, with
    /// all that it still owns. Nothing happens if the level is not present.
    pub fn despawn_level(&mut self, uid: i64) -> (events: Vec<LevelEvent>)
        ensures
            final(self)@ == old(self)@.spec_despawn(uid),
            events@ == despawn_events(old(self)@, uid),
            keeps_order(old(self)@, final(self)@),
    {
        proof {
            if world_in_order(self@) {
                lemma_despawn_in_order(self@, uid);
            }
        }
        let mut events: Vec<LevelEvent> = Vec::new();
        match self.find_level(uid) {
            None => {},
            Some(at) => {
                proof {
                    lemma_position_unique(self@, uid, at as int);
                }
                let ghost before = self@;
                let level = self.levels.remove(at);
                assert(level@ == before.levels[at as int]);
                detach_worldly(&level, &mut self.worldly);
                events.push(LevelEvent::Despawned { uid });
                proof {
                    assert(self@.levels =~= before.levels.remove(at as int));
                    assert(events@ =~= seq![LevelEvent::Despawned { uid }]);
                }
            },
        }
        events
    }

    /// Puts a new level node into the world.
    pub fn attach(&mut self, node: LevelNode)
        ensures
            final(self)@ == old(self)@.spec_attach(node@),
    {
        let ghost start = self@;
        let ghost fresh = node@;
        let ghost taken = keys_of(start.worldly);
        let mut node = node;
        let mut migrants: Vec<EntityNode> = Vec::new();
        let mut l: usize = 0;
        proof {
            assert(entity_views(migrants@) =~= migrants_of(fresh.layers.take(0), taken));
        }
        while l < node.layers.len()
            invariant
                l <= node.layers.len(),
                self@ == start,
                taken == keys_of(start.worldly),
                node.uid == fresh.uid,
                node.translation == fresh.translation,
                node.layers@.len() == fresh.layers.len(),
                forall|k: int|
                    0 <= k < l ==> (#[trigger] node.layers@[k])@ == resident_layer(
                        fresh.layers[k],
                        taken,
                    ),
                forall|k: int| l <= k < node.layers@.len() ==> (#[trigger] node.layers@[k])@ == fresh.layers[k],
                entity_views(migrants@) == migrants_of(fresh.layers.take(l as int), taken),
            decreases node.layers.len() - l,
        {
            let ghost before = entity_views(migrants@);
            proof {
                assert(fresh.layers.take(l + 1).drop_last() =~= fresh.layers.take(l as int));
                assert(fresh.layers.take(l + 1).last() == fresh.layers[l as int]);
                assert(node.layers@[l as int]@ == fresh.layers[l as int]);
            }
            match &mut node.layers[l].content {
                LayerContent::Entities(nodes) => {
                    let (kept, mut moved) = split_entities(nodes, &self.worldly);
                    *nodes = kept;
                    let ghost moved_views = entity_views(moved@);
                    let ghost migrants_before = migrants@;
                    migrants.append(&mut moved);
                    proof {
                        assert(entity_views(migrants@) =~= before + moved_views);
                    }
                },
                _ => {},
            }
            proof {
                assert(entity_views(migrants@) =~= before + picked_in_layer(
                    fresh.layers[l as int],
                    leaves(taken),
                ));
            }
            l += 1;
        }
        proof {
            assert(fresh.layers.take(fresh.layers.len() as int) =~= fresh.layers);
            assert(node@.layers =~= fresh.layers.map_values(
                |layer: LayerNodeView| resident_layer(layer, taken),
            ));
        }
        let ghost resident = node@;
        let ghost worldly_before = self.worldly@;
        let ghost migrant_views = entity_views(migrants@);
        self.levels.push(node);
        self.worldly.append(&mut migrants);
        proof {
            assert(self@.levels =~= start.levels.push(resident));
            assert(self@.worldly =~= start.worldly + migrant_views);
        }
    }

    /// Spawns `level` unless it is present already.
    ///
    /// Fails, and leaves the world as it is, if the level is not present
    /// and names a tileset or an entity definition that `project` does not
    /// hold.
    pub fn spawn_level(
        &mut self,
        level: &Level,
        project: &Project,
        textures: &TextureLookup,
        registries: &Registries,
        layout: LayoutMode,
    ) -> (result: Result<Vec<LevelEvent>, SynthesisError>)
        ensures
            final(self)@ == old(self)@.spec_spawn(project, level, textures, registries, layout),
            match result {
                Ok(events) => (old(self)@.is_spawned(level.uid) || level_resolves(project, level))
                    && events@ == spawn_events(old(self)@, project, level, layout),
                Err(error) => !old(self)@.is_spawned(level.uid) && !level_resolves(project, level)
                    && error == SynthesisError::InvalidReference,
            },
            keeps_order(old(self)@, final(self)@),
    {
        proof {
            if world_in_order(self@) {
                lemma_spawn_in_order(self@, project, level, textures, registries, layout);
            }
        }
        let mut events: Vec<LevelEvent> = Vec::new();
        if self.find_level(level.uid).is_some() {
            return Ok(events);
        }
        match synthesize(level, project, textures, registries, layout) {
            Ok(node) => {
                let translation = node.translation;
                self.attach(node);
                events.push(LevelEvent::Spawned { uid: level.uid });
                events.push(LevelEvent::Transformed { uid: level.uid, translation });
                proof {
                    assert(events@ =~= spawn_events(old(self)@, project, level, layout));
                }
                Ok(events)
            },
            Err(error) => Err(error),
        }
    }

    /// Respawns `level` if it is present, and does nothing if it is not.
    ///
    /// The despawn is carried through, worldly entities and all, before
    /// the level is synthesized again. If that fails the level is left out
    /// of the world and the report says why.
    pub fn respawn_level(
        &mut self,
        level: &Level,
        project: &Project,
        textures: &TextureLookup,
        registries: &Registries,
        layout: LayoutMode,
    ) -> (report: RespawnReport)
        ensures
            final(self)@ == old(self)@.spec_respawn(project, level, textures, registries, layout),
            report.events@ == respawn_events(old(self)@, project, level, layout),
            report.error == if old(self)@.is_spawned(level.uid) && spawn_fails(
                old(self)@.spec_despawn(level.uid),
                project,
                level,
            ) {
                Some(SynthesisError::InvalidReference)
            } else {
                None
            },
            keeps_order(old(self)@, final(self)@),
    {
        proof {
            if world_in_order(self@) {
                lemma_respawn_in_order(self@, project, level, textures, registries, layout);
            }
        }
        if self.find_level(level.uid).is_none() {
            assert(self@.worldly.is_prefix_of(self@.worldly));
            return RespawnReport { events: Vec::new(), error: None };
        }
        let mut events = self.despawn_level(level.uid);
        match self.spawn_level(level, project, textures, registries, layout) {
            Ok(mut spawned) => {
                events.append(&mut spawned);
                RespawnReport { events, error: None }
            },
            Err(error) => {
                proof {
                    assert(events@ =~= respawn_events(old(self)@, project, level, layout));
                }
                RespawnReport { events, error: Some(error) }
            },
        }
    }

    /// Flags as worldly the entity nodes with the key `key` that levels
    /// own, and says whether there was one. From then on the entity
    /// outlives its level.
    pub fn mark_worldly(&mut self, key: EntityKey) -> (found: bool)
        ensures
            final(self)@ == old(self)@.spec_mark_worldly(key),
            found == old(self)@.holds_in_level(key),
            keeps_order(old(self)@, final(self)@),
    {
        proof {
            if world_in_order(self@) {
                lemma_mark_worldly_in_order(self@, key);
            }
            assert(self@.worldly.is_prefix_of(self@.worldly));
        }
        let ghost start = self@;
        let mut found = false;
        let mut i: usize = 0;
        while i < self.levels.len()
            invariant
                i <= self.levels.len(),
                self.levels@.len() == start.levels.len(),
                self@.worldly == start.worldly,
                forall|k: int|
                    0 <= k < i ==> (#[trigger] self.levels@[k])@ == marked_level(key)(start.levels[k]),
                forall|k: int|
                    i <= k < self.levels@.len() ==> (#[trigger] self.levels@[k])@ == start.levels[k],
                found <==> exists|k: int|
                    0 <= k < i && layers_hold((#[trigger] start.levels[k]).layers, key),
            decreases self.levels.len() - i,
        {
            assert(self.levels@[i as int]@ == start.levels[i as int]);
            let here = mark_in_level(&mut self.levels[i], key);
            if here {
                found = true;
            }
            i += 1;
        }
        proof {
            assert(self@.levels =~= start.levels.map_values(marked_level(key)));
        }
        found
    }

    /// Brings the world to what `policy` asks for.
    ///
    /// The levels that are present and not selected are despawned first;
    /// then the selected levels that are not present are spawned, in the
    /// order in which the project lists them. A level that cannot be
    /// synthesized is reported and passed over: it stays out of the world
    /// and the other levels are spawned all the same.
    pub fn apply_selection(
        &mut self,
        project: &Project,
        policy: &SelectionPolicy,
        textures: &TextureLookup,
        registries: &Registries,
        layout: LayoutMode,
    ) -> (report: CycleReport)
        ensures
            is_cycle_of(
                old(self)@,
                final(self)@,
                &report,
                project,
                policy,
                textures,
                registries,
                layout,
            ),
            keeps_order(old(self)@, final(self)@),
    {
        let ghost start = self@;
        let spawned = self.spawned_uids();
        let selection = select(project, policy, layout, &spawned);
        let mut events: Vec<LevelEvent> = Vec::new();
        let mut failed: Vec<i64> = Vec::new();
        let mut d: usize = 0;
        while d < selection.to_despawn.len()
            invariant
                d <= selection.to_despawn.len(),
                self@ == despawn_each(start, selection.to_despawn@.take(d as int)),
                events@ == despawn_each_events(start, selection.to_despawn@.take(d as int)),
            decreases selection.to_despawn.len() - d,
        {
            proof {
                assert(selection.to_despawn@.take(d + 1).drop_last() =~= selection.to_despawn@.take(
                    d as int,
                ));
            }
            let mut more = self.despawn_level(selection.to_despawn[d]);
            events.append(&mut more);
            d += 1;
        }
        proof {
            assert(selection.to_despawn@.take(selection.to_despawn@.len() as int)
                =~= selection.to_despawn@);
        }
        let ghost cleared = self@;
        let ghost despawned = events@;
        let mut s: usize = 0;
        proof {
            assert(events@ =~= despawned + spawn_each_events(
                cleared,
                project,
                selection.to_spawn@.take(0),
                textures,
                registries,
                layout,
            ));
        }
        while s < selection.to_spawn.len()
            invariant
                s <= selection.to_spawn.len(),
                is_selection_of(&selection, project.levels@, policy, layout, start.spawned_uids()),
                self@ == spawn_each(
                    cleared,
                    project,
                    selection.to_spawn@.take(s as int),
                    textures,
                    registries,
                    layout,
                ),
                events@ == despawned + spawn_each_events(
                    cleared,
                    project,
                    selection.to_spawn@.take(s as int),
                    textures,
                    registries,
                    layout,
                ),
                failed@ == spawn_each_failures(
                    cleared,
                    project,
                    selection.to_spawn@.take(s as int),
                    textures,
                    registries,
                    layout,
                ),
            decreases selection.to_spawn.len() - s,
        {
            let position = selection.to_spawn[s];
            let ghost events_before = events@;
            proof {
                assert(selection.to_spawn@.take(s + 1).drop_last() =~= selection.to_spawn@.take(
                    s as int,
                ));
                assert(selection.to_spawn@.contains(position));
            }
            let level = &project.levels[position];
            match self.spawn_level(level, project, textures, registries, layout) {
                Ok(mut more) => {
                    let ghost added = more@;
                    events.append(&mut more);
                    proof {
                        assert(events@ =~= despawned + spawn_each_events(
                            cleared,
                            project,
                            selection.to_spawn@.take(s + 1),
                            textures,
                            registries,
                            layout,
                        ));
                    }
                },
                Err(_) => {
                    failed.push(level.uid);
                    proof {
                        assert(events@ =~= despawned + spawn_each_events(
                            cleared,
                            project,
                            selection.to_spawn@.take(s + 1),
                            textures,
                            registries,
                            layout,
                        ));
                    }
                },
            }
            s += 1;
        }
        proof {
            assert(selection.to_spawn@.take(selection.to_spawn@.len() as int)
                =~= selection.to_spawn@);
            if world_in_order(start) {
                lemma_despawn_each_in_order(start, selection.to_despawn@);
                lemma_spawn_each_in_order(
                    cleared,
                    project,
                    selection.to_spawn@,
                    textures,
                    registries,
                    layout,
                );
                assert(start.worldly =~= self@.worldly.subrange(0, start.worldly.len() as int)) by {
                    assert(start.worldly =~= cleared.worldly.subrange(0, start.worldly.len() as int));
                    assert(cleared.worldly =~= self@.worldly.subrange(
                        0,
                        cleared.worldly.len() as int,
                    ));
                }
            }
        }
        CycleReport { selection, events, failed }
    }
}

/// Flags as worldly the nodes of `nodes` that carry `key`, and says whether
/// there was one.
pub fn mark_in_nodes(nodes: &mut Vec<EntityNode>, key: EntityKey) -> (found: bool)
    ensures
        entity_views(final(nodes)@) == entity_views(old(nodes)@).map_values(marked(key)),
        found <==> exists|e: int|
            0 <= e < old(nodes)@.len() && (#[trigger] entity_views(old(nodes)@)[e]).key == key,
{
    let ghost start = entity_views(nodes@);
    let mut found = false;
    let mut e: usize = 0;
    while e < nodes.len()
        invariant
            e <= nodes.len(),
            nodes@.len() == start.len(),
            forall|k: int| 0 <= k < e ==> (#[trigger] nodes@[k])@ == marked(key)(start[k]),
            forall|k: int| e <= k < nodes@.len() ==> (#[trigger] nodes@[k])@ == start[k],
            found <==> exists|k: int| 0 <= k < e && (#[trigger] start[k]).key == key,
        decreases nodes.len() - e,
    {
        assert(nodes@[e as int]@ == start[e as int]);
        let candidate = nodes[e].key;
        if candidate.level_uid == key.level_uid && candidate.layer == key.layer && candidate.index
            == key.index {
            nodes[e].worldly = true;
            found = true;
        }
        e += 1;
    }
    proof {
        assert(entity_views(nodes@) =~= start.map_values(marked(key)));
    }
    found
}

/// Flags as worldly the entity nodes of `level` that carry `key`, and says
/// whether there was one.
pub fn mark_in_level(level: &mut LevelNode, key: EntityKey) -> (found: bool)
    ensures
        final(level)@ == marked_level(key)(old(level)@),
        found == layers_hold(old(level)@.layers, key),
{
    let ghost start = level@;
    let mut found = false;
    let mut l: usize = 0;
    while l < level.layers.len()
        invariant
            l <= level.layers.len(),
            level.uid == start.uid,
            level.translation == start.translation,
            level.layers@.len() == start.layers.len(),
            forall|k: int|
                0 <= k < l ==> (#[trigger] level.layers@[k])@ == marked_layer(key)(start.layers[k]),
            forall|k: int|
                l <= k < level.layers@.len() ==> (#[trigger] level.layers@[k])@ == start.layers[k],
            found <==> exists|k: int| 0 <= k < l && layer_holds(#[trigger] start.layers[k], key),
        decreases level.layers.len() - l,
    {
        assert(level.layers@[l as int]@ == start.layers[l as int]);
        match &mut level.layers[l].content {
            LayerContent::Entities(nodes) => {
                if mark_in_nodes(nodes, key) {
                    found = true;
                }
            },
            _ => {},
        }
        l += 1;
    }
    proof {
        assert(level@.layers =~= start.layers.map_values(marked_layer(key)));
    }
    found
}

/// Copies of the nodes of `nodes` whose entity is not among `worldly`: in
/// `kept` those that are not worldly, in `moved` those that are.
pub fn split_entities(nodes: &Vec<EntityNode>, worldly: &Vec<EntityNode>) -> (parts: (
    Vec<EntityNode>,
    Vec<EntityNode>,
))
    ensures
        entity_views(parts.0@) == entity_views(nodes@).filter(
            stays(keys_of(entity_views(worldly@))),
        ),
        entity_views(parts.1@) == entity_views(nodes@).filter(
            leaves(keys_of(entity_views(worldly@))),
        ),
{
    let ghost all = entity_views(nodes@);
    let ghost taken = keys_of(entity_views(worldly@));
    let mut kept: Vec<EntityNode> = Vec::new();
    let mut moved: Vec<EntityNode> = Vec::new();
    let mut i: usize = 0;
    proof {
        reveal_with_fuel(Seq::filter, 1);
        assert(entity_views(kept@) =~= all.take(0).filter(stays(taken)));
        assert(entity_views(moved@) =~= all.take(0).filter(leaves(taken)));
    }
    while i < nodes.len()
        invariant
            i <= nodes.len(),
            all == entity_views(nodes@),
            taken == keys_of(entity_views(worldly@)),
            entity_views(kept@) == all.take(i as int).filter(stays(taken)),
            entity_views(moved@) == all.take(i as int).filter(leaves(taken)),
        decreases nodes.len() - i,
    {
        let ghost kept_before = entity_views(kept@);
        let ghost moved_before = entity_views(moved@);
        proof {
            assert(all.take(i + 1) =~= all.take(i as int).push(all[i as int]));
            lemma_filter_push(all.take(i as int), all[i as int], stays(taken));
            lemma_filter_push(all.take(i as int), all[i as int], leaves(taken));
        }
        if !holds_key(worldly, nodes[i].key) {
            if nodes[i].worldly {
                moved.push(nodes[i].duplicate());
                proof {
                    assert(entity_views(moved@) =~= moved_before.push(all[i as int]));
                }
            } else {
                kept.push(nodes[i].duplicate());
                proof {
                    assert(entity_views(kept@) =~= kept_before.push(all[i as int]));
                }
            }
        }
        i += 1;
    }
    proof {
        assert(all.take(all.len() as int) =~= all);
    }
    (kept, moved)
}

} // verus!
