//! What holds of a world whatever is done to it: entities that outlive
//! their level are kept and never made twice, and a respawn does not
//! depend on how often it is asked for.

use vstd::prelude::*;
use crate::lifecycle::despawn_each;
use crate::lifecycle::is_worldly;
use crate::lifecycle::marked;
use crate::lifecycle::marked_layer;
use crate::lifecycle::migrants_of;
use crate::lifecycle::spawn_each;
use crate::lifecycle::keys_of;
use crate::lifecycle::leaves;
use crate::lifecycle::lemma_position_unique;
use crate::lifecycle::resident_layer;
use crate::lifecycle::stays;
use crate::lifecycle::worldly_in_layers;
use crate::model::LayerData;
use crate::model::Level;
use crate::model::Project;
use crate::selector::LayoutMode;
use crate::synth::level_node_of;
use crate::synth::level_resolves;
use crate::synth::Registries;
use crate::synth::TextureLookup;
use crate::lifecycle::picked_in_layer;
use crate::lifecycle::picked_in_layers;
use crate::lifecycle::WorldView;
use crate::scene::EntityKey;
use crate::scene::EntityNodeView;
use crate::scene::LayerContentView;
use crate::scene::LayerNodeView;
use crate::scene::LevelNodeView;
use crate::seqs::lemma_concat_members;
use crate::seqs::lemma_filter_agree;
use crate::seqs::lemma_filter_members;
use crate::seqs::lemma_filter_push;

verus! {

/// Whether no two nodes of `nodes` carry the same key.
pub open spec fn keys_distinct(nodes: Seq<EntityNodeView>) -> bool {
    forall|a: int, b: int|
        0 <= a < b < nodes.len() ==> (#[trigger] nodes[a]).key != (#[trigger] nodes[b]).key
}

/// Whether the entity nodes of `layer` are told apart by their keys, and
/// each key names the level `uid` and this layer.
pub open spec fn layer_keyed(layer: LayerNodeView, uid: i64) -> bool {
    match layer.content {
        LayerContentView::Entities(nodes) => keys_distinct(nodes) && forall|e: int|
            0 <= e < nodes.len() ==> (#[trigger] nodes[e]).key.level_uid == uid && nodes[e].key.layer
                == layer.layer_index,
        _ => true,
    }
}

/// Whether the layers of `layers` stand for different layers of the level
/// `uid`, and each of them is keyed.
pub open spec fn layers_keyed(layers: Seq<LayerNodeView>, uid: i64) -> bool {
    &&& forall|l: int| 0 <= l < layers.len() ==> layer_keyed(#[trigger] layers[l], uid)
    &&& forall|a: int, b: int|
        0 <= a < b < layers.len() ==> (#[trigger] layers[a]).layer_index != (
        #[trigger] layers[b]).layer_index
}

/// Whether `node` is one of the entity nodes of `layer`.
pub open spec fn layer_contains(layer: LayerNodeView, node: EntityNodeView) -> bool {
    match layer.content {
        LayerContentView::Entities(nodes) => nodes.contains(node),
        _ => false,
    }
}

/// Whether `node` is one of the entity nodes of `layers`.
pub open spec fn layers_contain(layers: Seq<LayerNodeView>, node: EntityNodeView) -> bool {
    exists|l: int| 0 <= l < layers.len() && layer_contains(#[trigger] layers[l], node)
}

/// Whether a world is in order: no two worldly nodes stand for the same
/// entity, no two level nodes for the same level, every level node is
/// keyed, and no level node owns a node of an entity that is at the world
/// root.
pub open spec fn world_in_order(world: WorldView) -> bool {
    &&& keys_distinct(world.worldly)
    &&& forall|a: int, b: int|
        0 <= a < b < world.levels.len() ==> (#[trigger] world.levels[a]).uid != (
        #[trigger] world.levels[b]).uid
    &&& forall|i: int|
        0 <= i < world.levels.len() ==> layers_keyed(
            (#[trigger] world.levels[i]).layers,
            world.levels[i].uid,
        )
    &&& forall|i: int, node: EntityNodeView|
        0 <= i < world.levels.len() && layers_contain((#[trigger] world.levels[i]).layers, node)
            ==> !(#[trigger] keys_of(world.worldly).contains(node.key))
}

/// The picked entity nodes of a run of layers are the entity nodes of
/// those layers that the pick picks.
pub proof fn lemma_picked_members(
    layers: Seq<LayerNodeView>,
    pick: spec_fn(EntityNodeView) -> bool,
    node: EntityNodeView,
)
    ensures
        picked_in_layers(layers, pick).contains(node) <==> layers_contain(layers, node) && pick(node),
    decreases layers.len(),
{
    if layers.len() > 0 {
        let rest = layers.drop_last();
        let last = layers.last();
        lemma_picked_members(rest, pick, node);
        lemma_concat_members(picked_in_layers(rest, pick), picked_in_layer(last, pick), node);
        match last.content {
            LayerContentView::Entities(nodes) => {
                lemma_filter_members(nodes, pick, node);
            },
            _ => {},
        }
        if layers_contain(rest, node) {
            let l = choose|l: int| 0 <= l < rest.len() && layer_contains(#[trigger] rest[l], node);
            assert(layers[l] == rest[l]);
        }
        if layer_contains(last, node) {
            assert(layers[layers.len() - 1] == last);
        }
        if layers_contain(layers, node) {
            let l = choose|l: int| 0 <= l < layers.len() && layer_contains(#[trigger] layers[l], node);
            if l < rest.len() {
                assert(rest[l] == layers[l]);
            }
        }
    }
}

/// Nodes that are told apart by their keys are still told apart when some
/// of them are left out.
pub proof fn lemma_filter_keys_distinct(nodes: Seq<EntityNodeView>, keep: spec_fn(EntityNodeView) -> bool)
    requires
        keys_distinct(nodes),
    ensures
        keys_distinct(nodes.filter(keep)),
    decreases nodes.len(),
{
    reveal_with_fuel(Seq::filter, 1);
    if nodes.len() > 0 {
        let rest = nodes.drop_last();
        let last = nodes.last();
        assert(keys_distinct(rest)) by {
            assert forall|a: int, b: int| 0 <= a < b < rest.len() implies (#[trigger] rest[a]).key != (
            #[trigger] rest[b]).key by {
                assert(rest[a] == nodes[a] && rest[b] == nodes[b]);
            }
        }
        lemma_filter_keys_distinct(rest, keep);
        assert(rest.push(last) =~= nodes);
        lemma_filter_push(rest, last, keep);
        if keep(last) {
            let kept = rest.filter(keep);
            let all = kept.push(last);
            assert forall|a: int, b: int| 0 <= a < b < all.len() implies (#[trigger] all[a]).key != (
            #[trigger] all[b]).key by {
                if b == kept.len() {
                    assert(kept.contains(kept[a]));
                    lemma_filter_members(rest, keep, kept[a]);
                    let k = choose|k: int| 0 <= k < rest.len() && rest[k] == kept[a];
                    assert(nodes[k] == kept[a]);
                    assert(nodes[nodes.len() - 1] == last);
                } else {
                    assert(all[a] == kept[a] && all[b] == kept[b]);
                }
            }
        }
    }
}

/// Two runs of nodes that are each told apart by their keys, and share no
/// key, are told apart by their keys when put together.
pub proof fn lemma_concat_keys_distinct(first: Seq<EntityNodeView>, second: Seq<EntityNodeView>)
    requires
        keys_distinct(first),
        keys_distinct(second),
        forall|a: int, b: int|
            0 <= a < first.len() && 0 <= b < second.len() ==> (#[trigger] first[a]).key != (
            #[trigger] second[b]).key,
    ensures
        keys_distinct(first + second),
{
    let both = first + second;
    assert forall|a: int, b: int| 0 <= a < b < both.len() implies (#[trigger] both[a]).key != (
    #[trigger] both[b]).key by {
        if b < first.len() {
            assert(both[a] == first[a] && both[b] == first[b]);
        } else if a < first.len() {
            assert(both[a] == first[a] && both[b] == second[b - first.len()]);
        } else {
            assert(both[a] == second[a - first.len()] && both[b] == second[b - first.len()]);
        }
    }
}

/// The picked entity nodes of keyed layers are told apart by their keys.
pub proof fn lemma_picked_keys_distinct(
    layers: Seq<LayerNodeView>,
    uid: i64,
    pick: spec_fn(EntityNodeView) -> bool,
)
    requires
        layers_keyed(layers, uid),
    ensures
        keys_distinct(picked_in_layers(layers, pick)),
    decreases layers.len(),
{
    if layers.len() > 0 {
        let rest = layers.drop_last();
        let last = layers.last();
        assert(layers_keyed(rest, uid)) by {
            assert forall|l: int| 0 <= l < rest.len() implies layer_keyed(#[trigger] rest[l], uid) by {
                assert(rest[l] == layers[l]);
            }
            assert forall|a: int, b: int| 0 <= a < b < rest.len() implies (#[trigger] rest[a]).layer_index
                != (#[trigger] rest[b]).layer_index by {
                assert(rest[a] == layers[a] && rest[b] == layers[b]);
            }
        }
        lemma_picked_keys_distinct(rest, uid, pick);
        let earlier = picked_in_layers(rest, pick);
        let here = picked_in_layer(last, pick);
        assert(layers[layers.len() - 1] == last);
        assert(layer_keyed(last, uid));
        match last.content {
            LayerContentView::Entities(nodes) => {
                lemma_filter_keys_distinct(nodes, pick);
                assert forall|a: int, b: int| 0 <= a < earlier.len() && 0 <= b < here.len() implies (
                #[trigger] earlier[a]).key != (#[trigger] here[b]).key by {
                    assert(earlier.contains(earlier[a]));
                    lemma_picked_members(rest, pick, earlier[a]);
                    let l = choose|l: int|
                        0 <= l < rest.len() && layer_contains(#[trigger] rest[l], earlier[a]);
                    assert(rest[l] == layers[l]);
                    assert(layer_keyed(layers[l], uid));
                    let from = layers[l].content->Entities_0;
                    let e = choose|e: int| 0 <= e < from.len() && from[e] == earlier[a];
                    assert(from[e].key.layer == layers[l].layer_index);
                    assert(here.contains(here[b]));
                    lemma_filter_members(nodes, pick, here[b]);
                    let f = choose|f: int| 0 <= f < nodes.len() && nodes[f] == here[b];
                    assert(nodes[f].key.layer == last.layer_index);
                    assert(layers[l].layer_index != layers[layers.len() - 1].layer_index);
                }
            },
            _ => {},
        }
        lemma_concat_keys_distinct(earlier, here);
    }
}

/// Two entity nodes of keyed layers that carry the same key are one node.
pub proof fn lemma_same_key_same_node(
    layers: Seq<LayerNodeView>,
    uid: i64,
    first: EntityNodeView,
    second: EntityNodeView,
)
    requires
        layers_keyed(layers, uid),
        layers_contain(layers, first),
        layers_contain(layers, second),
        first.key == second.key,
    ensures
        first == second,
{
    let a = choose|l: int| 0 <= l < layers.len() && layer_contains(#[trigger] layers[l], first);
    let b = choose|l: int| 0 <= l < layers.len() && layer_contains(#[trigger] layers[l], second);
    assert(layer_keyed(layers[a], uid) && layer_keyed(layers[b], uid));
    let nodes_a = layers[a].content->Entities_0;
    let nodes_b = layers[b].content->Entities_0;
    let e = choose|e: int| 0 <= e < nodes_a.len() && nodes_a[e] == first;
    let f = choose|f: int| 0 <= f < nodes_b.len() && nodes_b[f] == second;
    assert(nodes_a[e].key.layer == layers[a].layer_index);
    assert(nodes_b[f].key.layer == layers[b].layer_index);
    if a < b {
        assert(layers[a].layer_index != layers[b].layer_index);
    }
    if b < a {
        assert(layers[b].layer_index != layers[a].layer_index);
    }
    assert(a == b);
    if e < f {
        assert(nodes_a[e].key != nodes_a[f].key);
    }
    if f < e {
        assert(nodes_a[f].key != nodes_a[e].key);
    }
}

/// A synthesized level node is keyed: each of its entity nodes is told
/// from every other by its key, which names the level, the layer and the
/// entity's place in the layer.
pub proof fn lemma_synthesized_keyed(
    project: &Project,
    level: &Level,
    textures: &TextureLookup,
    registries: &Registries,
    layout: LayoutMode,
)
    ensures
        layers_keyed(level_node_of(project, level, textures, registries, layout).layers, level.uid),
{
    let node = level_node_of(project, level, textures, registries, layout);
    let count = level.layers@.len() as int;
    assert(count <= usize::MAX) by {
        assert(level.layers.len() == level.layers@.len());
    }
    assert forall|l: int| 0 <= l < node.layers.len() implies layer_keyed(
        #[trigger] node.layers[l],
        level.uid,
    ) by {
        let index = count - 1 - l;
        match level.layers@[index].data {
            LayerData::Entities { entities } => {
                assert(entities@.len() <= usize::MAX) by {
                    assert(entities.len() == entities@.len());
                }
                let nodes = node.layers[l].content->Entities_0;
                assert(nodes.len() == entities@.len());
                assert forall|a: int, b: int| 0 <= a < b < nodes.len() implies (
                #[trigger] nodes[a]).key != (#[trigger] nodes[b]).key by {
                    assert(nodes[a].key.index == a as usize);
                    assert(nodes[b].key.index == b as usize);
                }
            },
            _ => {},
        }
    }
    assert forall|a: int, b: int| 0 <= a < b < node.layers.len() implies (
    #[trigger] node.layers[a]).layer_index != (#[trigger] node.layers[b]).layer_index by {
        assert(node.layers[a].layer_index == (count - 1 - a) as usize);
        assert(node.layers[b].layer_index == (count - 1 - b) as usize);
    }
}

/// The layers of a new level node that stay with it are keyed if the new
/// layers are, and own only nodes that the new layers own and that stay.
pub proof fn lemma_resident_keyed(layers: Seq<LayerNodeView>, uid: i64, taken: Set<EntityKey>)
    requires
        layers_keyed(layers, uid),
    ensures
        layers_keyed(layers.map_values(|layer: LayerNodeView| resident_layer(layer, taken)), uid),
        forall|node: EntityNodeView|
            layers_contain(
                layers.map_values(|layer: LayerNodeView| resident_layer(layer, taken)),
                node,
            ) <==> layers_contain(layers, node) && stays(taken)(node),
{
    let resident = layers.map_values(|layer: LayerNodeView| resident_layer(layer, taken));
    assert forall|l: int| 0 <= l < resident.len() implies layer_keyed(#[trigger] resident[l], uid) by {
        assert(layer_keyed(layers[l], uid));
        match layers[l].content {
            LayerContentView::Entities(nodes) => {
                lemma_filter_keys_distinct(nodes, stays(taken));
                let kept = nodes.filter(stays(taken));
                assert forall|e: int| 0 <= e < kept.len() implies (#[trigger] kept[e]).key.level_uid
                    == uid && kept[e].key.layer == resident[l].layer_index by {
                    assert(kept.contains(kept[e]));
                    lemma_filter_members(nodes, stays(taken), kept[e]);
                    let f = choose|f: int| 0 <= f < nodes.len() && nodes[f] == kept[e];
                    assert(nodes[f].key.level_uid == uid);
                }
            },
            _ => {},
        }
    }
    assert forall|a: int, b: int| 0 <= a < b < resident.len() implies (
    #[trigger] resident[a]).layer_index != (#[trigger] resident[b]).layer_index by {
        assert(layers[a].layer_index != layers[b].layer_index);
    }
    assert forall|node: EntityNodeView|
        layers_contain(resident, node) <==> layers_contain(layers, node) && stays(taken)(node) by {
        if layers_contain(resident, node) {
            let l = choose|l: int|
                0 <= l < resident.len() && layer_contains(#[trigger] resident[l], node);
            match layers[l].content {
                LayerContentView::Entities(nodes) => {
                    lemma_filter_members(nodes, stays(taken), node);
                },
                _ => {},
            }
            assert(layer_contains(layers[l], node));
        }
        if layers_contain(layers, node) && stays(taken)(node) {
            let l = choose|l: int| 0 <= l < layers.len() && layer_contains(#[trigger] layers[l], node);
            match layers[l].content {
                LayerContentView::Entities(nodes) => {
                    lemma_filter_members(nodes, stays(taken), node);
                },
                _ => {},
            }
            assert(layer_contains(resident[l], node));
        }
    }
}

/// The keys of two runs of nodes put together are the keys of either.
pub proof fn lemma_concat_keys(first: Seq<EntityNodeView>, second: Seq<EntityNodeView>, key: EntityKey)
    ensures
        keys_of(first + second).contains(key) <==> keys_of(first).contains(key) || keys_of(
            second,
        ).contains(key),
{
    let both = first + second;
    if keys_of(first).contains(key) {
        let j = choose|j: int| 0 <= j < first.len() && (#[trigger] first[j]).key == key;
        assert(both[j].key == key);
    }
    if keys_of(second).contains(key) {
        let j = choose|j: int| 0 <= j < second.len() && (#[trigger] second[j]).key == key;
        assert(both[first.len() + j].key == key);
    }
    if keys_of(both).contains(key) {
        let j = choose|j: int| 0 <= j < both.len() && (#[trigger] both[j]).key == key;
        if j < first.len() {
            assert(first[j].key == key);
        } else {
            assert(second[j - first.len()].key == key);
        }
    }
}

/// In a world in order, a level that is present has one node, and that
/// node is the first for its uid.
pub proof fn lemma_present_once(world: WorldView, i: int)
    requires
        world_in_order(world),
        0 <= i < world.levels.len(),
    ensures
        world.is_spawned(world.levels[i].uid),
        world.position_of(world.levels[i].uid) == i,
{
    let uid = world.levels[i].uid;
    assert forall|k: int| 0 <= k < i implies (#[trigger] world.levels[k]).uid != uid by {
        assert(world.levels[k].uid != world.levels[i].uid);
    }
    lemma_position_unique(world, uid, i);
}

/// Despawning a level keeps a world in order. The worldly nodes that were
/// at the world root stay there as they are, in front; the worldly entity
/// nodes of the level join them; and the level is not present afterwards.
pub proof fn lemma_despawn_in_order(world: WorldView, uid: i64)
    requires
        world_in_order(world),
    ensures
        world_in_order(world.spec_despawn(uid)),
        world.worldly.is_prefix_of(world.spec_despawn(uid).worldly),
        !world.spec_despawn(uid).is_spawned(uid),
        forall|i: int, node: EntityNodeView|
            0 <= i < world.levels.len() && (#[trigger] world.levels[i]).uid == uid && node.worldly
                && layers_contain(world.levels[i].layers, node) ==> #[trigger] world.spec_despawn(
                uid,
            ).worldly.contains(node),
{
    let after = world.spec_despawn(uid);
    if world.is_spawned(uid) {
        let some = choose|i: int| 0 <= i < world.levels.len() && (#[trigger] world.levels[i]).uid == uid;
        lemma_present_once(world, some);
        let at = world.position_of(uid);
        let gone = world.levels[at];
        let moved = worldly_in_layers(gone.layers);
        assert(after.levels == world.levels.remove(at));
        assert(after.worldly == world.worldly + moved);
        assert(layers_keyed(gone.layers, gone.uid));
        lemma_picked_keys_distinct(gone.layers, gone.uid, is_worldly());
        assert forall|a: int, b: int| 0 <= a < world.worldly.len() && 0 <= b < moved.len() implies (
        #[trigger] world.worldly[a]).key != (#[trigger] moved[b]).key by {
            assert(moved.contains(moved[b]));
            lemma_picked_members(gone.layers, is_worldly(), moved[b]);
            assert(!keys_of(world.worldly).contains(moved[b].key));
        }
        lemma_concat_keys_distinct(world.worldly, moved);
        assert forall|a: int, b: int| 0 <= a < b < after.levels.len() implies (
        #[trigger] after.levels[a]).uid != (#[trigger] after.levels[b]).uid by {
            let a0 = if a < at { a } else { a + 1 };
            let b0 = if b < at { b } else { b + 1 };
            assert(after.levels[a] == world.levels[a0] && after.levels[b] == world.levels[b0]);
        }
        assert forall|i: int| 0 <= i < after.levels.len() implies layers_keyed(
            (#[trigger] after.levels[i]).layers,
            after.levels[i].uid,
        ) by {
            let i0 = if i < at { i } else { i + 1 };
            assert(after.levels[i] == world.levels[i0]);
        }
        assert forall|i: int, node: EntityNodeView|
            0 <= i < after.levels.len() && layers_contain(
                (#[trigger] after.levels[i]).layers,
                node,
            ) implies !(#[trigger] keys_of(after.worldly).contains(node.key)) by {
            let i0 = if i < at { i } else { i + 1 };
            assert(after.levels[i] == world.levels[i0]);
            assert(!keys_of(world.worldly).contains(node.key));
            lemma_concat_keys(world.worldly, moved, node.key);
            if keys_of(moved).contains(node.key) {
                let j = choose|j: int| 0 <= j < moved.len() && (#[trigger] moved[j]).key == node.key;
                assert(moved.contains(moved[j]));
                lemma_picked_members(gone.layers, is_worldly(), moved[j]);
                lemma_keyed_names_level(gone.layers, gone.uid, moved[j]);
                lemma_keyed_names_level(world.levels[i0].layers, world.levels[i0].uid, node);
                if i0 < at {
                    assert(world.levels[i0].uid != world.levels[at].uid);
                } else {
                    assert(world.levels[at].uid != world.levels[i0].uid);
                }
            }
        }
        assert(!after.is_spawned(uid)) by {
            if after.is_spawned(uid) {
                let i = choose|i: int|
                    0 <= i < after.levels.len() && (#[trigger] after.levels[i]).uid == uid;
                let i0 = if i < at { i } else { i + 1 };
                assert(after.levels[i] == world.levels[i0]);
                if i0 < at {
                    assert(world.levels[i0].uid != world.levels[at].uid);
                } else {
                    assert(world.levels[at].uid != world.levels[i0].uid);
                }
            }
        }
        assert forall|i: int, node: EntityNodeView|
            0 <= i < world.levels.len() && (#[trigger] world.levels[i]).uid == uid && node.worldly
                && layers_contain(world.levels[i].layers, node) implies #[trigger] after.worldly.contains(
            node,
        ) by {
            lemma_present_once(world, i);
            lemma_picked_members(gone.layers, is_worldly(), node);
            lemma_concat_members(world.worldly, moved, node);
        }
        assert(world.worldly =~= after.worldly.subrange(0, world.worldly.len() as int));
    } else {
        assert(world.worldly =~= after.worldly.subrange(0, world.worldly.len() as int));
    }
}

/// Every entity node of keyed layers names their level in its key.
pub proof fn lemma_keyed_names_level(layers: Seq<LayerNodeView>, uid: i64, node: EntityNodeView)
    requires
        layers_keyed(layers, uid),
        layers_contain(layers, node),
    ensures
        node.key.level_uid == uid,
{
    let l = choose|l: int| 0 <= l < layers.len() && layer_contains(#[trigger] layers[l], node);
    assert(layer_keyed(layers[l], uid));
    let nodes = layers[l].content->Entities_0;
    let e = choose|e: int| 0 <= e < nodes.len() && nodes[e] == node;
    assert(nodes[e].key.level_uid == uid);
}

/// Putting a new, keyed level node into a world in order, for a level that
/// is not present, keeps the world in order. The worldly nodes that were at
/// the world root stay there as they are, in front.
pub proof fn lemma_attach_in_order(world: WorldView, node: LevelNodeView)
    requires
        world_in_order(world),
        layers_keyed(node.layers, node.uid),
        !world.is_spawned(node.uid),
    ensures
        world_in_order(world.spec_attach(node)),
        world.worldly.is_prefix_of(world.spec_attach(node).worldly),
{
    let after = world.spec_attach(node);
    let taken = keys_of(world.worldly);
    let moved = migrants_of(node.layers, taken);
    let resident = node.layers.map_values(|layer: LayerNodeView| resident_layer(layer, taken));
    let here = world.levels.len() as int;
    assert(after.levels[here].layers == resident);
    assert(after.levels[here].uid == node.uid);
    lemma_picked_keys_distinct(node.layers, node.uid, leaves(taken));
    assert forall|a: int, b: int| 0 <= a < world.worldly.len() && 0 <= b < moved.len() implies (
    #[trigger] world.worldly[a]).key != (#[trigger] moved[b]).key by {
        assert(moved.contains(moved[b]));
        lemma_picked_members(node.layers, leaves(taken), moved[b]);
        assert(!taken.contains(moved[b].key));
    }
    lemma_concat_keys_distinct(world.worldly, moved);
    assert forall|a: int, b: int| 0 <= a < b < after.levels.len() implies (
    #[trigger] after.levels[a]).uid != (#[trigger] after.levels[b]).uid by {
        assert(after.levels[a] == world.levels[a]);
        if b < here {
            assert(after.levels[b] == world.levels[b]);
        }
    }
    lemma_resident_keyed(node.layers, node.uid, taken);
    assert forall|i: int| 0 <= i < after.levels.len() implies layers_keyed(
        (#[trigger] after.levels[i]).layers,
        after.levels[i].uid,
    ) by {
        if i < here {
            assert(after.levels[i] == world.levels[i]);
        }
    }
    assert forall|i: int, other: EntityNodeView|
        0 <= i < after.levels.len() && layers_contain(
            (#[trigger] after.levels[i]).layers,
            other,
        ) implies !(#[trigger] keys_of(after.worldly).contains(other.key)) by {
        lemma_concat_keys(world.worldly, moved, other.key);
        if i < here {
            assert(after.levels[i] == world.levels[i]);
            assert(!keys_of(world.worldly).contains(other.key));
        } else {
            assert(layers_contain(node.layers, other) && stays(taken)(other));
        }
        if keys_of(moved).contains(other.key) {
            let j = choose|j: int| 0 <= j < moved.len() && (#[trigger] moved[j]).key == other.key;
            assert(moved.contains(moved[j]));
            lemma_picked_members(node.layers, leaves(taken), moved[j]);
            if i < here {
                lemma_keyed_names_level(node.layers, node.uid, moved[j]);
                lemma_keyed_names_level(world.levels[i].layers, world.levels[i].uid, other);
            } else {
                lemma_same_key_same_node(node.layers, node.uid, moved[j], other);
            }
        }
    }
    assert(world.worldly =~= after.worldly.subrange(0, world.worldly.len() as int));
}

/// A request to spawn a level keeps a world in order, whether the level is
/// spawned or not. The worldly nodes that were at the world root stay there
/// as they are, in front.
pub proof fn lemma_spawn_in_order(
    world: WorldView,
    project: &Project,
    level: &Level,
    textures: &TextureLookup,
    registries: &Registries,
    layout: LayoutMode,
)
    requires
        world_in_order(world),
    ensures
        world_in_order(world.spec_spawn(project, level, textures, registries, layout)),
        world.worldly.is_prefix_of(
            world.spec_spawn(project, level, textures, registries, layout).worldly,
        ),
{
    if world.is_spawned(level.uid) || !level_resolves(project, level) {
        assert(world.worldly =~= world.worldly.subrange(0, world.worldly.len() as int));
    } else {
        lemma_synthesized_keyed(project, level, textures, registries, layout);
        lemma_attach_in_order(world, level_node_of(project, level, textures, registries, layout));
    }
}

/// An entity that outlives its level is kept and is not made twice: a
/// request to respawn a level keeps a world in order, so no two nodes at
/// the world root, and no node at the root and node of a level, stand for
/// one entity; and the worldly nodes that were at the world root stay
/// there as they are, in front of those that join them.
pub proof fn lemma_respawn_in_order(
    world: WorldView,
    project: &Project,
    level: &Level,
    textures: &TextureLookup,
    registries: &Registries,
    layout: LayoutMode,
)
    requires
        world_in_order(world),
    ensures
        world_in_order(world.spec_respawn(project, level, textures, registries, layout)),
        world.worldly.is_prefix_of(
            world.spec_respawn(project, level, textures, registries, layout).worldly,
        ),
{
    let cleared = world.spec_despawn(level.uid);
    let after = cleared.spec_spawn(project, level, textures, registries, layout);
    lemma_despawn_in_order(world, level.uid);
    lemma_spawn_in_order(cleared, project, level, textures, registries, layout);
    assert(world.worldly =~= world.worldly.subrange(0, world.worldly.len() as int));
    assert(world.worldly =~= after.worldly.subrange(0, world.worldly.len() as int)) by {
        assert(world.worldly =~= cleared.worldly.subrange(0, world.worldly.len() as int));
        assert(cleared.worldly =~= after.worldly.subrange(0, cleared.worldly.len() as int));
    }
}

/// Despawning one level after the other keeps a world in order, and the
/// worldly nodes that were at the world root stay there as they are, in
/// front.
pub proof fn lemma_despawn_each_in_order(world: WorldView, uids: Seq<i64>)
    requires
        world_in_order(world),
    ensures
        world_in_order(despawn_each(world, uids)),
        world.worldly.is_prefix_of(despawn_each(world, uids).worldly),
    decreases uids.len(),
{
    if uids.len() == 0 {
        assert(world.worldly =~= world.worldly.subrange(0, world.worldly.len() as int));
    } else {
        let earlier = despawn_each(world, uids.drop_last());
        let after = despawn_each(world, uids);
        lemma_despawn_each_in_order(world, uids.drop_last());
        lemma_despawn_in_order(earlier, uids.last());
        assert(world.worldly =~= after.worldly.subrange(0, world.worldly.len() as int)) by {
            assert(world.worldly =~= earlier.worldly.subrange(0, world.worldly.len() as int));
            assert(earlier.worldly =~= after.worldly.subrange(0, earlier.worldly.len() as int));
        }
    }
}

/// Spawning one level after the other keeps a world in order, and the
/// worldly nodes that were at the world root stay there as they are, in
/// front.
pub proof fn lemma_spawn_each_in_order(
    world: WorldView,
    project: &Project,
    positions: Seq<usize>,
    textures: &TextureLookup,
    registries: &Registries,
    layout: LayoutMode,
)
    requires
        world_in_order(world),
    ensures
        world_in_order(spawn_each(world, project, positions, textures, registries, layout)),
        world.worldly.is_prefix_of(
            spawn_each(world, project, positions, textures, registries, layout).worldly,
        ),
    decreases positions.len(),
{
    if positions.len() == 0 {
        assert(world.worldly =~= world.worldly.subrange(0, world.worldly.len() as int));
    } else {
        let earlier = spawn_each(
            world,
            project,
            positions.drop_last(),
            textures,
            registries,
            layout,
        );
        let after = spawn_each(world, project, positions, textures, registries, layout);
        lemma_spawn_each_in_order(
            world,
            project,
            positions.drop_last(),
            textures,
            registries,
            layout,
        );
        lemma_spawn_in_order(
            earlier,
            project,
            &project.levels@[positions.last() as int],
            textures,
            registries,
            layout,
        );
        assert(world.worldly =~= after.worldly.subrange(0, world.worldly.len() as int)) by {
            assert(world.worldly =~= earlier.worldly.subrange(0, world.worldly.len() as int));
            assert(earlier.worldly =~= after.worldly.subrange(0, earlier.worldly.len() as int));
        }
    }
}

/// A sequence that holds nothing is empty.
pub proof fn lemma_no_member_empty(nodes: Seq<EntityNodeView>)
    requires
        forall|node: EntityNodeView| !nodes.contains(node),
    ensures
        nodes == Seq::<EntityNodeView>::empty(),
{
    if nodes.len() > 0 {
        assert(nodes.contains(nodes[0]));
    }
    assert(nodes =~= Seq::<EntityNodeView>::empty());
}

/// Respawning is idempotent: in a world in order, a second request to
/// respawn a level, made right after the first, leaves the world as the
/// first left it, level nodes and worldly nodes alike.
pub proof fn lemma_respawn_idempotent(
    world: WorldView,
    project: &Project,
    level: &Level,
    textures: &TextureLookup,
    registries: &Registries,
    layout: LayoutMode,
)
    requires
        world_in_order(world),
    ensures
        world.spec_respawn(project, level, textures, registries, layout).spec_respawn(
            project,
            level,
            textures,
            registries,
            layout,
        ) == world.spec_respawn(project, level, textures, registries, layout),
{
    let uid = level.uid;
    let once = world.spec_respawn(project, level, textures, registries, layout);
    if world.is_spawned(uid) {
        let cleared = world.spec_despawn(uid);
        lemma_despawn_in_order(world, uid);
        if level_resolves(project, level) {
            let node = level_node_of(project, level, textures, registries, layout);
            lemma_synthesized_keyed(project, level, textures, registries, layout);
            lemma_attach_in_order(cleared, node);
            assert(once == cleared.spec_attach(node));
            let taken = keys_of(cleared.worldly);
            let moved = migrants_of(node.layers, taken);
            let resident = node.layers.map_values(|layer: LayerNodeView| resident_layer(layer, taken));
            let here = cleared.levels.len() as int;
            assert(once.levels[here].uid == uid);
            assert(once.levels[here].layers == resident);
            lemma_present_once(once, here);
            lemma_resident_keyed(node.layers, uid, taken);
            assert forall|other: EntityNodeView| !worldly_in_layers(resident).contains(other) by {
                lemma_picked_members(resident, is_worldly(), other);
            }
            lemma_no_member_empty(worldly_in_layers(resident));
            let again = once.spec_despawn(uid);
            assert(again.levels =~= cleared.levels);
            assert(again.worldly =~= once.worldly);
            assert(!again.is_spawned(uid)) by {
                if again.is_spawned(uid) {
                    let i = choose|i: int|
                        0 <= i < again.levels.len() && (#[trigger] again.levels[i]).uid == uid;
                    assert(cleared.levels[i].uid == uid);
                }
            }
            let twice = again.spec_attach(node);
            let taken_again = keys_of(again.worldly);
            assert forall|other: EntityNodeView| !migrants_of(node.layers, taken_again).contains(
                other,
            ) by {
                lemma_picked_members(node.layers, leaves(taken_again), other);
                lemma_picked_members(node.layers, leaves(taken), other);
                lemma_concat_keys(cleared.worldly, moved, other.key);
                if layers_contain(node.layers, other) && other.worldly && !taken.contains(other.key) {
                    let j = choose|j: int| 0 <= j < moved.len() && moved[j] == other;
                    assert(moved[j].key == other.key);
                }
            }
            lemma_no_member_empty(migrants_of(node.layers, taken_again));
            let resident_again = node.layers.map_values(
                |layer: LayerNodeView| resident_layer(layer, taken_again),
            );
            assert forall|l: int| 0 <= l < node.layers.len() implies resident_again[l]
                == resident[l] by {
                match node.layers[l].content {
                    LayerContentView::Entities(nodes) => {
                        assert forall|e: int| 0 <= e < nodes.len() implies stays(taken_again)(
                            #[trigger] nodes[e],
                        ) == stays(taken)(nodes[e]) by {
                            let own = nodes[e];
                            lemma_concat_keys(cleared.worldly, moved, own.key);
                            if !own.worldly && keys_of(moved).contains(own.key) {
                                let j = choose|j: int|
                                    0 <= j < moved.len() && (#[trigger] moved[j]).key == own.key;
                                assert(moved.contains(moved[j]));
                                lemma_picked_members(node.layers, leaves(taken), moved[j]);
                                assert(nodes.contains(own));
                                assert(layer_contains(node.layers[l], own));
                                lemma_same_key_same_node(node.layers, uid, moved[j], own);
                            }
                        }
                        lemma_filter_agree(nodes, stays(taken_again), stays(taken));
                    },
                    _ => {},
                }
            }
            assert(resident_again =~= resident);
            assert(twice.levels =~= once.levels);
            assert(twice.worldly =~= once.worldly);
        }
    }
}

/// Flagging an entity as worldly keeps a world in order and leaves the
/// world root as it is.
pub proof fn lemma_mark_worldly_in_order(world: WorldView, key: EntityKey)
    requires
        world_in_order(world),
    ensures
        world_in_order(world.spec_mark_worldly(key)),
        world.spec_mark_worldly(key).worldly == world.worldly,
        forall|uid: i64| world.spec_mark_worldly(key).is_spawned(uid) == world.is_spawned(uid),
{
    let after = world.spec_mark_worldly(key);
    assert forall|i: int| 0 <= i < after.levels.len() implies layers_keyed(
        (#[trigger] after.levels[i]).layers,
        after.levels[i].uid,
    ) by {
        let before = world.levels[i].layers;
        let layers = after.levels[i].layers;
        let uid = world.levels[i].uid;
        assert(layers_keyed(before, uid));
        assert forall|l: int| 0 <= l < layers.len() implies layer_keyed(#[trigger] layers[l], uid) by {
            assert(layer_keyed(before[l], uid));
            assert(layers[l] == marked_layer(key)(before[l]));
        }
        assert forall|a: int, b: int| 0 <= a < b < layers.len() implies (
        #[trigger] layers[a]).layer_index != (#[trigger] layers[b]).layer_index by {
            assert(before[a].layer_index != before[b].layer_index);
        }
    }
    assert forall|a: int, b: int| 0 <= a < b < after.levels.len() implies (
    #[trigger] after.levels[a]).uid != (#[trigger] after.levels[b]).uid by {
        assert(world.levels[a].uid != world.levels[b].uid);
    }
    assert forall|i: int, node: EntityNodeView|
        0 <= i < after.levels.len() && layers_contain(
            (#[trigger] after.levels[i]).layers,
            node,
        ) implies !(#[trigger] keys_of(after.worldly).contains(node.key)) by {
        let before = world.levels[i].layers;
        let layers = after.levels[i].layers;
        let l = choose|l: int| 0 <= l < layers.len() && layer_contains(#[trigger] layers[l], node);
        assert(layers[l] == marked_layer(key)(before[l]));
        let nodes = before[l].content->Entities_0;
        let flagged = layers[l].content->Entities_0;
        let e = choose|e: int| 0 <= e < flagged.len() && flagged[e] == node;
        assert(flagged[e] == marked(key)(nodes[e]));
        assert(nodes.contains(nodes[e]));
        assert(layer_contains(before[l], nodes[e]));
        assert(layers_contain(world.levels[i].layers, nodes[e]));
        assert(!keys_of(world.worldly).contains(nodes[e].key));
    }
    assert forall|uid: i64| after.is_spawned(uid) == world.is_spawned(uid) by {
        if after.is_spawned(uid) {
            let i = choose|i: int| 0 <= i < after.levels.len() && (#[trigger] after.levels[i]).uid == uid;
            assert(world.levels[i].uid == uid);
        }
        if world.is_spawned(uid) {
            let i = choose|i: int| 0 <= i < world.levels.len() && (#[trigger] world.levels[i]).uid == uid;
            assert(after.levels[i].uid == uid);
        }
    }
}

} // verus!
