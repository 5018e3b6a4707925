use bevy_ecs_ldtk::cycle::find_project;
use bevy_ecs_ldtk::cycle::process_loaded_ldtk;
use bevy_ecs_ldtk::cycle::LoadedProject;
use bevy_ecs_ldtk::cycle::WorldEntry;
use bevy_ecs_ldtk::lifecycle::holds_key;
use bevy_ecs_ldtk::lifecycle::LevelEvent;
use bevy_ecs_ldtk::lifecycle::LevelState;
use bevy_ecs_ldtk::lifecycle::World;
use bevy_ecs_ldtk::model::EntityDefinition;
use bevy_ecs_ldtk::model::GridCoords;
use bevy_ecs_ldtk::model::IntGridCell;
use bevy_ecs_ldtk::model::LayerData;
use bevy_ecs_ldtk::model::LayerInstance;
use bevy_ecs_ldtk::model::LdtkEntity;
use bevy_ecs_ldtk::model::Level;
use bevy_ecs_ldtk::model::Pivot;
use bevy_ecs_ldtk::model::Point;
use bevy_ecs_ldtk::model::Project;
use bevy_ecs_ldtk::model::TilesetDefinition;
use bevy_ecs_ldtk::scene::EntityKey;
use bevy_ecs_ldtk::scene::EntityNode;
use bevy_ecs_ldtk::scene::LayerContent;
use bevy_ecs_ldtk::scene::Translation;
use bevy_ecs_ldtk::selector::LayoutMode;
use bevy_ecs_ldtk::selector::SelectionPolicy;
use bevy_ecs_ldtk::synth::synthesize;
use bevy_ecs_ldtk::synth::EntityRegistration;
use bevy_ecs_ldtk::synth::EntityStrategy;
use bevy_ecs_ldtk::synth::Registries;
use bevy_ecs_ldtk::synth::SynthesisError;
use bevy_ecs_ldtk::synth::TextureLookup;
use bevy_ecs_ldtk::tracker::ProjectEvent;

fn entity(name: &str, x: i64) -> LdtkEntity {
    LdtkEntity {
        grid: Point { x: x / 16, y: 0 },
        identifier: name.to_string(),
        pivot: Pivot { x: 0, y: 1000 },
        tile: None,
        def_uid: 50,
        field_instances: vec![],
        height: 16,
        px: Point { x, y: 16 },
        width: 16,
    }
}

fn layer(name: &str, data: LayerData) -> LayerInstance {
    LayerInstance { identifier: name.to_string(), c_wid: 4, c_hei: 4, grid_size: 16, data }
}

/// A level with a tile layer, a grid with one cell, and three entities:
/// a player and two chests.
fn good_level(uid: i64, world_x: i64) -> Level {
    Level {
        uid,
        identifier: format!("Level_{}", uid),
        world_x,
        world_y: 0,
        px_wid: 64,
        px_hei: 64,
        layers: vec![
            layer(
                "Things",
                LayerData::Entities {
                    entities: vec![entity("Chest", 0), entity("Player", 16), entity("Chest", 32)],
                },
            ),
            layer(
                "Walls",
                LayerData::IntGrid {
                    cells: vec![IntGridCell { grid: GridCoords { x: 1, y: 1 }, value: 1 }],
                },
            ),
            layer("Ground", LayerData::Tiles { tileset_uid: 1, tiles: vec![] }),
        ],
    }
}

fn bad_level(uid: i64, world_x: i64) -> Level {
    Level {
        layers: vec![layer("Ground", LayerData::Tiles { tileset_uid: 404, tiles: vec![] })],
        ..good_level(uid, world_x)
    }
}

fn project(levels: Vec<Level>) -> Project {
    Project {
        tilesets: vec![TilesetDefinition {
            uid: 1,
            identifier: "tiles".to_string(),
            px_wid: 64,
            px_hei: 64,
            tile_grid_size: 16,
            spacing: 0,
            padding: 0,
        }],
        entity_defs: vec![EntityDefinition { uid: 50, identifier: "Thing".to_string() }],
        enum_defs: vec![],
        levels,
    }
}

fn textures() -> TextureLookup {
    TextureLookup { entries: vec![] }
}

fn plain() -> Registries {
    Registries { entities: vec![], int_cells: vec![] }
}

/// Players outlive their level.
fn lasting_players() -> Registries {
    Registries {
        entities: vec![EntityRegistration {
            identifier: "Player".to_string(),
            strategy: EntityStrategy { kind: 1, worldly: true },
        }],
        int_cells: vec![],
    }
}

fn entities_of(world: &World, uid: i64) -> Vec<EntityNode> {
    let level = world.levels.iter().find(|l| l.uid == uid).unwrap();
    let mut found = vec![];
    for layer in &level.layers {
        if let LayerContent::Entities(nodes) = &layer.content {
            found.extend(nodes.iter().cloned());
        }
    }
    found
}

fn key(level_uid: i64, index: usize) -> EntityKey {
    EntityKey { level_uid, layer: 0, index }
}

const ORIGIN: LayoutMode = LayoutMode::OriginAnchored;

#[test]
fn new_world_is_empty() {
    let world = World::new();
    assert!(world.levels.is_empty());
    assert!(world.worldly.is_empty());
    assert_eq!(world.spawned_uids(), Vec::<i64>::new());
    assert_eq!(world.level_state(1), LevelState::Unspawned);
    assert_eq!(world.find_level(1), None);
}

#[test]
fn spawn_puts_the_synthesized_node_into_the_world() {
    let p = project(vec![good_level(1, 300)]);
    let mut world = World::new();
    let events = world
        .spawn_level(&p.levels[0], &p, &textures(), &plain(), LayoutMode::WorldTranslation)
        .unwrap();
    assert_eq!(
        events,
        vec![
            LevelEvent::Spawned { uid: 1 },
            LevelEvent::Transformed { uid: 1, translation: Translation { x: 300_000, y: -64_000 } },
        ]
    );
    let node =
        synthesize(&p.levels[0], &p, &textures(), &plain(), LayoutMode::WorldTranslation).unwrap();
    assert_eq!(world.levels, vec![node]);
    assert!(world.worldly.is_empty());
    assert_eq!(world.level_state(1), LevelState::Spawned);
    assert_eq!(world.level_state(2), LevelState::Unspawned);
    assert_eq!(world.find_level(1), Some(0));
    assert_eq!(world.spawned_uids(), vec![1]);
}

#[test]
fn spawning_a_present_level_changes_nothing() {
    let p = project(vec![good_level(1, 0)]);
    let mut world = World::new();
    world.spawn_level(&p.levels[0], &p, &textures(), &plain(), ORIGIN).unwrap();
    let before = world.clone();
    let events = world.spawn_level(&p.levels[0], &p, &textures(), &plain(), ORIGIN).unwrap();
    assert_eq!(events, vec![]);
    assert_eq!(world, before);
    let broken = project(vec![bad_level(1, 0)]);
    let events = world.spawn_level(&broken.levels[0], &broken, &textures(), &plain(), ORIGIN);
    assert_eq!(events, Ok(vec![]));
    assert_eq!(world, before);
}

#[test]
fn failed_spawn_leaves_the_world_as_it_was() {
    let p = project(vec![good_level(1, 0), bad_level(2, 64)]);
    let mut world = World::new();
    world.spawn_level(&p.levels[0], &p, &textures(), &lasting_players(), ORIGIN).unwrap();
    let before = world.clone();
    let result = world.spawn_level(&p.levels[1], &p, &textures(), &lasting_players(), ORIGIN);
    assert_eq!(result, Err(SynthesisError::InvalidReference));
    assert_eq!(world, before);
    assert_eq!(world.level_state(2), LevelState::Unspawned);
}

#[test]
fn despawn_takes_the_level_out() {
    let p = project(vec![good_level(1, 0), good_level(2, 64)]);
    let mut world = World::new();
    world.spawn_level(&p.levels[0], &p, &textures(), &plain(), ORIGIN).unwrap();
    world.spawn_level(&p.levels[1], &p, &textures(), &plain(), ORIGIN).unwrap();
    assert_eq!(world.spawned_uids(), vec![1, 2]);
    assert_eq!(world.despawn_level(1), vec![LevelEvent::Despawned { uid: 1 }]);
    assert_eq!(world.spawned_uids(), vec![2]);
    assert_eq!(world.level_state(1), LevelState::Unspawned);
    assert!(world.worldly.is_empty());
    assert_eq!(world.despawn_level(1), vec![]);
    assert_eq!(world.spawned_uids(), vec![2]);
}

#[test]
fn worldly_entities_go_to_the_world_root_when_spawned() {
    let p = project(vec![good_level(1, 0)]);
    let mut world = World::new();
    world.spawn_level(&p.levels[0], &p, &textures(), &lasting_players(), ORIGIN).unwrap();
    assert_eq!(world.worldly.len(), 1);
    assert_eq!(world.worldly[0].key, key(1, 1));
    assert!(world.worldly[0].worldly);
    assert_eq!(world.worldly[0].instance, entity("Player", 16));
    assert_eq!(world.worldly[0].translation, Translation { x: 16_000, y: 48_000 });
    assert_eq!(world.worldly[0].z_index, 2);
    let kept: Vec<EntityKey> = entities_of(&world, 1).iter().map(|n| n.key).collect();
    assert_eq!(kept, vec![key(1, 0), key(1, 2)]);
    assert!(holds_key(&world.worldly, key(1, 1)));
    assert!(!holds_key(&world.worldly, key(1, 0)));
}

#[test]
fn worldly_entity_survives_cycles_and_is_never_made_twice() {
    let p = project(vec![good_level(1, 0), good_level(2, 64)]);
    let mut world = World::new();
    world.spawn_level(&p.levels[0], &p, &textures(), &lasting_players(), ORIGIN).unwrap();
    let player = world.worldly.clone();
    assert_eq!(player.len(), 1);
    for _ in 0..3 {
        world.despawn_level(1);
        assert_eq!(world.worldly, player);
        world.spawn_level(&p.levels[0], &p, &textures(), &lasting_players(), ORIGIN).unwrap();
        assert_eq!(world.worldly, player);
        let report = world.respawn_level(&p.levels[0], &p, &textures(), &lasting_players(), ORIGIN);
        assert_eq!(report.error, None);
        assert_eq!(world.worldly, player);
        assert_eq!(entities_of(&world, 1).len(), 2);
    }
    world.spawn_level(&p.levels[1], &p, &textures(), &lasting_players(), ORIGIN).unwrap();
    assert_eq!(world.worldly.len(), 2);
    assert_eq!(world.worldly[0], player[0]);
    assert_eq!(world.worldly[1].key, key(2, 1));
}

#[test]
fn marked_entity_leaves_with_its_position_when_its_level_goes() {
    let p = project(vec![good_level(1, 500)]);
    let mut world = World::new();
    world
        .spawn_level(&p.levels[0], &p, &textures(), &plain(), LayoutMode::WorldTranslation)
        .unwrap();
    assert!(world.mark_worldly(key(1, 2)));
    assert!(!world.mark_worldly(key(1, 7)));
    assert!(!world.mark_worldly(key(2, 2)));
    assert!(world.worldly.is_empty());
    let marked = entities_of(&world, 1)[2].clone();
    assert!(marked.worldly);
    assert_eq!(marked.translation, Translation { x: 532_000, y: -16_000 });
    assert!(!entities_of(&world, 1)[0].worldly);

    world.despawn_level(1);
    assert_eq!(world.worldly, vec![marked.clone()]);
    assert!(world.levels.is_empty());

    world
        .spawn_level(&p.levels[0], &p, &textures(), &plain(), LayoutMode::WorldTranslation)
        .unwrap();
    assert_eq!(world.worldly, vec![marked]);
    let kept: Vec<EntityKey> = entities_of(&world, 1).iter().map(|n| n.key).collect();
    assert_eq!(kept, vec![key(1, 0), key(1, 1)]);
}

#[test]
fn respawning_twice_is_respawning_once() {
    let p = project(vec![good_level(1, 0), good_level(2, 64)]);
    let mut world = World::new();
    world.spawn_level(&p.levels[0], &p, &textures(), &lasting_players(), ORIGIN).unwrap();
    world.spawn_level(&p.levels[1], &p, &textures(), &lasting_players(), ORIGIN).unwrap();
    world.mark_worldly(key(1, 0));

    let mut once = world.clone();
    let first = once.respawn_level(&p.levels[0], &p, &textures(), &lasting_players(), ORIGIN);
    assert_eq!(
        first.events,
        vec![
            LevelEvent::Despawned { uid: 1 },
            LevelEvent::Spawned { uid: 1 },
            LevelEvent::Transformed { uid: 1, translation: Translation { x: 0, y: 0 } },
        ]
    );
    assert_eq!(first.error, None);
    assert_eq!(once.spawned_uids(), vec![2, 1]);
    let keys: Vec<EntityKey> = once.worldly.iter().map(|n| n.key).collect();
    assert_eq!(keys, vec![key(1, 1), key(2, 1), key(1, 0)]);
    assert_eq!(entities_of(&once, 1).len(), 1);

    let mut twice = once.clone();
    let second = twice.respawn_level(&p.levels[0], &p, &textures(), &lasting_players(), ORIGIN);
    assert_eq!(second.events, first.events);
    assert_eq!(twice, once);
}

#[test]
fn respawning_an_absent_level_does_nothing() {
    let p = project(vec![good_level(1, 0), good_level(2, 64)]);
    let mut world = World::new();
    world.spawn_level(&p.levels[0], &p, &textures(), &plain(), ORIGIN).unwrap();
    let before = world.clone();
    let report = world.respawn_level(&p.levels[1], &p, &textures(), &plain(), ORIGIN);
    assert_eq!(report.events, vec![]);
    assert_eq!(report.error, None);
    assert_eq!(world, before);
}

#[test]
fn respawn_that_cannot_synthesize_leaves_the_level_out() {
    let p = project(vec![good_level(1, 0)]);
    let mut world = World::new();
    world.spawn_level(&p.levels[0], &p, &textures(), &lasting_players(), ORIGIN).unwrap();
    let player = world.worldly.clone();
    let broken = project(vec![bad_level(1, 0)]);
    let report =
        world.respawn_level(&broken.levels[0], &broken, &textures(), &lasting_players(), ORIGIN);
    assert_eq!(report.events, vec![LevelEvent::Despawned { uid: 1 }]);
    assert_eq!(report.error, Some(SynthesisError::InvalidReference));
    assert_eq!(world.level_state(1), LevelState::Unspawned);
    assert_eq!(world.worldly, player);
}

#[test]
fn level_that_cannot_be_synthesized_does_not_hold_up_the_others() {
    let p = project(vec![bad_level(1, 0), good_level(2, 64)]);
    let policy = SelectionPolicy::BySet { levels: vec![1, 2], include_neighbors: false };
    let mut world = World::new();
    let report = world.apply_selection(&p, &policy, &textures(), &plain(), ORIGIN);
    assert_eq!(report.selection.to_spawn, vec![0, 1]);
    assert_eq!(report.failed, vec![1]);
    assert_eq!(
        report.events,
        vec![
            LevelEvent::Spawned { uid: 2 },
            LevelEvent::Transformed { uid: 2, translation: Translation { x: 0, y: 0 } },
        ]
    );
    assert_eq!(world.level_state(1), LevelState::Unspawned);
    assert_eq!(world.level_state(2), LevelState::Spawned);
    let alone = synthesize(&p.levels[1], &p, &textures(), &plain(), ORIGIN).unwrap();
    assert_eq!(world.levels, vec![alone]);
}

#[test]
fn selection_despawns_before_it_spawns() {
    let p = project(vec![good_level(1, 0), good_level(2, 64), good_level(3, 128)]);
    let mut world = World::new();
    let first = SelectionPolicy::BySet { levels: vec![1, 2], include_neighbors: false };
    world.apply_selection(&p, &first, &textures(), &lasting_players(), ORIGIN);
    assert_eq!(world.spawned_uids(), vec![1, 2]);
    let second = SelectionPolicy::BySet { levels: vec![2, 3], include_neighbors: false };
    let report = world.apply_selection(&p, &second, &textures(), &lasting_players(), ORIGIN);
    assert_eq!(report.selection.to_despawn, vec![1]);
    assert_eq!(report.selection.to_spawn, vec![2]);
    assert_eq!(report.failed, Vec::<i64>::new());
    assert_eq!(
        report.events,
        vec![
            LevelEvent::Despawned { uid: 1 },
            LevelEvent::Spawned { uid: 3 },
            LevelEvent::Transformed { uid: 3, translation: Translation { x: 0, y: 0 } },
        ]
    );
    assert_eq!(world.spawned_uids(), vec![2, 3]);
    let keys: Vec<EntityKey> = world.worldly.iter().map(|n| n.key).collect();
    assert_eq!(keys, vec![key(1, 1), key(2, 1), key(3, 1)]);
}

#[test]
fn selecting_again_changes_nothing() {
    let p = project(vec![good_level(1, 0), good_level(2, 64)]);
    let policy = SelectionPolicy::ByIdentifier("Level_2".to_string());
    let mut world = World::new();
    world.apply_selection(&p, &policy, &textures(), &lasting_players(), ORIGIN);
    let before = world.clone();
    let report = world.apply_selection(&p, &policy, &textures(), &lasting_players(), ORIGIN);
    assert_eq!(report.selection.to_spawn, Vec::<usize>::new());
    assert_eq!(report.selection.to_despawn, Vec::<i64>::new());
    assert_eq!(report.events, vec![]);
    assert_eq!(world, before);
}

#[test]
fn selecting_nothing_despawns_everything() {
    let p = project(vec![good_level(1, 0), good_level(2, 64)]);
    let mut world = World::new();
    let all = SelectionPolicy::BySet { levels: vec![1, 2], include_neighbors: false };
    world.apply_selection(&p, &all, &textures(), &plain(), ORIGIN);
    let report = world.apply_selection(&p, &SelectionPolicy::ByIndex(9), &textures(), &plain(), ORIGIN);
    assert_eq!(report.events.len(), 2);
    assert!(report.events.contains(&LevelEvent::Despawned { uid: 1 }));
    assert!(report.events.contains(&LevelEvent::Despawned { uid: 2 }));
    assert!(world.levels.is_empty());
}

fn entry(handle: u64, policy: SelectionPolicy, changed: bool) -> WorldEntry {
    WorldEntry { project: handle, policy, policy_changed: changed, world: World::new() }
}

#[test]
fn cycle_processes_the_worlds_that_are_due() {
    let store = vec![
        LoadedProject { handle: 1, project: project(vec![good_level(1, 0)]) },
        LoadedProject { handle: 2, project: project(vec![good_level(5, 0)]) },
    ];
    let mut worlds = vec![
        entry(1, SelectionPolicy::ByIndex(0), false),
        entry(2, SelectionPolicy::ByIndex(0), false),
        entry(2, SelectionPolicy::ByUid(5), true),
        entry(3, SelectionPolicy::ByIndex(0), true),
        entry(4, SelectionPolicy::ByIndex(0), false),
    ];
    let events = vec![
        ProjectEvent::Created { handle: 1 },
        ProjectEvent::Modified { handle: 2 },
        ProjectEvent::Removed { handle: 2 },
    ];
    let reports =
        process_loaded_ldtk(&events, &vec![4], &store, &mut worlds, &textures(), &plain(), ORIGIN);
    assert_eq!(reports.len(), 5);
    assert_eq!(reports[0].as_ref().unwrap().selection.to_spawn, vec![0]);
    assert_eq!(reports[1], None);
    assert_eq!(reports[2].as_ref().unwrap().events[0], LevelEvent::Spawned { uid: 5 });
    assert_eq!(reports[3], None);
    assert_eq!(reports[4], None);
    assert_eq!(worlds[0].world.spawned_uids(), vec![1]);
    assert!(worlds[1].world.levels.is_empty());
    assert_eq!(worlds[2].world.spawned_uids(), vec![5]);
    assert!(!worlds[2].policy_changed);
    assert!(worlds[3].policy_changed);
    assert!(worlds[3].world.levels.is_empty());
    assert_eq!(worlds[2].policy, SelectionPolicy::ByUid(5));
    assert_eq!(worlds[4].project, 4);
}

#[test]
fn cycle_takes_the_last_stored_project_for_a_handle() {
    let store = vec![
        LoadedProject { handle: 1, project: project(vec![good_level(1, 0)]) },
        LoadedProject { handle: 1, project: project(vec![good_level(2, 0)]) },
    ];
    assert_eq!(find_project(&store, 1), Some(1));
    assert_eq!(find_project(&store, 2), None);
    let mut worlds = vec![entry(1, SelectionPolicy::ByIndex(0), false)];
    process_loaded_ldtk(&vec![], &vec![1], &store, &mut worlds, &textures(), &plain(), ORIGIN);
    assert_eq!(worlds[0].world.spawned_uids(), vec![2]);
}

#[test]
fn cycle_without_news_does_nothing() {
    let store = vec![LoadedProject { handle: 1, project: project(vec![good_level(1, 0)]) }];
    let mut worlds = vec![entry(1, SelectionPolicy::ByIndex(0), false)];
    let reports =
        process_loaded_ldtk(&vec![], &vec![], &store, &mut worlds, &textures(), &plain(), ORIGIN);
    assert_eq!(reports, vec![None]);
    assert!(worlds[0].world.levels.is_empty());
}
