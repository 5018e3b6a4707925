use bevy_ecs_ldtk::model::Level;
use bevy_ecs_ldtk::model::Project;
use bevy_ecs_ldtk::selector::holds_uid;
use bevy_ecs_ldtk::selector::levels_share_edge;
use bevy_ecs_ldtk::selector::resolve;
use bevy_ecs_ldtk::selector::select;
use bevy_ecs_ldtk::selector::LayoutMode;
use bevy_ecs_ldtk::selector::Selection;
use bevy_ecs_ldtk::selector::SelectionPolicy;

fn level(uid: i64, name: &str, x: i64, y: i64, w: u32, h: u32) -> Level {
    Level {
        uid,
        identifier: name.to_string(),
        world_x: x,
        world_y: y,
        px_wid: w,
        px_hei: h,
        layers: vec![],
    }
}

fn project(levels: Vec<Level>) -> Project {
    Project { tilesets: vec![], entity_defs: vec![], enum_defs: vec![], levels }
}

/// Three levels in a row: A touches B, B touches C, A does not touch C.
fn row() -> Project {
    project(vec![
        level(10, "A", 0, 0, 100, 100),
        level(20, "B", 100, 0, 100, 100),
        level(30, "C", 200, 0, 100, 100),
    ])
}

fn sorted(mut uids: Vec<i64>) -> Vec<i64> {
    uids.sort();
    uids
}

#[test]
fn neighbors_of_a_are_a_and_b() {
    let policy = SelectionPolicy::BySet { levels: vec![10], include_neighbors: true };
    let selection = select(&row(), &policy, LayoutMode::WorldTranslation, &vec![]);
    assert_eq!(selection.to_spawn, vec![0, 1]);
    assert_eq!(selection.to_despawn, Vec::<i64>::new());
}

#[test]
fn neighbors_of_b_are_all_three() {
    let policy = SelectionPolicy::BySet { levels: vec![20], include_neighbors: true };
    assert_eq!(
        resolve(&row(), &policy, LayoutMode::WorldTranslation),
        vec![true, true, true]
    );
}

#[test]
fn neighbors_need_world_translation() {
    let policy = SelectionPolicy::BySet { levels: vec![10], include_neighbors: true };
    let selection = select(&row(), &policy, LayoutMode::OriginAnchored, &vec![]);
    assert_eq!(selection.to_spawn, vec![0]);
}

#[test]
fn neighbors_are_left_out_unless_asked_for() {
    let policy = SelectionPolicy::BySet { levels: vec![10], include_neighbors: false };
    let selection = select(&row(), &policy, LayoutMode::WorldTranslation, &vec![]);
    assert_eq!(selection.to_spawn, vec![0]);
}

#[test]
fn set_resolves_to_the_union_in_project_order() {
    let policy = SelectionPolicy::BySet { levels: vec![30, 10, 99], include_neighbors: false };
    let selection = select(&row(), &policy, LayoutMode::OriginAnchored, &vec![]);
    assert_eq!(selection.to_spawn, vec![0, 2]);
}

#[test]
fn by_index_selects_that_level() {
    let selection = select(&row(), &SelectionPolicy::ByIndex(1), LayoutMode::OriginAnchored, &vec![]);
    assert_eq!(selection, Selection { to_spawn: vec![1], to_despawn: vec![] });
}

#[test]
fn by_index_out_of_range_selects_nothing() {
    let selection =
        select(&row(), &SelectionPolicy::ByIndex(3), LayoutMode::OriginAnchored, &vec![20]);
    assert_eq!(selection, Selection { to_spawn: vec![], to_despawn: vec![20] });
}

#[test]
fn by_identifier_selects_that_level() {
    let policy = SelectionPolicy::ByIdentifier("C".to_string());
    let selection = select(&row(), &policy, LayoutMode::OriginAnchored, &vec![]);
    assert_eq!(selection.to_spawn, vec![2]);
}

#[test]
fn by_identifier_unknown_selects_nothing() {
    let policy = SelectionPolicy::ByIdentifier("Z".to_string());
    let selection = select(&row(), &policy, LayoutMode::OriginAnchored, &vec![]);
    assert_eq!(selection, Selection { to_spawn: vec![], to_despawn: vec![] });
}

#[test]
fn by_uid_selects_that_level() {
    let selection = select(&row(), &SelectionPolicy::ByUid(20), LayoutMode::OriginAnchored, &vec![]);
    assert_eq!(selection.to_spawn, vec![1]);
}

#[test]
fn by_uid_takes_the_first_of_two() {
    let twice = project(vec![level(5, "A", 0, 0, 1, 1), level(5, "B", 0, 0, 1, 1)]);
    let selection = select(&twice, &SelectionPolicy::ByUid(5), LayoutMode::OriginAnchored, &vec![]);
    assert_eq!(selection.to_spawn, vec![0]);
}

#[test]
fn empty_project_selects_nothing() {
    let selection = select(
        &project(vec![]),
        &SelectionPolicy::ByIndex(0),
        LayoutMode::OriginAnchored,
        &vec![],
    );
    assert_eq!(selection, Selection { to_spawn: vec![], to_despawn: vec![] });
}

#[test]
fn selection_is_the_difference_to_what_is_spawned() {
    let policy = SelectionPolicy::BySet { levels: vec![10, 20], include_neighbors: false };
    let selection = select(&row(), &policy, LayoutMode::OriginAnchored, &vec![20, 30, 40]);
    assert_eq!(selection.to_spawn, vec![0]);
    assert_eq!(sorted(selection.to_despawn), vec![30, 40]);
}

#[test]
fn despawn_lists_each_uid_once() {
    let selection =
        select(&row(), &SelectionPolicy::ByUid(10), LayoutMode::OriginAnchored, &vec![30, 30]);
    assert_eq!(selection.to_despawn, vec![30]);
}

#[test]
fn selecting_what_is_spawned_asks_for_nothing() {
    let policies = vec![
        (SelectionPolicy::ByIndex(2), vec![30]),
        (SelectionPolicy::ByIdentifier("A".to_string()), vec![10]),
        (SelectionPolicy::ByUid(20), vec![20]),
        (SelectionPolicy::ByUid(77), vec![]),
        (SelectionPolicy::BySet { levels: vec![10], include_neighbors: true }, vec![10, 20]),
    ];
    for (policy, spawned) in policies {
        let selection = select(&row(), &policy, LayoutMode::WorldTranslation, &spawned);
        assert_eq!(selection, Selection { to_spawn: vec![], to_despawn: vec![] });
    }
}

#[test]
fn levels_that_meet_in_a_corner_share_no_edge() {
    let a = level(1, "A", 0, 0, 10, 10);
    let corner = level(2, "B", 10, 10, 10, 10);
    assert!(!levels_share_edge(&a, &corner));
}

#[test]
fn levels_that_overlap_share_no_edge() {
    let a = level(1, "A", 0, 0, 10, 10);
    let over = level(2, "B", 5, 0, 10, 10);
    assert!(!levels_share_edge(&a, &over));
    assert!(!levels_share_edge(&a, &a));
}

#[test]
fn levels_share_vertical_and_horizontal_edges() {
    let a = level(1, "A", 0, 0, 10, 10);
    let right = level(2, "B", 10, 5, 10, 10);
    let below = level(3, "C", -5, 10, 10, 10);
    let above = level(4, "D", 0, -20, 10, 20);
    let apart = level(5, "E", 10, 10, 10, 10);
    assert!(levels_share_edge(&a, &right));
    assert!(levels_share_edge(&right, &a));
    assert!(levels_share_edge(&a, &below));
    assert!(levels_share_edge(&a, &above));
    assert!(!levels_share_edge(&a, &apart));
}

#[test]
fn levels_at_the_ends_of_the_plane_do_not_overflow() {
    let far = level(1, "A", i64::MAX, i64::MAX, u32::MAX, u32::MAX);
    let near = level(2, "B", i64::MIN, i64::MIN, u32::MAX, u32::MAX);
    assert!(!levels_share_edge(&far, &near));
}

#[test]
fn default_layout_is_origin_anchored() {
    assert_eq!(LayoutMode::default(), LayoutMode::OriginAnchored);
}

#[test]
fn despawns_come_in_the_order_of_what_is_spawned() {
    let selection =
        select(&row(), &SelectionPolicy::ByUid(20), LayoutMode::OriginAnchored, &vec![30, 20, 10, 5]);
    assert_eq!(selection.to_despawn, vec![30, 10, 5]);
    assert_eq!(selection.to_spawn, Vec::<usize>::new());
}

#[test]
fn holds_uid_finds_what_is_there() {
    assert!(holds_uid(&vec![-1, 2], -1));
    assert!(!holds_uid(&vec![-1, 2], 1));
}
