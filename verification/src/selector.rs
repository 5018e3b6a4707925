//! The level selector: which levels should be present, and what that asks of
//! the levels that are present now.

use vstd::prelude::*;
use crate::seqs::lemma_filter_push;
use crate::seqs::lemma_push_members;
use crate::model::Level;
use crate::model::Project;

verus! {

/// Where a level's node is put in the world.
#[derive(Clone, Copy, Debug, PartialEq, Eq, Structural, Hash)]
pub enum LayoutMode {
    /// The bottom-left corner of every level sits at the world's origin.
    OriginAnchored,
    /// Every level sits where the document places it in the world.
    WorldTranslation,
}

impl Default for LayoutMode {
    fn default() -> (mode: Self)
        ensures
            mode == LayoutMode::OriginAnchored,
    {
        LayoutMode::OriginAnchored
    }
}

/// The rule that says which levels should be present.
#[derive(Clone, Debug, PartialEq, Eq, Hash)]
pub enum SelectionPolicy {
    /// The level at this position of the project's level sequence.
    ByIndex(usize),
    /// The level with this identifier.
    ByIdentifier(String),
    /// The level with this uid.
    ByUid(i64),
    /// Every level whose uid is listed and, on request, the levels next to
    /// them in the world.
    BySet { levels: Vec<i64>, include_neighbors: bool },
}

/// What a selection asks for.
#[derive(Clone, Debug, PartialEq, Eq, Hash)]
pub struct Selection {
    /// Positions, in the project's level sequence, of the levels to spawn,
    /// in rising order.
    pub to_spawn: Vec<usize>,
    /// The uids of the levels to despawn, each once.
    pub to_despawn: Vec<i64>,
}

/// Whether the world rectangles of two levels touch along a stretch of
/// positive length of one vertical or one horizontal side. Rectangles that
/// overlap, or that meet in a corner only, do not.
pub open spec fn shares_edge(a: &Level, b: &Level) -> bool {
    let a_left = a.world_x as int;
    let a_right = a.world_x as int + a.px_wid as int;
    let a_top = a.world_y as int;
    let a_bottom = a.world_y as int + a.px_hei as int;
    let b_left = b.world_x as int;
    let b_right = b.world_x as int + b.px_wid as int;
    let b_top = b.world_y as int;
    let b_bottom = b.world_y as int + b.px_hei as int;
    ((a_right == b_left || b_right == a_left) && a_top < b_bottom && b_top < a_bottom) || ((a_bottom
        == b_top || b_bottom == a_top) && a_left < b_right && b_left < a_right)
}

/// Whether the world rectangles of two levels share an edge.
pub fn levels_share_edge(a: &Level, b: &Level) -> (adjacent: bool)
    ensures
        adjacent == shares_edge(a, b),
{
    let a_left: i128 = a.world_x as i128;
    let a_right: i128 = a.world_x as i128 + a.px_wid as i128;
    let a_top: i128 = a.world_y as i128;
    let a_bottom: i128 = a.world_y as i128 + a.px_hei as i128;
    let b_left: i128 = b.world_x as i128;
    let b_right: i128 = b.world_x as i128 + b.px_wid as i128;
    let b_top: i128 = b.world_y as i128;
    let b_bottom: i128 = b.world_y as i128 + b.px_hei as i128;
    ((a_right == b_left || b_right == a_left) && a_top < b_bottom && b_top < a_bottom) || ((a_bottom
        == b_top || b_bottom == a_top) && a_left < b_right && b_left < a_right)
}

/// Whether the level at position `k` is next to a level that `listed` names.
pub open spec fn near_listed(levels: Seq<Level>, listed: Seq<i64>, k: int) -> bool {
    exists|j: int|
        0 <= j < levels.len() && listed.contains((#[trigger] levels[j]).uid) && shares_edge(
            &levels[j],
            &levels[k],
        )
}

/// Whether `policy` resolves to the level at position `k` of `levels`.
///
/// The first three policies resolve to one level at most: the first one
/// that answers. A set resolves to every level that it names; with
/// `include_neighbors`, and where levels sit at their world positions, also
/// to every level that shares an edge with one that it names.
pub open spec fn resolves_to(
    levels: Seq<Level>,
    policy: &SelectionPolicy,
    layout: LayoutMode,
    k: int,
) -> bool {
    0 <= k < levels.len() && match *policy {
        SelectionPolicy::ByIndex(i) => k == i,
        SelectionPolicy::ByIdentifier(name) => levels[k].identifier@ == name@ && forall|j: int|
            0 <= j < k ==> (#[trigger] levels[j]).identifier@ != name@,
        SelectionPolicy::ByUid(uid) => levels[k].uid == uid && forall|j: int|
            0 <= j < k ==> (#[trigger] levels[j]).uid != uid,
        SelectionPolicy::BySet { levels: listed, include_neighbors } => listed@.contains(
            levels[k].uid,
        ) || (include_neighbors && layout == LayoutMode::WorldTranslation && near_listed(
            levels,
            listed@,
            k,
        )),
    }
}

/// Whether `policy` resolves to some level with this uid.
pub open spec fn resolves_to_uid(
    levels: Seq<Level>,
    policy: &SelectionPolicy,
    layout: LayoutMode,
    uid: i64,
) -> bool {
    exists|k: int| #[trigger] resolves_to(levels, policy, layout, k) && levels[k].uid == uid
}

/// Whether `policy` resolves to no level with a given uid.
pub open spec fn is_unselected(
    levels: Seq<Level>,
    policy: &SelectionPolicy,
    layout: LayoutMode,
) -> spec_fn(i64) -> bool {
    |uid: i64| !resolves_to_uid(levels, policy, layout, uid)
}

/// The uids of `spawned` that `policy` resolves to no level for, each once,
/// in the order in which `spawned` lists them first.
pub open spec fn unselected_uids(
    levels: Seq<Level>,
    policy: &SelectionPolicy,
    layout: LayoutMode,
    spawned: Seq<i64>,
) -> Seq<i64>
    decreases spawned.len(),
{
    if spawned.len() == 0 {
        Seq::empty()
    } else {
        let earlier = unselected_uids(levels, policy, layout, spawned.drop_last());
        if resolves_to_uid(levels, policy, layout, spawned.last()) || earlier.contains(spawned.last()) {
            earlier
        } else {
            earlier.push(spawned.last())
        }
    }
}

/// Whether `selection` is what `policy` asks for when the levels with the
/// uids in `spawned` are present: to spawn, the resolved levels whose uid
/// is not in `spawned`, in the project's order; to despawn, the uids in
/// `spawned` that the policy does not resolve to, each once, in the order
/// in which `spawned` lists them first.
pub open spec fn is_selection_of(
    selection: &Selection,
    levels: Seq<Level>,
    policy: &SelectionPolicy,
    layout: LayoutMode,
    spawned: Seq<i64>,
) -> bool {
    &&& forall|a: int, b: int|
        0 <= a < b < selection.to_spawn@.len() ==> selection.to_spawn@[a] < selection.to_spawn@[b]
    &&& forall|k: usize| #[trigger]
        selection.to_spawn@.contains(k) <==> resolves_to(levels, policy, layout, k as int)
            && !spawned.contains(levels[k as int].uid)
    &&& selection.to_despawn@.no_duplicates()
    &&& forall|uid: i64|
        selection.to_despawn@.contains(uid) <==> spawned.contains(uid) && !resolves_to_uid(
            levels,
            policy,
            layout,
            uid,
        )
    &&& selection.to_despawn@ == unselected_uids(levels, policy, layout, spawned)
    &&& spawned.no_duplicates() ==> selection.to_despawn@ == spawned.filter(
        is_unselected(levels, policy, layout),
    )
}

/// Whether `uid` occurs in `uids`.
pub fn holds_uid(uids: &Vec<i64>, uid: i64) -> (found: bool)
    ensures
        found == uids@.contains(uid),
{
    let mut i: usize = 0;
    while i < uids.len()
        invariant
            i <= uids.len(),
            forall|k: int| 0 <= k < i ==> uids@[k] != uid,
        decreases uids.len() - i,
    {
        if uids[i] == uid {
            return true;
        }
        i += 1;
    }
    false
}

/// For each level of the project, whether `policy` resolves to it.
pub fn resolve(project: &Project, policy: &SelectionPolicy, layout: LayoutMode) -> (marks: Vec<bool>)
    ensures
        marks@.len() == project.levels@.len(),
        forall|k: int|
            0 <= k < marks@.len() ==> marks@[k] == resolves_to(project.levels@, policy, layout, k),
{
    let n = project.levels.len();
    let ghost levels = project.levels@;
    let mut marks: Vec<bool> = Vec::new();
    let mut found = false;
    let mut k: usize = 0;
    while k < n
        invariant
            k <= n,
            n == levels.len(),
            levels == project.levels@,
            marks@.len() == k,
            !(policy is BySet) ==> forall|j: int|
                0 <= j < k ==> marks@[j] == resolves_to(levels, policy, layout, j),
            policy matches SelectionPolicy::BySet { levels: listed, .. } ==> forall|j: int|
                0 <= j < k ==> marks@[j] == listed@.contains(levels[j].uid),
            policy matches SelectionPolicy::ByIdentifier(name) ==> (found <==> exists|j: int|
                0 <= j < k && (#[trigger] levels[j]).identifier@ == name@),
            policy matches SelectionPolicy::ByUid(uid) ==> (found <==> exists|j: int|
                0 <= j < k && (#[trigger] levels[j]).uid == uid),
        decreases n - k,
    {
        let level = &project.levels[k];
        let mark = match policy {
            SelectionPolicy::ByIndex(i) => k == *i,
            SelectionPolicy::ByIdentifier(name) => !found && level.identifier == *name,
            SelectionPolicy::ByUid(uid) => !found && level.uid == *uid,
            SelectionPolicy::BySet { levels: listed, .. } => holds_uid(listed, level.uid),
        };
        if mark {
            found = true;
        }
        marks.push(mark);
        k += 1;
    }
    match policy {
        SelectionPolicy::BySet { levels: listed, include_neighbors } => {
            if *include_neighbors && layout == LayoutMode::WorldTranslation {
                let mut out: Vec<bool> = Vec::new();
                let mut a: usize = 0;
                while a < n
                    invariant
                        a <= n,
                        n == levels.len(),
                        levels == project.levels@,
                        marks@.len() == n,
                        out@.len() == a,
                        policy == (SelectionPolicy::BySet {
                            levels: *listed,
                            include_neighbors: *include_neighbors,
                        }),
                        *include_neighbors && layout == LayoutMode::WorldTranslation,
                        forall|j: int| 0 <= j < n ==> marks@[j] == listed@.contains(levels[j].uid),
                        forall|j: int|
                            0 <= j < a ==> out@[j] == resolves_to(levels, policy, layout, j),
                    decreases n - a,
                {
                    let mut near = false;
                    let mut b: usize = 0;
                    while b < n
                        invariant
                            b <= n,
                            a < n,
                            n == levels.len(),
                            levels == project.levels@,
                            marks@.len() == n,
                            forall|j: int|
                                0 <= j < n ==> marks@[j] == listed@.contains(levels[j].uid),
                            near <==> exists|j: int|
                                0 <= j < b && listed@.contains((#[trigger] levels[j]).uid)
                                    && shares_edge(&levels[j], &levels[a as int]),
                        decreases n - b,
                    {
                        if marks[b] && levels_share_edge(&project.levels[b], &project.levels[a]) {
                            near = true;
                        }
                        b += 1;
                    }
                    assert(near == near_listed(levels, listed@, a as int));
                    out.push(marks[a] || near);
                    a += 1;
                }
                out
            } else {
                marks
            }
        },
        _ => marks,
    }
}

/// Computes what `policy` asks for, given the uids of the levels that are
/// present now.
///
/// A policy that resolves to no level is no error: it asks for nothing to
/// be spawned, and for everything present to be despawned.
pub fn select(
    project: &Project,
    policy: &SelectionPolicy,
    layout: LayoutMode,
    previously_spawned: &Vec<i64>,
) -> (selection: Selection)
    ensures
        is_selection_of(&selection, project.levels@, policy, layout, previously_spawned@),
{
    let marks = resolve(project, policy, layout);
    let n = project.levels.len();
    let ghost levels = project.levels@;
    let ghost spawned = previously_spawned@;
    let mut to_spawn: Vec<usize> = Vec::new();
    let mut k: usize = 0;
    while k < n
        invariant
            k <= n,
            n == levels.len(),
            levels == project.levels@,
            spawned == previously_spawned@,
            marks@.len() == n,
            forall|j: int| 0 <= j < n ==> marks@[j] == resolves_to(levels, policy, layout, j),
            forall|a: int| 0 <= a < to_spawn@.len() ==> to_spawn@[a] < k,
            forall|a: int, b: int| 0 <= a < b < to_spawn@.len() ==> to_spawn@[a] < to_spawn@[b],
            forall|j: usize| #[trigger]
                to_spawn@.contains(j) <==> j < k && resolves_to(levels, policy, layout, j as int)
                    && !spawned.contains(levels[j as int].uid),
        decreases n - k,
    {
        let ghost before = to_spawn@;
        let wanted = marks[k] && !holds_uid(previously_spawned, project.levels[k].uid);
        if wanted {
            to_spawn.push(k);
        }
        proof {
            assert forall|j: usize| #[trigger]
                to_spawn@.contains(j) <==> j < k + 1 && resolves_to(levels, policy, layout, j as int)
                    && !spawned.contains(levels[j as int].uid) by {
                if wanted {
                    if before.contains(j) {
                        let a = choose|a: int| 0 <= a < before.len() && before[a] == j;
                        assert(to_spawn@[a] == j);
                    }
                    if j == k {
                        assert(to_spawn@[before.len() as int] == j);
                    }
                    if to_spawn@.contains(j) {
                        let a = choose|a: int| 0 <= a < to_spawn@.len() && to_spawn@[a] == j;
                        if a < before.len() {
                            assert(before[a] == j);
                        }
                    }
                }
                assert(before.contains(j) <==> j < k && resolves_to(levels, policy, layout, j as int)
                    && !spawned.contains(levels[j as int].uid));
            }
        }
        k += 1;
    }
    let mut to_despawn: Vec<i64> = Vec::new();
    let mut s: usize = 0;
    proof {
        reveal_with_fuel(Seq::filter, 1);
        assert(to_despawn@ =~= spawned.take(0).filter(is_unselected(levels, policy, layout)));
    }
    while s < previously_spawned.len()
        invariant
            s <= previously_spawned.len(),
            n == levels.len(),
            levels == project.levels@,
            spawned == previously_spawned@,
            marks@.len() == n,
            forall|j: int| 0 <= j < n ==> marks@[j] == resolves_to(levels, policy, layout, j),
            to_despawn@.no_duplicates(),
            forall|uid: i64| #[trigger]
                to_despawn@.contains(uid) <==> spawned.take(s as int).contains(uid)
                    && !resolves_to_uid(levels, policy, layout, uid),
            to_despawn@ == unselected_uids(levels, policy, layout, spawned.take(s as int)),
            spawned.take(s as int).no_duplicates() ==> to_despawn@ == spawned.take(s as int).filter(
                is_unselected(levels, policy, layout),
            ),
        decreases previously_spawned.len() - s,
    {
        let uid = previously_spawned[s];
        let ghost before = to_despawn@;
        let ghost seen = spawned.take(s as int);
        let ghost next = spawned.take(s + 1);
        proof {
            assert(next =~= seen.push(uid));
            assert(next.drop_last() =~= seen);
            lemma_filter_push(seen, uid, is_unselected(levels, policy, layout));
            if next.no_duplicates() {
                assert forall|a: int, b: int| 0 <= a < seen.len() && 0 <= b < seen.len() && a
                    != b implies seen[a] != seen[b] by {
                    assert(next[a] == seen[a] && next[b] == seen[b]);
                }
                if seen.contains(uid) {
                    let a = choose|a: int| 0 <= a < seen.len() && seen[a] == uid;
                    assert(next[a] == uid && next[s as int] == uid);
                }
            }
        }
        let mut resolved = false;
        let mut j: usize = 0;
        while j < n
            invariant
                j <= n,
                n == levels.len(),
                levels == project.levels@,
                marks@.len() == n,
                forall|j: int| 0 <= j < n ==> marks@[j] == resolves_to(levels, policy, layout, j),
                resolved <==> exists|i: int|
                    0 <= i < j && #[trigger] resolves_to(levels, policy, layout, i) && levels[i].uid
                        == uid,
            decreases n - j,
        {
            if marks[j] && project.levels[j].uid == uid {
                resolved = true;
            }
            j += 1;
        }
        assert(resolved == resolves_to_uid(levels, policy, layout, uid));
        if !resolved && !holds_uid(&to_despawn, uid) {
            to_despawn.push(uid);
        }
        proof {
            assert forall|u: i64| #[trigger]
                to_despawn@.contains(u) <==> next.contains(u) && !resolves_to_uid(
                    levels,
                    policy,
                    layout,
                    u,
                ) by {
                lemma_push_members(seen, uid, u);
                lemma_push_members(before, uid, u);
                assert(before.contains(u) <==> seen.contains(u) && !resolves_to_uid(
                    levels,
                    policy,
                    layout,
                    u,
                ));
            }
        }
        s += 1;
    }
    proof {
        assert(spawned.take(spawned.len() as int) =~= spawned);
    }
    Selection { to_spawn, to_despawn }
}

/// Selecting is a fixed point: where the levels that are present are the
/// levels that the policy resolves to, the selection asks for no level to
/// be spawned and for none to be despawned.
pub proof fn lemma_select_round_trip(
    selection: &Selection,
    levels: Seq<Level>,
    policy: &SelectionPolicy,
    layout: LayoutMode,
    spawned: Seq<i64>,
)
    requires
        is_selection_of(selection, levels, policy, layout, spawned),
        forall|uid: i64| spawned.contains(uid) <==> resolves_to_uid(levels, policy, layout, uid),
    ensures
        selection.to_spawn@.len() == 0,
        selection.to_despawn@.len() == 0,
{
    if selection.to_spawn@.len() > 0 {
        let k = selection.to_spawn@[0];
        assert(selection.to_spawn@.contains(k));
        assert(resolves_to(levels, policy, layout, k as int));
        assert(resolves_to_uid(levels, policy, layout, levels[k as int].uid));
        assert(spawned.contains(levels[k as int].uid));
    }
    if selection.to_despawn@.len() > 0 {
        let uid = selection.to_despawn@[0];
        assert(selection.to_despawn@.contains(uid));
        assert(spawned.contains(uid));
        assert(!resolves_to_uid(levels, policy, layout, uid));
    }
}

} // verus!
