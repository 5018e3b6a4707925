//! One processing cycle: from the notifications about stored projects to
//! the worlds that show them.

use vstd::prelude::*;
use crate::lifecycle::is_cycle_of;
use crate::lifecycle::keeps_order;
use crate::lifecycle::CycleReport;
use crate::lifecycle::World;
use crate::model::Project;
use crate::selector::LayoutMode;
use crate::selector::SelectionPolicy;
use crate::synth::Registries;
use crate::synth::TextureLookup;
use crate::tracker::holds_handle;
use crate::tracker::is_tracked;
use crate::tracker::track;
use crate::tracker::ProjectEvent;

verus! {

/// A project in the store, under its handle.
#[derive(Clone, Debug, PartialEq, Eq, Hash)]
pub struct LoadedProject {
    pub handle: u64,
    pub project: Project,
}

/// A world with the project that it shows and the policy that selects its
/// levels.
#[derive(Clone, Debug, PartialEq, Eq, Hash)]
pub struct WorldEntry {
    /// The handle of the project that the world shows.
    pub project: u64,
    pub policy: SelectionPolicy,
    /// Whether the policy was set since the world was last processed.
    pub policy_changed: bool,
    pub world: World,
}

/// The position in `store` of the project that stands for `handle`: where
/// several entries carry the handle, the last of them.
pub open spec fn stored_at(store: Seq<LoadedProject>, handle: u64) -> Option<int>
    decreases store.len(),
{
    if store.len() == 0 {
        None
    } else if store.last().handle == handle {
        Some(store.len() - 1)
    } else {
        stored_at(store.drop_last(), handle)
    }
}

/// Whether a world is to be processed this cycle: its policy was set, or
/// its project is tracked.
pub open spec fn is_due(entry: &WorldEntry, events: Seq<ProjectEvent>, attached: Seq<u64>) -> bool {
    entry.policy_changed || is_tracked(events, attached, entry.project)
}

/// The position in `store` of the project that stands for `handle`.
pub fn find_project(store: &Vec<LoadedProject>, handle: u64) -> (found: Option<usize>)
    ensures
        match found {
            Some(at) => stored_at(store@, handle) == Some(at as int) && at < store@.len()
                && store@[at as int].handle == handle,
            None => stored_at(store@, handle) is None,
        },
{
    let mut found: Option<usize> = None;
    let mut i: usize = 0;
    while i < store.len()
        invariant
            i <= store.len(),
            match found {
                Some(at) => stored_at(store@.take(i as int), handle) == Some(at as int) && at < i
                    && store@[at as int].handle == handle,
                None => stored_at(store@.take(i as int), handle) is None,
            },
        decreases store.len() - i,
    {
        proof {
            assert(store@.take(i + 1).drop_last() =~= store@.take(i as int));
        }
        if store[i].handle == handle {
            found = Some(i);
        }
        i += 1;
    }
    proof {
        assert(store@.take(store@.len() as int) =~= store@);
    }
    found
}

/// Whether one cycle takes the world entry `before` to `after` and reports
/// `report` for it.
///
/// A world that is due, and whose project is in the store, goes through
/// one cycle with that project and is no longer due by its policy. Any
/// other world stays as it is and has no report: a project that is not
/// loaded yet selects nothing.
pub open spec fn is_entry_outcome(
    before: &WorldEntry,
    after: &WorldEntry,
    report: &Option<CycleReport>,
    events: Seq<ProjectEvent>,
    attached: Seq<u64>,
    store: Seq<LoadedProject>,
    textures: &TextureLookup,
    registries: &Registries,
    layout: LayoutMode,
) -> bool {
    &&& after.project == before.project
    &&& after.policy == before.policy
    &&& keeps_order(before.world@, after.world@)
    &&& if is_due(before, events, attached) && stored_at(store, before.project) is Some {
        &&& !after.policy_changed
        &&& report is Some
        &&& is_cycle_of(
            before.world@,
            after.world@,
            &report->0,
            &store[stored_at(store, before.project)->0].project,
            &before.policy,
            textures,
            registries,
            layout,
        )
    } else {
        &&& after.policy_changed == before.policy_changed
        &&& after.world@ == before.world@
        &&& report is None
    }
}

/// Runs one cycle over all worlds.
///
/// `events` is the batch of notifications about stored projects, and
/// `attached` holds the handles of the projects that a world was given
/// since the last cycle. Every world whose project is tracked after this
/// batch, or whose policy was set, is brought to what its policy asks for;
/// the reports come in the order of the worlds.
pub fn process_loaded_ldtk(
    events: &Vec<ProjectEvent>,
    attached: &Vec<u64>,
    store: &Vec<LoadedProject>,
    worlds: &mut Vec<WorldEntry>,
    textures: &TextureLookup,
    registries: &Registries,
    layout: LayoutMode,
) -> (reports: Vec<Option<CycleReport>>)
    ensures
        final(worlds)@.len() == old(worlds)@.len(),
        reports@.len() == old(worlds)@.len(),
        forall|i: int|
            0 <= i < old(worlds)@.len() ==> is_entry_outcome(
                &old(worlds)@[i],
                #[trigger] &final(worlds)@[i],
                &reports@[i],
                events@,
                attached@,
                store@,
                textures,
                registries,
                layout,
            ),
{
    let dirty = track(events, attached);
    let ghost start = worlds@;
    let mut reports: Vec<Option<CycleReport>> = Vec::new();
    let mut i: usize = 0;
    while i < worlds.len()
        invariant
            i <= worlds.len(),
            worlds@.len() == start.len(),
            reports@.len() == i,
            forall|h: u64| dirty@.contains(h) <==> is_tracked(events@, attached@, h),
            forall|k: int| i <= k < worlds@.len() ==> worlds@[k] == start[k],
            forall|k: int|
                0 <= k < i ==> is_entry_outcome(
                    &start[k],
                    #[trigger] &worlds@[k],
                    &reports@[k],
                    events@,
                    attached@,
                    store@,
                    textures,
                    registries,
                    layout,
                ),
        decreases worlds.len() - i,
    {
        assert(worlds@[i as int].world@.worldly.is_prefix_of(worlds@[i as int].world@.worldly));
        let due = worlds[i].policy_changed || holds_handle(&dirty, worlds[i].project);
        let mut report: Option<CycleReport> = None;
        if due {
            match find_project(store, worlds[i].project) {
                Some(at) => {
                    let entry = &mut worlds[i];
                    let outcome = entry.world.apply_selection(
                        &store[at].project,
                        &entry.policy,
                        textures,
                        registries,
                        layout,
                    );
                    entry.policy_changed = false;
                    report = Some(outcome);
                },
                None => {},
            }
        }
        reports.push(report);
        i += 1;
    }
    reports
}

} // verus!
