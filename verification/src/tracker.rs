//! The change tracker: which projects must be processed again this cycle.

use vstd::prelude::*;
use crate::seqs::lemma_filter_members;
use crate::seqs::lemma_filter_no_duplicates;
use crate::seqs::lemma_filter_push;
use crate::seqs::lemma_push_members;

verus! {

/// A notification about the stored project that `handle` names.
#[derive(Clone, Copy, Debug, PartialEq, Eq, Structural, Hash)]
pub enum ProjectEvent {
    Created { handle: u64 },
    Modified { handle: u64 },
    Removed { handle: u64 },
}

impl ProjectEvent {
    /// The project that the notification is about.
    pub open spec fn spec_handle(&self) -> u64 {
        match *self {
            ProjectEvent::Created { handle } => handle,
            ProjectEvent::Modified { handle } => handle,
            ProjectEvent::Removed { handle } => handle,
        }
    }

    /// Whether the notification says that the project is gone.
    pub open spec fn spec_is_removal(&self) -> bool {
        self is Removed
    }

    /// The project that the notification is about.
    #[verifier::when_used_as_spec(spec_handle)]
    pub fn handle(&self) -> (handle: u64)
        ensures
            handle == self.spec_handle(),
    {
        match self {
            ProjectEvent::Created { handle } => *handle,
            ProjectEvent::Modified { handle } => *handle,
            ProjectEvent::Removed { handle } => *handle,
        }
    }

    /// Whether the notification says that the project is gone.
    #[verifier::when_used_as_spec(spec_is_removal)]
    pub fn is_removal(&self) -> (removal: bool)
        ensures
            removal == self.spec_is_removal(),
    {
        match self {
            ProjectEvent::Removed { .. } => true,
            _ => false,
        }
    }
}

/// Whether a change of `handle` in the batch `events` is still standing at
/// the end of the batch: the project was created or modified at some point,
/// and not removed after that point.
pub open spec fn change_stands(events: Seq<ProjectEvent>, handle: u64) -> bool {
    exists|i: int|
        0 <= i < events.len() && !(#[trigger] events[i]).is_removal() && events[i].handle() == handle
            && forall|j: int|
            i < j < events.len() ==> !((#[trigger] events[j]).is_removal() && events[j].handle()
                == handle)
}

/// Whether `handle` must be processed again after the batch `events`, given
/// the handles in `attached` that were seen for the first time this cycle.
pub open spec fn is_tracked(events: Seq<ProjectEvent>, attached: Seq<u64>, handle: u64) -> bool {
    change_stands(events, handle) || attached.contains(handle)
}

/// How one more event changes which changes stand.
pub proof fn lemma_change_stands_push(events: Seq<ProjectEvent>, event: ProjectEvent, handle: u64)
    ensures
        change_stands(events.push(event), handle) <==> if event.handle() == handle {
            !event.is_removal()
        } else {
            change_stands(events, handle)
        },
{
    let longer = events.push(event);
    let last = events.len() as int;
    assert(longer[last] == event);
    if event.handle() == handle {
        if !event.is_removal() {
            assert(!longer[last].is_removal() && longer[last].handle() == handle);
        } else {
            if change_stands(longer, handle) {
                let i = choose|i: int|
                    0 <= i < longer.len() && !(#[trigger] longer[i]).is_removal() && longer[i].handle()
                        == handle && forall|j: int|
                        i < j < longer.len() ==> !((#[trigger] longer[j]).is_removal()
                            && longer[j].handle() == handle);
                assert(i < last);
                assert(longer[last].is_removal() && longer[last].handle() == handle);
            }
        }
    } else {
        if change_stands(events, handle) {
            let i = choose|i: int|
                0 <= i < events.len() && !(#[trigger] events[i]).is_removal() && events[i].handle()
                    == handle && forall|j: int|
                    i < j < events.len() ==> !((#[trigger] events[j]).is_removal()
                        && events[j].handle() == handle);
            assert(longer[i] == events[i]);
            assert forall|j: int| i < j < longer.len() implies !((#[trigger] longer[j]).is_removal()
                && longer[j].handle() == handle) by {
                if j < last {
                    assert(longer[j] == events[j]);
                }
            }
        }
        if change_stands(longer, handle) {
            let i = choose|i: int|
                0 <= i < longer.len() && !(#[trigger] longer[i]).is_removal() && longer[i].handle()
                    == handle && forall|j: int|
                    i < j < longer.len() ==> !((#[trigger] longer[j]).is_removal()
                        && longer[j].handle() == handle);
            assert(i < last);
            assert(events[i] == longer[i]);
            assert forall|j: int| i < j < events.len() implies !((#[trigger] events[j]).is_removal()
                && events[j].handle() == handle) by {
                assert(longer[j] == events[j]);
            }
        }
    }
}

/// Whether `handle` occurs in `handles`.
pub fn holds_handle(handles: &Vec<u64>, handle: u64) -> (found: bool)
    ensures
        found == handles@.contains(handle),
{
    let mut i: usize = 0;
    while i < handles.len()
        invariant
            i <= handles.len(),
            forall|k: int| 0 <= k < i ==> handles@[k] != handle,
        decreases handles.len() - i,
    {
        if handles[i] == handle {
            return true;
        }
        i += 1;
    }
    false
}

/// Whether a handle is another one than `handle`.
pub open spec fn is_other(handle: u64) -> spec_fn(u64) -> bool {
    |other: u64| other != handle
}

/// The handles whose changes stand after the batch `events`, each once, in
/// the order in which those changes came to stand: a handle that is
/// created or modified goes to the end unless it is there already, and a
/// handle that is removed leaves.
pub open spec fn standing(events: Seq<ProjectEvent>) -> Seq<u64>
    decreases events.len(),
{
    if events.len() == 0 {
        Seq::empty()
    } else {
        let earlier = standing(events.drop_last());
        let last = events.last();
        if last.is_removal() {
            earlier.filter(is_other(last.handle()))
        } else if earlier.contains(last.handle()) {
            earlier
        } else {
            earlier.push(last.handle())
        }
    }
}

/// The handles of `standing` and, behind them, the handles of `attached`
/// that are not among them, each once and in their order.
pub open spec fn with_attached(standing: Seq<u64>, attached: Seq<u64>) -> Seq<u64>
    decreases attached.len(),
{
    if attached.len() == 0 {
        standing
    } else {
        let earlier = with_attached(standing, attached.drop_last());
        if earlier.contains(attached.last()) {
            earlier
        } else {
            earlier.push(attached.last())
        }
    }
}

/// The handles of `handles` other than `handle`, in their order.
pub fn drop_handle(handles: &Vec<u64>, handle: u64) -> (rest: Vec<u64>)
    ensures
        rest@ == handles@.filter(is_other(handle)),
{
    let mut rest: Vec<u64> = Vec::new();
    let mut i: usize = 0;
    proof {
        reveal_with_fuel(Seq::filter, 1);
        assert(rest@ =~= handles@.take(0).filter(is_other(handle)));
    }
    while i < handles.len()
        invariant
            i <= handles.len(),
            rest@ == handles@.take(i as int).filter(is_other(handle)),
        decreases handles.len() - i,
    {
        proof {
            assert(handles@.take(i + 1) =~= handles@.take(i as int).push(handles@[i as int]));
            lemma_filter_push(handles@.take(i as int), handles@[i as int], is_other(handle));
        }
        if handles[i] != handle {
            rest.push(handles[i]);
        }
        i += 1;
    }
    proof {
        assert(handles@.take(handles@.len() as int) =~= handles@);
    }
    rest
}

/// The projects to process again after one batch of notifications.
///
/// A created or modified project is tracked. A removal takes back the
/// changes of the same project that came before it in the batch, and none
/// that come after it. Every handle of `attached` is tracked whatever the
/// batch says. No handle is returned twice. The handles come in the order
/// in which their changes came to stand, those that are only attached
/// last.
pub fn track(events: &Vec<ProjectEvent>, attached: &Vec<u64>) -> (dirty: Vec<u64>)
    ensures
        dirty@.no_duplicates(),
        forall|h: u64| dirty@.contains(h) <==> is_tracked(events@, attached@, h),
        dirty@ == with_attached(standing(events@), attached@),
{
    let mut dirty: Vec<u64> = Vec::new();
    let mut i: usize = 0;
    while i < events.len()
        invariant
            i <= events.len(),
            dirty@.no_duplicates(),
            forall|h: u64| #[trigger] dirty@.contains(h) <==> change_stands(events@.take(i as int), h),
            dirty@ == standing(events@.take(i as int)),
        decreases events.len() - i,
    {
        let event = events[i];
        let handle = event.handle();
        let ghost seen = events@.take(i as int);
        let ghost next = events@.take(i + 1);
        let ghost before = dirty@;
        proof {
            assert(next =~= seen.push(event));
            assert(next.drop_last() =~= seen);
        }
        if event.is_removal() {
            dirty = drop_handle(&dirty, handle);
            proof {
                lemma_filter_no_duplicates(before, is_other(handle));
            }
        } else if !holds_handle(&dirty, handle) {
            dirty.push(handle);
        }
        proof {
            assert forall|h: u64| #[trigger] dirty@.contains(h) <==> change_stands(next, h) by {
                lemma_change_stands_push(seen, event, h);
                lemma_push_members(before, handle, h);
                lemma_filter_members(before, is_other(handle), h);
                assert(before.contains(h) <==> change_stands(seen, h));
            }
        }
        i += 1;
    }
    proof {
        assert(events@.take(events@.len() as int) =~= events@);
    }
    let mut k: usize = 0;
    while k < attached.len()
        invariant
            k <= attached.len(),
            dirty@.no_duplicates(),
            forall|h: u64| #[trigger]
                dirty@.contains(h) <==> (change_stands(events@, h) || attached@.take(k as int).contains(
                    h,
                )),
            dirty@ == with_attached(standing(events@), attached@.take(k as int)),
        decreases attached.len() - k,
    {
        let handle = attached[k];
        let ghost seen = attached@.take(k as int);
        let ghost next = attached@.take(k + 1);
        let ghost before = dirty@;
        proof {
            assert(next =~= seen.push(handle));
            assert(next.drop_last() =~= seen);
        }
        if !holds_handle(&dirty, handle) {
            dirty.push(handle);
        }
        proof {
            assert forall|h: u64| #[trigger]
                dirty@.contains(h) <==> (change_stands(events@, h) || next.contains(h)) by {
                lemma_push_members(seen, handle, h);
                lemma_push_members(before, handle, h);
                assert(before.contains(h) <==> (change_stands(events@, h) || seen.contains(h)));
            }
        }
        k += 1;
    }
    proof {
        assert(attached@.take(attached@.len() as int) =~= attached@);
    }
    dirty
}

} // verus!
