//! Deciding, for what the notification layer delivers, which watched files
//! are to be synchronized and in which order, or that the process is to end.

use crate::text::bytes_of;
use crate::watch::{lemma_resolved, resolved, WatchRegistry};
use vstd::prelude::*;

verus! {

/// What a modification changed, as far as the notification layer tells.
#[derive(Clone, Copy, Debug, PartialEq, Eq, Structural)]
pub enum Modification {
    /// Something was modified, and no more is known.
    Unspecified,
    /// The content of the file.
    Content,
    /// The metadata of the file alone: its times, its permissions.
    Metadata,
    /// The name of the file.
    Name,
    /// Something that fits none of the above.
    Other,
}

/// What a notification reports, as the notification layer tells it.
#[derive(Clone, Copy, Debug, PartialEq, Eq, Structural)]
pub enum RawKind {
    /// Something happened, and no more is known.
    Unspecified,
    /// A file was opened, read, closed or run.
    Access,
    /// A file was created.
    Create,
    /// A file was modified.
    Modify(Modification),
    /// A file was removed.
    Remove,
    /// Something that fits none of the above.
    Other,
}

/// One notification as it arrives: what happened, and to which paths.
pub struct RawEvent {
    pub kind: RawKind,
    pub paths: Vec<String>,
}

/// What a notification means to the synchronizer.
#[derive(Clone, Copy, Debug, PartialEq, Eq, Structural)]
pub enum ChangeKind {
    /// The content of the file was modified, or may have been.
    Modified,
    /// Anything else: the file was read, created, removed or renamed, or
    /// only its metadata changed.
    Other,
}

/// One notification about one path.
pub struct ChangeEvent {
    pub path: String,
    pub kind: ChangeKind,
}

/// What a raw kind means to the synchronizer. A modification counts unless
/// it is known to have left the content alone.
pub open spec fn classified(kind: RawKind) -> ChangeKind {
    match kind {
        RawKind::Modify(Modification::Metadata) => ChangeKind::Other,
        RawKind::Modify(Modification::Name) => ChangeKind::Other,
        RawKind::Modify(_) => ChangeKind::Modified,
        _ => ChangeKind::Other,
    }
}

/// The change events that a raw event stands for: one for each of its
/// paths, in their order, all of its kind.
pub open spec fn changes_of(raw: RawEvent) -> Seq<ChangeEvent> {
    Seq::new(
        raw.paths@.len(),
        |i: int| ChangeEvent { path: raw.paths@[i], kind: classified(raw.kind) },
    )
}

/// The watched file that `event` asks to synchronize: the one whose path
/// is exactly the path of the event, if the event reports a modification.
/// Other kinds of events and paths that are not watched ask for nothing.
pub open spec fn affected(watched: Seq<Seq<u8>>, event: ChangeEvent) -> Option<int> {
    if event.kind == ChangeKind::Modified {
        resolved(watched, bytes_of(event.path@))
    } else {
        None
    }
}

/// The watched files to synchronize for a batch of events that arrived
/// together: each affected file once, in the order in which the first event
/// for it arrived.
pub open spec fn planned(watched: Seq<Seq<u8>>, batch: Seq<ChangeEvent>) -> Seq<int>
    decreases batch.len(),
{
    if batch.len() == 0 {
        Seq::empty()
    } else {
        let before = planned(watched, batch.drop_last());
        match affected(watched, batch.last()) {
            Some(index) => if before.contains(index) {
                before
            } else {
                before.push(index)
            },
            None => before,
        }
    }
}

/// A plan names a watched file exactly when some event of the batch affects
/// it, names no file twice, and names only files of the watch set.
pub proof fn law_plan_names_affected_files_once(watched: Seq<Seq<u8>>, batch: Seq<ChangeEvent>)
    ensures
        planned(watched, batch).no_duplicates(),
        forall|index: int|
            planned(watched, batch).contains(index) <==> exists|j: int|
                0 <= j < batch.len() && affected(watched, #[trigger] batch[j]) == Some(index),
        forall|k: int|
            0 <= k < planned(watched, batch).len() ==> 0 <= #[trigger] planned(watched, batch)[k]
                < watched.len(),
    decreases batch.len(),
{
    let plan = planned(watched, batch);
    if batch.len() > 0 {
        let earlier = batch.drop_last();
        let before = planned(watched, earlier);
        law_plan_names_affected_files_once(watched, earlier);
        lemma_resolved(watched, bytes_of(batch.last().path@));
        assert forall|index: int| plan.contains(index) implies exists|j: int|
            0 <= j < batch.len() && affected(watched, #[trigger] batch[j]) == Some(index) by {
            if before.contains(index) {
                let j = choose|j: int|
                    0 <= j < earlier.len() && affected(watched, #[trigger] earlier[j]) == Some(
                        index,
                    );
                assert(batch[j] == earlier[j]);
            } else {
                let k = choose|k: int| 0 <= k < plan.len() && plan[k] == index;
                assert(k == before.len());
                assert(affected(watched, batch[batch.len() - 1]) == Some(index));
            }
        }
        assert forall|index: int|
            (exists|j: int|
                0 <= j < batch.len() && affected(watched, #[trigger] batch[j]) == Some(
                    index,
                )) implies plan.contains(index) by {
            let j = choose|j: int|
                0 <= j < batch.len() && affected(watched, #[trigger] batch[j]) == Some(index);
            if j < earlier.len() {
                assert(earlier[j] == batch[j]);
                assert(before.contains(index));
                let k = choose|k: int| 0 <= k < before.len() && before[k] == index;
                assert(plan[k] == index);
            } else {
                if before.contains(index) {
                } else {
                    assert(plan[before.len() as int] == index);
                }
            }
        }
    }
}

/// Files join the plan in the order of delivery: the plan for the first
/// events of a batch is the beginning of the plan for the whole batch.
pub proof fn law_plan_follows_delivery_order(
    watched: Seq<Seq<u8>>,
    batch: Seq<ChangeEvent>,
    count: int,
)
    requires
        0 <= count <= batch.len(),
    ensures
        planned(watched, batch.take(count)).is_prefix_of(planned(watched, batch)),
    decreases batch.len() - count,
{
    if count == batch.len() {
        assert(batch.take(count) =~= batch);
    } else {
        law_plan_follows_delivery_order(watched, batch, count + 1);
        assert(batch.take(count + 1).drop_last() =~= batch.take(count));
    }
}

/// What the notification layer hands over when the dispatcher asks for the
/// next thing to do.
pub enum Delivery {
    /// A notification.
    Notification(RawEvent),
    /// A failure that the notification layer reports in place of an event.
    Fault,
    /// The process was asked to end.
    Shutdown,
    /// The notification channel is closed: nothing will ever arrive again.
    Closed,
}

/// What the dispatcher does about a delivery.
#[derive(Debug, PartialEq, Eq)]
pub enum Reaction {
    /// Synchronize the watched files with these indices, one after the
    /// other, then ask for the next delivery.
    Synchronize(Vec<usize>),
    /// Leave the loop and end the process with this status.
    Exit(i32),
}

/// The exit status of a process that was asked to end.
pub const EXIT_GRACEFUL: i32 = 0;

/// The exit status of a process that could not set up its watch set or
/// lost its notification channel.
pub const EXIT_FAILURE: i32 = 1;

/// Tells what a raw kind means to the synchronizer.
pub fn classify(kind: RawKind) -> (change: ChangeKind)
    ensures
        change == classified(kind),
{
    match kind {
        RawKind::Modify(Modification::Metadata) => ChangeKind::Other,
        RawKind::Modify(Modification::Name) => ChangeKind::Other,
        RawKind::Modify(_) => ChangeKind::Modified,
        _ => ChangeKind::Other,
    }
}

/// Takes a raw event apart into one change event for each of its paths.
pub fn change_events(raw: &RawEvent) -> (events: Vec<ChangeEvent>)
    ensures
        events@ == changes_of(*raw),
{
    let kind = classify(raw.kind);
    let mut events: Vec<ChangeEvent> = Vec::new();
    let mut next: usize = 0;
    while next < raw.paths.len()
        invariant
            next <= raw.paths.len(),
            kind == classified(raw.kind),
            events@.len() == next,
            forall|i: int| 0 <= i < next ==> events@[i] == changes_of(*raw)[i],
        decreases raw.paths.len() - next,
    {
        events.push(ChangeEvent { path: raw.paths[next].clone(), kind });
        next += 1;
    }
    events
}

/// The plan for a batch: see `planned`.
pub fn plan(registry: &WatchRegistry, batch: &Vec<ChangeEvent>) -> (plan: Vec<usize>)
    ensures
        plan@.map_values(|index: usize| index as int) == planned(registry@, batch@),
        forall|k: int| 0 <= k < plan.len() ==> #[trigger] plan[k] < registry@.len(),
{
    let mut plan: Vec<usize> = Vec::new();
    let mut next: usize = 0;
    while next < batch.len()
        invariant
            next <= batch.len(),
            plan@.map_values(|index: usize| index as int) == planned(
                registry@,
                batch@.take(next as int),
            ),
            forall|k: int| 0 <= k < plan.len() ==> #[trigger] plan[k] < registry@.len(),
        decreases batch.len() - next,
    {
        proof {
            assert(batch@.take(next + 1).drop_last() =~= batch@.take(next as int));
        }
        let event = &batch[next];
        if event.kind == ChangeKind::Modified {
            match registry.resolve(event.path.as_str()) {
                Some(index) => {
                    proof {
                        lemma_resolved(registry@, bytes_of(event.path@));
                    }
                    if !holds(&plan, index) {
                        plan.push(index);
                    }
                },
                None => {},
            }
        }
        next += 1;
    }
    assert(batch@.take(next as int) =~= batch@);
    plan
}

/// Tells whether `index` is one of `plan`.
fn holds(plan: &Vec<usize>, index: usize) -> (found: bool)
    ensures
        found == plan@.map_values(|index: usize| index as int).contains(index as int),
{
    let ghost mapped = plan@.map_values(|index: usize| index as int);
    let mut k: usize = 0;
    while k < plan.len()
        invariant
            k <= plan.len(),
            mapped == plan@.map_values(|index: usize| index as int),
            forall|j: int| 0 <= j < k ==> mapped[j] != index as int,
        decreases plan.len() - k,
    {
        if plan[k] == index {
            assert(mapped[k as int] == index as int);
            return true;
        }
        k += 1;
    }
    false
}

/// Decides what to do about a delivery.
///
/// A notification is answered by the plan for its change events, which may
/// be empty. A fault is survived: there is nothing to synchronize. A request
/// to end the process is answered by a graceful exit. A closed channel
/// cannot be recovered from: the process ends with a failure status.
pub fn react(registry: &WatchRegistry, delivery: &Delivery) -> (reaction: Reaction)
    ensures
        match delivery {
            Delivery::Notification(raw) => {
                &&& reaction matches Reaction::Synchronize(plan)
                &&& plan@.map_values(|index: usize| index as int) == planned(
                    registry@,
                    changes_of(*raw),
                )
                &&& forall|k: int| 0 <= k < plan.len() ==> #[trigger] plan[k] < registry@.len()
            },
            Delivery::Fault => reaction matches Reaction::Synchronize(plan) && plan@.len() == 0,
            Delivery::Shutdown => reaction == Reaction::Exit(EXIT_GRACEFUL),
            Delivery::Closed => reaction == Reaction::Exit(EXIT_FAILURE),
        },
{
    match delivery {
        Delivery::Notification(raw) => {
            let batch = change_events(raw);
            Reaction::Synchronize(plan(registry, &batch))
        },
        Delivery::Fault => Reaction::Synchronize(Vec::new()),
        Delivery::Shutdown => Reaction::Exit(EXIT_GRACEFUL),
        Delivery::Closed => Reaction::Exit(EXIT_FAILURE),
    }
}

} // verus!
