//! What follows for an entity from the regions over which it is active:
//! which of them it shares with an entity of the kind that is looked for.

use crate::region::Reference;
use crate::schema::{unjoined, EntityId, FileId};
use core::ops::Range;
use vstd::prelude::*;

verus! {

/// What is told of an entity and of its regions.
#[derive(Debug, PartialEq, Eq)]
pub enum Event {
    /// Over `bytes` of `file` the entity is active together with `references`.
    RegionSuccess { file: FileId, bytes: Range<u32>, entity: EntityId, references: Vec<EntityId> },
    /// Over `bytes` of `file` the entity is active with none that is looked for.
    RegionFailure { file: FileId, bytes: Range<u32>, entity: EntityId },
    /// The entity has regions, and shares each with one that is looked for.
    EntitySuccess(EntityId),
    /// The entity has no region, or one that it shares with none that is
    /// looked for.
    EntityFailure(EntityId),
}

/// `e` is one of the entities listed.
pub open spec fn listed(targets: Seq<EntityId>, e: u32) -> bool {
    exists|i: int| 0 <= i < targets.len() && targets[i].0 == e
}

/// Those of `entities` that are not the subject and are among the targets,
/// in their order.
pub open spec fn found(entities: Seq<u32>, subject: EntityId, targets: Seq<EntityId>) -> Seq<u32>
    decreases entities.len(),
{
    if entities.len() == 0 {
        Seq::empty()
    } else if entities.last() != subject.0 && listed(targets, entities.last()) {
        found(entities.drop_last(), subject, targets).push(entities.last())
    } else {
        found(entities.drop_last(), subject, targets)
    }
}

/// The numbers of a list of entities.
pub open spec fn numbers(ids: Seq<EntityId>) -> Seq<u32> {
    Seq::new(ids.len(), |i: int| ids[i].0)
}

/// The event tells of the region `reference` of the subject what the targets
/// make of it.
pub open spec fn tells(
    event: Event,
    subject: EntityId,
    reference: Reference,
    targets: Seq<EntityId>,
) -> bool {
    let shared = found(unjoined(reference.entities@), subject, targets);
    if shared.len() == 0 {
        event matches Event::RegionFailure { file, bytes, entity } && file == reference.file
            && bytes.start == reference.start && bytes.end == reference.end && entity == subject
    } else {
        event matches Event::RegionSuccess { file, bytes, entity, references } && file
            == reference.file && bytes.start == reference.start && bytes.end == reference.end
            && entity == subject && numbers(references@) == shared
    }
}

/// Whether `e` is among the targets.
fn is_target(targets: &[EntityId], e: u32) -> (b: bool)
    ensures
        b == listed(targets@, e),
{
    let mut i: usize = 0;
    while i < targets.len()
        invariant
            i <= targets@.len(),
            forall|j: int| 0 <= j < i ==> targets@[j].0 != e,
        decreases targets@.len() - i,
    {
        if targets[i].0 == e {
            return true;
        }
        i += 1;
    }
    false
}

/// What is to be told of the entity `subject` whose regions are
/// `references`, where `targets` are the entities of the kind that is looked
/// for: for each region, in order, whether the subject shares it with
/// targets, and with which; and at the end whether the subject has regions
/// and shares each of them.
pub fn notify(subject: EntityId, references: &Vec<Reference>, targets: &[EntityId]) -> (events: Vec<
    Event,
>)
    requires
        forall|i: int| 0 <= i < references@.len() ==> references@[i].entities@.len() % 4 == 0,
    ensures
        events@.len() == references@.len() + 1,
        forall|i: int|
            0 <= i < references@.len() ==> tells(
                #[trigger] events@[i],
                subject,
                references@[i],
                targets@,
            ),
        events@.last() == if references@.len() > 0 && forall|i: int|
            0 <= i < references@.len() ==> found(
                unjoined((#[trigger] references@[i]).entities@),
                subject,
                targets@,
            ).len() > 0 {
            Event::EntitySuccess(subject)
        } else {
            Event::EntityFailure(subject)
        },
{
    let mut events: Vec<Event> = Vec::new();
    let mut all_ok = true;
    let mut found_any = false;
    let mut i: usize = 0;
    while i < references.len()
        invariant
            i <= references@.len(),
            events@.len() == i,
            forall|j: int| 0 <= j < references@.len() ==> references@[j].entities@.len() % 4 == 0,
            forall|j: int|
                0 <= j < i ==> tells(#[trigger] events@[j], subject, references@[j], targets@),
            all_ok == forall|j: int|
                0 <= j < i ==> found(
                    unjoined((#[trigger] references@[j]).entities@),
                    subject,
                    targets@,
                ).len() > 0,
            found_any == exists|j: int|
                0 <= j < i && found(
                    unjoined((#[trigger] references@[j]).entities@),
                    subject,
                    targets@,
                ).len() > 0,
        decreases references@.len() - i,
    {
        let reference = &references[i];
        let entities = reference.entities();
        let ghost raw = unjoined(reference.entities@);
        let mut shared: Vec<EntityId> = Vec::new();
        let mut k: usize = 0;
        proof {
            assert(raw.take(0) =~= Seq::<u32>::empty());
            assert(numbers(shared@) =~= found(raw.take(0), subject, targets@));
        }
        while k < entities.len()
            invariant
                k <= entities@.len(),
                entities@.len() == raw.len(),
                forall|j: int| 0 <= j < entities@.len() ==> (#[trigger] entities@[j]).0 == raw[j],
                numbers(shared@) == found(raw.take(k as int), subject, targets@),
            decreases entities@.len() - k,
        {
            let potential_target = entities[k];
            proof {
                assert(raw.take(k + 1).drop_last() =~= raw.take(k as int));
                assert(raw.take(k + 1).last() == potential_target.0);
            }
            if potential_target.0 != subject.0 && is_target(targets, potential_target.0) {
                proof {
                    assert(numbers(shared@.push(potential_target)) =~= numbers(shared@).push(
                        potential_target.0,
                    ));
                }
                shared.push(potential_target);
            }
            k += 1;
        }
        proof {
            assert(raw.take(k as int) =~= raw);
        }
        let bytes = reference.range();
        let ghost before = events@;
        if shared.len() == 0 {
            all_ok = false;
            events.push(Event::RegionFailure { file: reference.file, bytes, entity: subject });
        } else {
            found_any = true;
            events.push(
                Event::RegionSuccess {
                    file: reference.file,
                    bytes,
                    entity: subject,
                    references: shared,
                },
            );
        }
        proof {
            assert forall|j: int| 0 <= j < i + 1 implies tells(
                #[trigger] events@[j],
                subject,
                references@[j],
                targets@,
            ) by {
                if j < i {
                    assert(events@[j] == before[j]);
                }
            }
        }
        i += 1;
    }
    proof {
        if references@.len() > 0 && all_ok {
            assert(found(unjoined(references@[0].entities@), subject, targets@).len() > 0);
        }
    }
    if all_ok && found_any {
        events.push(Event::EntitySuccess(subject));
    } else {
        events.push(Event::EntityFailure(subject));
    }
    events
}

} // verus!
