//! Fragment identity and the per-fragment state that events update.

pub mod event;
pub mod evaluation;
pub mod leaf;

use vstd::prelude::*;

use crate::fragment::event::{
    law_insert_then_remove, without_event, ActiveEvents, BeginStage, EndStage, EventId, StageEvent,
};

verus! {

/// The entity type of `bevy_ecs`; fragments are entities, and this library
/// only carries entity handles through without looking inside them.
#[verifier::external_type_specification]
#[verifier::external_body]
pub struct ExEntity(bevy_ecs::entity::Entity);

/// Identifies a fragment: the entity that holds it.
#[derive(Debug, Clone, Copy, PartialEq, Eq, Hash)]
pub struct FragmentId(bevy_ecs::entity::Entity);

impl FragmentId {
    pub closed spec fn new_spec(entity: bevy_ecs::entity::Entity) -> FragmentId {
        FragmentId(entity)
    }

    #[verifier::when_used_as_spec(new_spec)]
    pub fn new(entity: bevy_ecs::entity::Entity) -> (id: FragmentId)
        ensures
            id == FragmentId::new_spec(entity),
            id.entity_spec() == entity,
    {
        FragmentId(entity)
    }

    pub closed spec fn entity_spec(&self) -> bevy_ecs::entity::Entity {
        self.0
    }

    /// The entity that holds this fragment.
    #[verifier::when_used_as_spec(entity_spec)]
    pub fn entity(&self) -> (e: bevy_ecs::entity::Entity)
        ensures
            e == self.entity_spec(),
    {
        self.0
    }

    /// The entity a fragment identifier is made from is the one it gives
    /// back.
    pub proof fn law_entity_of_new(entity: bevy_ecs::entity::Entity)
        ensures
            FragmentId::new_spec(entity).entity_spec() == entity,
    {
    }
}

/// The bookkeeping of one fragment: how often it was started and completed,
/// whether it is running, and the events it currently takes part in.
#[derive(Debug)]
pub struct FragmentState {
    pub triggered: u32,
    pub completed: u32,
    pub active: bool,
    pub active_events: ActiveEvents,
}

/// A fragment's state as a mathematical value.
pub struct FragmentStateView {
    pub triggered: u32,
    pub completed: u32,
    pub active: bool,
    pub active_events: Seq<EventId>,
}

impl View for FragmentState {
    type V = FragmentStateView;

    open spec fn view(&self) -> FragmentStateView {
        FragmentStateView {
            triggered: self.triggered,
            completed: self.completed,
            active: self.active,
            active_events: self.active_events@,
        }
    }
}

/// The state of a fragment that has never run.
pub open spec fn initial_state() -> FragmentStateView {
    FragmentStateView {
        triggered: 0,
        completed: 0,
        active: false,
        active_events: Seq::empty(),
    }
}

/// The state after a beginning at `stage` with identifier `id` reached the
/// fragment: a `Start` counts one more trigger and marks the fragment
/// active; every stage adds the identifier to the active events.
pub open spec fn begun(s: FragmentStateView, stage: BeginStage, id: EventId) -> FragmentStateView {
    FragmentStateView {
        triggered: if stage == BeginStage::Start { (s.triggered + 1) as u32 } else { s.triggered },
        active: if stage == BeginStage::Start { true } else { s.active },
        active_events: s.active_events.push(id),
        ..s
    }
}

/// The state after the event `id` is taken out of the fragment's active
/// events, as an ending does before anything else.
pub open spec fn released(s: FragmentStateView, id: EventId) -> FragmentStateView {
    FragmentStateView { active_events: without_event(s.active_events, id), ..s }
}

/// The state after an ending at `stage` was handled: an `End` counts one
/// more completion and marks the fragment inactive; other stages change
/// nothing here.
pub open spec fn ended(s: FragmentStateView, stage: EndStage) -> FragmentStateView {
    if stage == EndStage::End {
        FragmentStateView { completed: (s.completed + 1) as u32, active: false, ..s }
    } else {
        s
    }
}

impl FragmentState {
    /// Records that a beginning reached this fragment.
    pub fn begin(&mut self, event: &StageEvent<BeginStage>)
        requires
            event.stage == BeginStage::Start ==> old(self).triggered < u32::MAX,
        ensures
            final(self)@ == begun(old(self)@, event.stage, event.id.event),
            final(self).completed == old(self).completed,
            final(self).active_events@ == old(self).active_events@.push(event.id.event),
            event.stage == BeginStage::Start ==> final(self).active && final(self).triggered
                == old(self).triggered + 1,
            event.stage != BeginStage::Start ==> final(self).active == old(self).active
                && final(self).triggered == old(self).triggered,
    {
        if event.stage == BeginStage::Start {
            self.triggered = self.triggered + 1;
            self.active = true;
        }
        self.active_events.insert(event.id.event);
    }

    /// Takes the event `id` out of the active events. An ending goes on at
    /// this fragment, and past it, only where this returns true.
    pub fn release(&mut self, id: EventId) -> (took_part: bool)
        ensures
            took_part == old(self)@.active_events.contains(id),
            final(self)@ == released(old(self)@, id),
    {
        self.active_events.remove(id)
    }

    /// Records that an ending at `stage` was handled at this fragment, and
    /// tells whether the fragment's interruption hooks are to run: only for
    /// an `Interrupt`.
    pub fn end(&mut self, stage: EndStage) -> (interrupted: bool)
        requires
            stage == EndStage::End ==> old(self).completed < u32::MAX,
        ensures
            final(self)@ == ended(old(self)@, stage),
            interrupted == (stage == EndStage::Interrupt),
            stage != EndStage::End ==> final(self)@ == old(self)@,
            stage == EndStage::End ==> !final(self).active && final(self).completed
                == old(self).completed + 1 && final(self).triggered == old(self).triggered
                && final(self).active_events@ == old(self).active_events@,
    {
        match stage {
            EndStage::End => {
                self.completed = self.completed + 1;
                self.active = false;
                false
            },
            EndStage::Interrupt => true,
            EndStage::Visit => false,
        }
    }
}

/// A fragment that is started with an event and then sees that event end
/// has been triggered and completed once more, is no longer active, and
/// takes part in the same events as before (counted with multiplicity).
pub proof fn law_start_then_end(s: FragmentStateView, id: EventId)
    requires
        s.triggered < u32::MAX,
        s.completed < u32::MAX,
    ensures
        begun(s, BeginStage::Start, id).active_events.contains(id),
        ({
            let after = ended(released(begun(s, BeginStage::Start, id), id), EndStage::End);
            &&& after.triggered == s.triggered + 1
            &&& after.completed == s.completed + 1
            &&& !after.active
            &&& after.active_events.to_multiset() == s.active_events.to_multiset()
        }),
{
    law_insert_then_remove(s.active_events, id);
}

/// The states along a path of fragments, from the one where an event
/// starts up to its root, after the start reached each of them.
pub open spec fn begun_along(path: Seq<FragmentStateView>, id: EventId) -> Seq<FragmentStateView> {
    Seq::new(path.len(), |i: int| begun(path[i], BeginStage::Start, id))
}

/// The states along a path after the ending of event `id` reached each of
/// them: the event released, then the ending recorded.
pub open spec fn ended_along(path: Seq<FragmentStateView>, id: EventId) -> Seq<FragmentStateView> {
    Seq::new(path.len(), |i: int| ended(released(path[i], id), EndStage::End))
}

/// A start that travels up a path of fragments (each step chosen by
/// `next_hop`), followed by the ending of the same event along the same
/// path: every fragment on the path takes part in the event after the
/// start, so the ending travels the whole path; afterwards each has been
/// triggered and completed once more, is no longer active, and takes part
/// in the same events as before (counted with multiplicity).
pub proof fn law_path_start_then_end(path: Seq<FragmentStateView>, id: EventId)
    requires
        forall|i: int|
            #![trigger path[i]]
            0 <= i < path.len() ==> path[i].triggered < u32::MAX && path[i].completed < u32::MAX,
    ensures
        forall|i: int| 0 <= i < path.len() ==> #[trigger] begun_along(path, id)[i].active_events.contains(id),
        forall|i: int|
            0 <= i < path.len() ==> {
                let after = #[trigger] ended_along(begun_along(path, id), id)[i];
                &&& after.triggered == path[i].triggered + 1
                &&& after.completed == path[i].completed + 1
                &&& !after.active
                &&& after.active_events.to_multiset() == path[i].active_events.to_multiset()
            },
{
    assert forall|i: int| 0 <= i < path.len() implies #[trigger] begun_along(path, id)[i].active_events.contains(id)
        && {
        let after = ended_along(begun_along(path, id), id)[i];
        &&& after.triggered == path[i].triggered + 1
        &&& after.completed == path[i].completed + 1
        &&& !after.active
        &&& after.active_events.to_multiset() == path[i].active_events.to_multiset()
    } by {
        assert(path[i].triggered < u32::MAX && path[i].completed < u32::MAX);
        law_start_then_end(path[i], id);
    }
}

/// A beginning only ever records its event; a `Visit` does nothing else,
/// so a fragment already running stays running and keeps its counts, while
/// a `Start` counts one more trigger and marks the fragment running.
pub proof fn law_begin_stages(s: FragmentStateView, id: EventId)
    ensures
        begun(s, BeginStage::Visit, id).active == s.active,
        begun(s, BeginStage::Visit, id).triggered == s.triggered,
        begun(s, BeginStage::Visit, id).completed == s.completed,
        begun(s, BeginStage::Visit, id).active_events == s.active_events.push(id),
        begun(s, BeginStage::Start, id).active,
        s.triggered < u32::MAX ==> begun(s, BeginStage::Start, id).triggered == s.triggered + 1,
        begun(s, BeginStage::Start, id).completed == s.completed,
        begun(s, BeginStage::Start, id).active_events == s.active_events.push(id),
{
}

/// Only an `End` changes a fragment when an ending is handled there: it
/// counts one more completion and marks the fragment no longer running. A
/// `Visit` or an `Interrupt` leaves counts, running flag and events as
/// they were.
pub proof fn law_only_end_changes_state(s: FragmentStateView, stage: EndStage)
    ensures
        stage != EndStage::End ==> ended(s, stage) == s,
        ended(s, EndStage::Visit).active == s.active,
        ended(s, EndStage::Interrupt).active == s.active,
        !ended(s, EndStage::End).active,
        s.completed < u32::MAX ==> ended(s, EndStage::End).completed == s.completed + 1,
        ended(s, EndStage::End).triggered == s.triggered,
        ended(s, EndStage::End).active_events == s.active_events,
{
}

/// An ending whose event the fragment does not take part in leaves the
/// fragment as it was, and travels no further.
pub proof fn law_end_of_unknown_event(s: FragmentStateView, id: EventId)
    requires
        !s.active_events.contains(id),
    ensures
        released(s, id) == s,
{
}

impl Clone for FragmentState {
    fn clone(&self) -> (r: FragmentState)
        ensures
            r@ == self@,
    {
        FragmentState {
            triggered: self.triggered,
            completed: self.completed,
            active: self.active,
            active_events: self.active_events.clone(),
        }
    }
}

impl Default for FragmentState {
    fn default() -> (r: FragmentState)
        ensures
            r@ == initial_state(),
    {
        FragmentState {
            triggered: 0,
            completed: 0,
            active: false,
            active_events: ActiveEvents::default(),
        }
    }
}

} // verus!
