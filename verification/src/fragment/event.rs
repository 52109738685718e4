//! Events that run through a fragment tree and the set of events a fragment
//! is currently taking part in.

use vstd::prelude::*;
use rand::Rng;

use crate::fragment::FragmentId;
use std::marker::PhantomData;

verus! {

/// Draws a number from `rand`'s thread-local generator
/// (`rand::rng().random::<u64>()`). Nothing is promised of the value: it
/// comes from chance. The generator seeds and reseeds itself from the
/// operating system's entropy source, and panics if that source fails.
#[verifier::external_body]
fn random_u64() -> u64 {
    rand::rng().random::<u64>()
}

/// A unique ID generated for every emitted event.
#[derive(Debug, Clone, Copy, PartialEq, Eq, Structural, Hash)]
pub struct EventId(u64);

impl EventId {
    /// A fresh identifier drawn at random. Panics if the operating system's
    /// entropy source fails.
    pub fn new() -> (id: EventId) {
        EventId(random_u64())
    }
}

impl Default for EventId {
    fn default() -> (id: EventId) {
        EventId::new()
    }
}

/// The events a fragment currently takes part in, in the order kept by the
/// list; an identifier may occur more than once.
#[derive(Debug)]
pub struct ActiveEvents(Vec<EventId>);

impl View for ActiveEvents {
    type V = Seq<EventId>;

    closed spec fn view(&self) -> Seq<EventId> {
        self.0@
    }
}

/// The list left by taking out the occurrence of `id` at `i`: the last
/// element moves into its place.
pub open spec fn swap_removed(s: Seq<EventId>, i: int) -> Seq<EventId> {
    s.update(i, s.last()).drop_last()
}

/// `i` is the first position at which `id` occurs in `s`.
pub open spec fn is_first_position(s: Seq<EventId>, id: EventId, i: int) -> bool {
    &&& 0 <= i < s.len()
    &&& s[i] == id
    &&& forall|j: int| 0 <= j < i ==> s[j] != id
}

/// What `remove` leaves of `s`: the first occurrence of `id` taken out as
/// `swap_removed` does, or `s` itself where `id` does not occur.
pub open spec fn without_event(s: Seq<EventId>, id: EventId) -> Seq<EventId> {
    if s.contains(id) {
        swap_removed(s, choose|i: int| is_first_position(s, id, i))
    } else {
        s
    }
}

impl ActiveEvents {
    pub fn new(events: Vec<EventId>) -> (r: ActiveEvents)
        ensures
            r@ == events@,
    {
        ActiveEvents(events)
    }

    /// Remove an ID by value.
    ///
    /// If the ID existed in the set and was removed,
    /// this returns true.
    pub fn remove(&mut self, id: EventId) -> (removed: bool)
        ensures
            removed == old(self)@.contains(id),
            final(self)@ == without_event(old(self)@, id),
            final(self)@.len() == (if removed { old(self)@.len() - 1 } else { old(self)@.len() as int }),
            final(self)@.to_multiset() == old(self)@.to_multiset().remove(id),
    {
        proof {
            law_remove_takes_one_occurrence(old(self)@, id);
        }
        let n = self.0.len();
        let mut i: usize = 0;
        while i < n
            invariant
                n == self.0@.len(),
                self.0@ == old(self).0@,
                0 <= i <= n,
                forall|j: int| 0 <= j < i ==> self.0@[j] != id,
            decreases n - i,
        {
            if self.0[i] == id {
                proof {
                    assert(is_first_position(self.0@, id, i as int));
                    lemma_first_position_unique(self.0@, id, i as int);
                    law_remove_takes_one_occurrence(old(self)@, id);
                }
                self.0.swap_remove(i);
                return true;
            }
            i = i + 1;
        }
        proof {
            assert(!self.0@.contains(id));
        }
        false
    }

    pub fn insert(&mut self, id: EventId)
        ensures
            final(self)@ == old(self)@.push(id),
    {
        self.0.push(id);
    }

    /// The identifiers as a slice.
    pub fn as_slice(&self) -> (s: &[EventId])
        ensures
            s@ == self@,
    {
        self.0.as_slice()
    }
}

impl core::ops::Deref for ActiveEvents {
    type Target = [EventId];

    fn deref(&self) -> (s: &[EventId])
        ensures
            s@ == self@,
    {
        self.0.as_slice()
    }
}

impl Clone for ActiveEvents {
    fn clone(&self) -> (r: ActiveEvents)
        ensures
            r@ == self@,
    {
        ActiveEvents(self.0.clone())
    }
}

impl PartialEq for ActiveEvents {
    fn eq(&self, other: &Self) -> (r: bool) {
        let n = self.0.len();
        if n != other.0.len() {
            return false;
        }
        let mut i: usize = 0;
        while i < n
            invariant
                n == self.0@.len(),
                n == other.0@.len(),
                0 <= i <= n,
                forall|j: int| 0 <= j < i ==> self.0@[j] == other.0@[j],
            decreases n - i,
        {
            if self.0[i] != other.0[i] {
                return false;
            }
            i = i + 1;
        }
        proof {
            assert(self.0@ =~= other.0@);
        }
        true
    }
}

impl vstd::std_specs::cmp::PartialEqSpecImpl for ActiveEvents {
    open spec fn obeys_eq_spec() -> bool {
        true
    }

    open spec fn eq_spec(&self, other: &Self) -> bool {
        self@ == other@
    }
}

impl Eq for ActiveEvents {

}

impl Default for ActiveEvents {
    fn default() -> (r: ActiveEvents)
        ensures
            r@ == Seq::<EventId>::empty(),
    {
        ActiveEvents(Vec::new())
    }
}

/// The first position of an identifier is unique, so `without_event`
/// names exactly the position that `remove` finds.
proof fn lemma_first_position_unique(s: Seq<EventId>, id: EventId, i: int)
    requires
        is_first_position(s, id, i),
    ensures
        s.contains(id),
        (choose|k: int| is_first_position(s, id, k)) == i,
{
    let k = choose|k: int| is_first_position(s, id, k);
    assert(is_first_position(s, id, k));
    if k < i {
        assert(s[k] != id);
    } else if i < k {
        assert(s[i] != id);
    }
}


/// Removing an identifier takes exactly one of its occurrences out, and
/// nothing else: counted with multiplicity, the events left are the events
/// before less one `id` (none less where `id` did not occur).
pub proof fn law_remove_takes_one_occurrence(s: Seq<EventId>, id: EventId)
    ensures
        without_event(s, id).to_multiset() == s.to_multiset().remove(id),
{
    broadcast use vstd::seq_lib::group_to_multiset_ensures, vstd::multiset::group_multiset_axioms;

    if s.contains(id) {
        let k = choose|k: int| 0 <= k < s.len() && s[k] == id;
        let f = lemma_some_first_position(s, id, k);
        assert(is_first_position(s, id, f));
        let i = choose|i: int| is_first_position(s, id, i);
        let u = s.update(i, s.last());
        vstd::seq_lib::to_multiset_update(s, i, s.last());
        vstd::seq_lib::to_multiset_remove(u, u.len() - 1);
        assert(u.remove(u.len() - 1) =~= u.drop_last());
        assert(without_event(s, id).to_multiset() =~= s.to_multiset().remove(id));
    } else {
        assert(s.to_multiset().count(id) == 0);
        assert(s.to_multiset().remove(id) =~= s.to_multiset());
    }
}

/// An identifier that occurs has a first position.
proof fn lemma_some_first_position(s: Seq<EventId>, id: EventId, k: int) -> (i: int)
    requires
        0 <= k < s.len(),
        s[k] == id,
    ensures
        is_first_position(s, id, i),
    decreases k,
{
    if exists|j: int| 0 <= j < k && s[j] == id {
        let j = choose|j: int| 0 <= j < k && s[j] == id;
        lemma_some_first_position(s, id, j)
    } else {
        k
    }
}

/// An event that was just added is found again by `remove`, and removing it
/// gives back the events as they were, counted with multiplicity.
pub proof fn law_insert_then_remove(s: Seq<EventId>, id: EventId)
    ensures
        s.push(id).contains(id),
        without_event(s.push(id), id).to_multiset() == s.to_multiset(),
{
    broadcast use vstd::seq_lib::group_to_multiset_ensures, vstd::multiset::group_multiset_axioms;

    assert(s.push(id)[s.len() as int] == id);
    law_remove_takes_one_occurrence(s.push(id), id);
    assert(s.push(id).to_multiset().remove(id) =~= s.to_multiset());
}

/// The fragment an event concerns and the event's own identifier.
#[derive(Debug, Clone, Copy, PartialEq, Eq, Hash)]
pub struct IdPair {
    pub fragment: FragmentId,
    pub event: EventId,
}

/// The event a leaf emits, carrying its data.
#[derive(Debug, Clone)]
pub struct FragmentEvent<Data> {
    pub id: IdPair,
    pub data: Data,
}

impl<Data> FragmentEvent<Data> {
    /// The message that ends this event normally.
    pub fn end(&self) -> (e: FragmentEndEvent)
        ensures
            e.id_pair() == self.id,
            !e.interrupts(),
    {
        FragmentEndEvent { id: self.id, interruption: false }
    }

    /// The message that ends this event by interruption.
    pub fn interrupt(&self) -> (e: FragmentEndEvent)
        ensures
            e.id_pair() == self.id,
            e.interrupts(),
    {
        FragmentEndEvent { id: self.id, interruption: true }
    }
}

/// A request to end an event, normally or by interruption.
#[derive(Debug, Clone, Copy)]
pub struct FragmentEndEvent {
    id: IdPair,
    interruption: bool,
}

impl FragmentEndEvent {
    /// The event that is to end.
    pub closed spec fn id_pair(self) -> IdPair {
        self.id
    }

    /// Whether the event is to end by interruption.
    pub closed spec fn interrupts(self) -> bool {
        self.interruption
    }

    /// The fragment at which the ending starts to travel up the tree.
    pub fn target(&self) -> (f: FragmentId)
        ensures
            f == self.id_pair().fragment,
    {
        self.id.fragment
    }

    /// The stage event that carries this ending through the tree: an
    /// interruption travels as `Interrupt`, any other ending as `End`.
    pub fn stage_event(&self) -> (e: StageEvent<EndStage>)
        ensures
            e.id == self.id_pair(),
            e.stage == (if self.interrupts() { EndStage::Interrupt } else { EndStage::End }),
    {
        StageEvent {
            id: self.id,
            stage: if self.interruption {
                EndStage::Interrupt
            } else {
                EndStage::End
            },
        }
    }
}

/// An event at one stage of its travel through the tree.
#[derive(Debug, Clone, Copy)]
pub struct StageEvent<Stage> {
    pub id: IdPair,
    pub stage: Stage,
}

/// The stages of a beginning: `Start` at the fragment that was selected,
/// `Visit` where a mapping rewrote it.
#[derive(Debug, Clone, Copy, PartialEq, Eq, Structural)]
pub enum BeginStage {
    Start,
    Visit,
}

/// The stages of an ending.
#[derive(Debug, Clone, Copy, PartialEq, Eq, Structural)]
pub enum EndStage {
    End,
    Visit,
    Interrupt,
}

/// An event on its way down the tree.
#[derive(Debug)]
pub struct StageEventDown<Stage> {
    pub id: IdPair,
    _marker: PhantomData<Stage>,
}

impl<Stage> Clone for StageEventDown<Stage> {
    fn clone(&self) -> (r: Self) {
        StageEventDown { id: self.id, _marker: PhantomData }
    }
}

impl<Stage> Copy for StageEventDown<Stage> {

}

/// What a mapping of stage events sees: the fragment being visited, the
/// child the event came from, and the event.
pub struct MapContext<Stage> {
    pub target: bevy_ecs::entity::Entity,
    pub child: Option<bevy_ecs::entity::Entity>,
    pub event: StageEvent<Stage>,
}

/// The first stage event of a fragment that was selected: a `Start` for that
/// fragment, under a fresh event identifier.
pub fn start_event(target: bevy_ecs::entity::Entity) -> (e: StageEvent<BeginStage>)
    ensures
        e.stage == BeginStage::Start,
        e.id.fragment == FragmentId::new_spec(target),
{
    StageEvent {
        stage: BeginStage::Start,
        id: IdPair { fragment: FragmentId::new(target), event: EventId::new() },
    }
}

/// Where an event goes after it has been handled at a fragment: on to the
/// parent, unless the fragment is a root of its sequence or has no parent.
pub fn next_hop(
    is_root: bool,
    parent: Option<bevy_ecs::entity::Entity>,
) -> (next: Option<bevy_ecs::entity::Entity>)
    ensures
        next == (if is_root { None } else { parent }),
{
    if is_root {
        None
    } else {
        parent
    }
}

} // verus!
