//! Adding a set of systems to a schedule only once.

use vstd::prelude::*;

use bevy_platform::collections::HashSet;
use std::any::TypeId;

verus! {

/// The identifier std gives each type.
#[verifier::external_type_specification]
#[verifier::external_body]
pub struct ExTypeId(TypeId);

/// The set type of `bevy_platform`.
#[verifier::external_type_specification]
#[verifier::external_body]
#[verifier::reject_recursive_types(T)]
#[verifier::reject_recursive_types(S)]
pub struct ExHashSet<T, S>(HashSet<T, S>);

/// Which systems went into which schedule: the type identifier of the
/// systems (with their schedule label's type), and the schedule, known by
/// the address of its interned label. `bevy_ecs` interns labels so that
/// equal labels share one address, and compares interned labels by it.
pub type AddedKey = (TypeId, usize);

/// A set of such keys.
pub type AddedKeySet = HashSet<AddedKey>;

/// The keys a set holds.
pub uninterp spec fn added_keys(s: AddedKeySet) -> Set<AddedKey>;

/// No key at all.
pub open spec fn no_keys() -> Set<AddedKey> {
    Set::empty()
}

/// `bevy_platform`'s `HashSet::default`: an empty set.
#[verifier::external_body]
fn added_keys_empty() -> (s: AddedKeySet)
    ensures
        added_keys(s) == no_keys(),
{
    HashSet::default()
}

/// `bevy_platform`'s `HashSet::insert`: adds `key` and returns whether it
/// was not there before. Type identifiers are equal, and hash alike,
/// exactly when they identify the same type; pairs compare and hash by
/// their parts.
#[verifier::external_body]
fn added_keys_insert(s: &mut AddedKeySet, key: AddedKey) -> (fresh: bool)
    ensures
        fresh == !added_keys(*old(s)).contains(key),
        added_keys(*final(s)) == added_keys(*old(s)).insert(key),
{
    s.insert(key)
}

/// The sets of systems already added, each with the schedule it went into.
pub struct AddedSystems(AddedKeySet);

impl View for AddedSystems {
    type V = Set<AddedKey>;

    closed spec fn view(&self) -> Set<AddedKey> {
        added_keys(self.0)
    }
}

impl Default for AddedSystems {
    fn default() -> (a: AddedSystems)
        ensures
            a@ == no_keys(),
    {
        AddedSystems(added_keys_empty())
    }
}

impl AddedSystems {
    /// Records that the systems `systems` go into the schedule `schedule`,
    /// and tells whether this is the first time for that pair: the systems
    /// are to be added to that schedule only then.
    pub fn first_time(&mut self, systems: TypeId, schedule: usize) -> (first: bool)
        ensures
            first == !old(self)@.contains((systems, schedule)),
            final(self)@ == old(self)@.insert((systems, schedule)),
    {
        added_keys_insert(&mut self.0, (systems, schedule))
    }
}

/// A set of systems goes into each given schedule once: `first_time` only
/// ever adds to what has been seen, so once the pair has been recorded,
/// every later state answers that it is not the first time for it; and a
/// schedule the systems have not gone into yet still takes them, whatever
/// other schedules they went into.
pub proof fn law_added_once_per_schedule(
    seen: Set<AddedKey>,
    systems: TypeId,
    schedule: usize,
    other: usize,
    later: Set<AddedKey>,
)
    requires
        seen.insert((systems, schedule)).subset_of(later),
    ensures
        later.contains((systems, schedule)),
        other != schedule && !seen.contains((systems, other)) ==> !seen.insert(
            (systems, schedule),
        ).contains((systems, other)),
{
}

} // verus!
