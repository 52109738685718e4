//! Leaf fragments: the nodes that emit fragment events.

use vstd::prelude::*;

use crate::fragment::event::{BeginStage, FragmentEvent, StageEvent};

verus! {

/// A leaf node that simply emits its contained value.
#[derive(Debug)]
pub struct DataLeaf<T>(T);

impl<T> DataLeaf<T> {
    pub fn new(value: T) -> (leaf: DataLeaf<T>)
        ensures
            leaf.value_spec() == value,
    {
        DataLeaf(value)
    }

    /// The value the leaf emits.
    pub closed spec fn value_spec(&self) -> T {
        self.0
    }

    /// The value the leaf emits, taken out of the leaf.
    pub fn into_value(self) -> (value: T)
        ensures
            value == self.value_spec(),
    {
        self.0
    }
}

/// The event a leaf emits when a beginning reaches it on its way down: the
/// leaf's data, under the beginning's identifiers.
pub fn leaf_event<Data>(event: &StageEvent<BeginStage>, data: Data) -> (e: FragmentEvent<Data>)
    ensures
        e.id == event.id,
        e.data == data,
{
    FragmentEvent { id: event.id, data }
}

} // verus!
