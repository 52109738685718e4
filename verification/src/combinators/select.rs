//! Choosing exactly one child of a select node.

use vstd::prelude::*;

use crate::fragment::FragmentState;

verus! {

/// The index of the child a select node chose last.
#[derive(Debug, Clone, Copy, PartialEq, Eq, Structural)]
pub struct SelectActiveNode(pub usize);

/// Which children a choice of `chosen` selects, out of `n`: the child at
/// `chosen` and no other (none at all where `chosen` is out of range).
pub open spec fn selected_children(chosen: usize, n: nat) -> Seq<bool> {
    Seq::new(n, |i: int| i == chosen)
}

impl SelectActiveNode {
    /// Whether the select node needs a new choice: only when it is not
    /// running; while it runs it keeps the child it chose.
    pub fn needs_new_choice(state: &FragmentState) -> (r: bool)
        ensures
            r == !state.active,
    {
        !state.active
    }

    /// One round of selection at a select node with `n` children. A node
    /// that is running keeps its choice; one that is not takes the `fresh`
    /// choice its system made. Returns the choice to keep and, for each
    /// child in order, whether it is the one selected.
    pub fn select_round(
        node_active: bool,
        stored: SelectActiveNode,
        fresh: Option<usize>,
        n: usize,
    ) -> (r: (SelectActiveNode, Vec<bool>))
        requires
            !node_active ==> fresh is Some,
        ensures
            r.0 == (if node_active { stored } else { SelectActiveNode(fresh->0) }),
            r.1@ == selected_children(r.0.0, n as nat),
    {
        let chosen = if node_active {
            stored
        } else {
            match fresh {
                Some(f) => SelectActiveNode(f),
                None => stored,
            }
        };
        let mut flags: Vec<bool> = Vec::new();
        for i in 0..n
            invariant
                flags@.len() == i,
                forall|j: int| 0 <= j < i ==> #[trigger] flags@[j] == (j == chosen.0),
        {
            flags.push(chosen.0 == i);
        }
        proof {
            assert(flags@ =~= selected_children(chosen.0, n as nat));
        }
        (chosen, flags)
    }
}

/// A select node selects exactly one child when its choice is in range,
/// and none when it is not.
pub proof fn law_select_exactly_one(chosen: usize, n: nat)
    ensures
        chosen < n ==> selected_children(chosen, n)[chosen as int],
        forall|i: int|
            0 <= i < n && i != chosen ==> !#[trigger] selected_children(chosen, n)[i],
        chosen >= n ==> forall|i: int| 0 <= i < n ==> !#[trigger] selected_children(chosen, n)[i],
{
}

} // verus!
