//! Saving the progress of a fragment tree under a name and restoring it.

use vstd::prelude::*;

use crate::fragment::{initial_state, FragmentState, FragmentStateView};
use bevy_platform::collections::HashMap;
use std::any::TypeId;
use std::borrow::Cow;

verus! {

/// The saved progress of one fragment and, in order, of its children.
#[derive(Debug)]
pub struct SavedNode {
    state: FragmentState,
    children: Vec<SavedNode>,
}

/// A saved node as a mathematical value.
pub struct SavedNodeView {
    pub state: FragmentStateView,
    pub children: Seq<SavedNodeView>,
}

/// The saved node that holds nothing yet: an initial state and no children.
pub open spec fn empty_saved() -> SavedNodeView {
    SavedNodeView { state: initial_state(), children: Seq::empty() }
}

/// The views of a list of saved nodes, element by element.
pub closed spec fn views_of(s: Seq<SavedNode>) -> Seq<SavedNodeView>
    decreases s, 0int,
{
    if s.len() == 0 {
        Seq::empty()
    } else {
        views_of(s.subrange(0, s.len() - 1)).push(s[s.len() - 1].view_of())
    }
}

impl SavedNode {
    /// This node as a mathematical value.
    pub closed spec fn view_of(self) -> SavedNodeView
        decreases self, 1int,
    {
        proof {
            assert(decreases_to!(self => self.children));
        }
        SavedNodeView { state: self.state@, children: views_of(self.children@) }
    }
}

impl View for SavedNode {
    type V = SavedNodeView;

    open spec fn view(&self) -> SavedNodeView {
        self.view_of()
    }
}

impl Clone for SavedNode {
    fn clone(&self) -> (r: SavedNode)
        ensures
            r@ == self@,
        decreases self,
    {
        let n = self.children.len();
        let mut children: Vec<SavedNode> = Vec::new();
        for k in 0..n
            invariant
                n == self.children@.len(),
                children@.len() == k,
                forall|j: int| 0 <= j < k ==> #[trigger] children@[j]@ == self.children@[j]@,
        {
            proof {
                broadcast use vstd::std_specs::vec::axiom_vec_index_decreases;
                assert(decreases_to!(self => self.children));
                assert(decreases_to!(self.children => self.children[k as int]));
            }
            children.push(self.children[k].clone());
        }
        proof {
            lemma_views_of(children@);
            lemma_views_of(self.children@);
            assert(views_of(children@) =~= views_of(self.children@));
        }
        SavedNode { state: self.state.clone(), children }
    }
}

impl Default for SavedNode {
    fn default() -> (r: SavedNode)
        ensures
            r@ == empty_saved(),
    {
        let r = SavedNode { state: FragmentState::default(), children: Vec::new() };
        proof {
            assert(views_of(r.children@) =~= Seq::<SavedNodeView>::empty());
        }
        r
    }
}

/// `views_of` keeps the length and views each element.
pub proof fn lemma_views_of(s: Seq<SavedNode>)
    ensures
        views_of(s).len() == s.len(),
        forall|j: int| 0 <= j < s.len() ==> #[trigger] views_of(s)[j] == s[j]@,
    decreases s.len(),
{
    if s.len() > 0 {
        lemma_views_of(s.subrange(0, s.len() - 1));
    }
}


/// A fragment's state, where it has one, as a mathematical value.
pub open spec fn opt_state_view(s: Option<FragmentState>) -> Option<FragmentStateView> {
    match s {
        Some(s) => Some(s@),
        None => None,
    }
}

/// One entity of a fragment hierarchy as saving and restoring read it: its
/// fragment state (none where the entity is not a fragment with a state),
/// its children in order (none where it has no children component), and
/// its parent.
#[derive(Debug)]
struct HierarchyNode {
    state: Option<FragmentState>,
    children: Option<Vec<usize>>,
    parent: Option<usize>,
}

/// A fragment hierarchy: entities numbered from 0 in the order they were
/// added, each child added after its parent.
#[derive(Debug)]
pub struct Hierarchy {
    nodes: Vec<HierarchyNode>,
}

/// The hierarchy's shape is a forest whose children are numbered after
/// their parents: there are no more entities than numbers; each listed child lies after its parent and within
/// bounds, names that parent as its own, and is listed once; and each
/// entity with a parent is listed among that parent's children.
pub open spec fn is_forest(kids: Seq<Option<Seq<usize>>>, parents: Seq<Option<usize>>) -> bool {
    &&& kids.len() == parents.len()
    &&& kids.len() <= usize::MAX
    &&& forall|i: int, k: int|
        0 <= i < kids.len() && #[trigger] kids[i] is Some && 0 <= k < kids[i]->0.len() ==> {
            &&& i < #[trigger] kids[i]->0[k] < kids.len()
            &&& parents[kids[i]->0[k] as int] == Some(i as usize)
        }
    &&& forall|i: int, k1: int, k2: int|
        0 <= i < kids.len() && kids[i] is Some && 0 <= k1 < k2 < kids[i]->0.len()
            ==> #[trigger] kids[i]->0[k1] != #[trigger] kids[i]->0[k2]
    &&& forall|j: int|
        0 <= j < parents.len() && #[trigger] parents[j] is Some ==> {
            &&& parents[j]->0 < j
            &&& kids[parents[j]->0 as int] is Some
            &&& kids[parents[j]->0 as int]->0.contains(j as usize)
        }
}

impl Hierarchy {
    /// The children of each entity, in order.
    pub closed spec fn structure(&self) -> Seq<Option<Seq<usize>>> {
        Seq::new(
            self.nodes@.len(),
            |i: int|
                match self.nodes@[i].children {
                    Some(c) => Some(c@),
                    None => None,
                },
        )
    }

    /// The parent of each entity.
    pub closed spec fn parents(&self) -> Seq<Option<usize>> {
        Seq::new(self.nodes@.len(), |i: int| self.nodes@[i].parent)
    }

    /// The fragment state of each entity.
    pub closed spec fn states(&self) -> Seq<Option<FragmentStateView>> {
        Seq::new(self.nodes@.len(), |i: int| opt_state_view(self.nodes@[i].state))
    }

    pub open spec fn wf(&self) -> bool {
        is_forest(self.structure(), self.parents())
    }

    /// An empty hierarchy.
    pub fn new() -> (h: Hierarchy)
        ensures
            h.wf(),
            h.structure() == Seq::<Option<Seq<usize>>>::empty(),
            h.parents() == Seq::<Option<usize>>::empty(),
            h.states() == Seq::<Option<FragmentStateView>>::empty(),
    {
        let h = Hierarchy { nodes: Vec::new() };
        proof {
            assert(h.structure() =~= Seq::<Option<Seq<usize>>>::empty());
            assert(h.parents() =~= Seq::<Option<usize>>::empty());
            assert(h.states() =~= Seq::<Option<FragmentStateView>>::empty());
        }
        h
    }

    /// The number of entities.
    pub fn len(&self) -> (n: usize)
        ensures
            n == self.structure().len(),
            n == self.states().len(),
            n == self.parents().len(),
    {
        self.nodes.len()
    }

    /// Adds an entity without a parent and returns its number.
    pub fn add_root(&mut self, state: Option<FragmentState>) -> (i: usize)
        requires
            old(self).wf(),
            old(self).structure().len() < usize::MAX,
        ensures
            final(self).wf(),
            i == old(self).structure().len(),
            final(self).structure() == old(self).structure().push(None),
            final(self).parents() == old(self).parents().push(None),
            final(self).states() == old(self).states().push(opt_state_view(state)),
    {
        let i = self.nodes.len();
        let ghost st = opt_state_view(state);
        self.nodes.push(HierarchyNode { state, children: None, parent: None });
        proof {
            assert(self.structure() =~= old(self).structure().push(None));
            assert(self.parents() =~= old(self).parents().push(None));
            assert(self.states() =~= old(self).states().push(st));
            lemma_forest_push_root(old(self).structure(), old(self).parents());
        }
        i
    }

    /// Adds an entity as the last child of `parent` and returns its number.
    pub fn add_child(&mut self, parent: usize, state: Option<FragmentState>) -> (i: usize)
        requires
            old(self).wf(),
            parent < old(self).structure().len(),
            old(self).structure().len() < usize::MAX,
        ensures
            final(self).wf(),
            i == old(self).structure().len(),
            final(self).structure() == old(self).structure().update(
                parent as int,
                Some(children_or_none(old(self).structure()[parent as int]).push(i)),
            ).push(None),
            final(self).parents() == old(self).parents().push(Some(parent)),
            final(self).states() == old(self).states().push(opt_state_view(state)),
    {
        let i = self.nodes.len();
        let ghost st = opt_state_view(state);
        let mut kids: Vec<usize> = match &self.nodes[parent].children {
            Some(c) => c.clone(),
            None => Vec::new(),
        };
        proof {
            assert(kids@ =~= children_or_none(old(self).structure()[parent as int]));
        }
        kids.push(i);
        self.nodes[parent].children = Some(kids);
        self.nodes.push(HierarchyNode { state, children: None, parent: Some(parent) });
        proof {
            assert(self.structure() =~= old(self).structure().update(
                parent as int,
                Some(children_or_none(old(self).structure()[parent as int]).push(i)),
            ).push(None));
            assert(self.parents() =~= old(self).parents().push(Some(parent)));
            assert(self.states() =~= old(self).states().push(st));
            lemma_forest_push_child(old(self).structure(), old(self).parents(), parent as int);
        }
        i
    }

    /// The fragment state of entity `i`, if it has one.
    pub fn state(&self, i: usize) -> (s: Option<&FragmentState>)
        ensures
            match s {
                Some(s) => i < self.states().len() && self.states()[i as int] == Some(s@),
                None => i >= self.states().len() || self.states()[i as int] is None,
            },
    {
        if i < self.nodes.len() {
            self.nodes[i].state.as_ref()
        } else {
            None
        }
    }
}

/// The children listed, or none.
pub open spec fn children_or_none(c: Option<Seq<usize>>) -> Seq<usize> {
    match c {
        Some(c) => c,
        None => Seq::empty(),
    }
}

proof fn lemma_forest_push_root(kids: Seq<Option<Seq<usize>>>, parents: Seq<Option<usize>>)
    requires
        is_forest(kids, parents),
        kids.len() < usize::MAX,
    ensures
        is_forest(kids.push(None), parents.push(None)),
{
    let k2 = kids.push(None);
    let p2 = parents.push(None);
    assert forall|i: int, k: int|
        0 <= i < k2.len() && #[trigger] k2[i] is Some && 0 <= k < k2[i]->0.len() implies {
            &&& i < #[trigger] k2[i]->0[k] < k2.len()
            &&& p2[k2[i]->0[k] as int] == Some(i as usize)
        } by {
        assert(kids[i] is Some);
    }
    assert forall|j: int| 0 <= j < p2.len() && #[trigger] p2[j] is Some implies {
        &&& p2[j]->0 < j
        &&& k2[p2[j]->0 as int] is Some
        &&& k2[p2[j]->0 as int]->0.contains(j as usize)
    } by {
        assert(parents[j] is Some);
    }
}

proof fn lemma_forest_push_child(
    kids: Seq<Option<Seq<usize>>>,
    parents: Seq<Option<usize>>,
    parent: int,
)
    requires
        is_forest(kids, parents),
        0 <= parent < kids.len(),
        kids.len() < usize::MAX,
    ensures
        ({
            let n = kids.len() as usize;
            is_forest(
                kids.update(parent, Some(children_or_none(kids[parent]).push(n))).push(None),
                parents.push(Some(parent as usize)),
            )
        }),
{
    let n = kids.len() as usize;
    let c = children_or_none(kids[parent]);
    let k2 = kids.update(parent, Some(c.push(n))).push(None);
    let p2 = parents.push(Some(parent as usize));
    assert forall|i: int, k: int|
        0 <= i < k2.len() && #[trigger] k2[i] is Some && 0 <= k < k2[i]->0.len() implies {
            &&& i < #[trigger] k2[i]->0[k] < k2.len()
            &&& p2[k2[i]->0[k] as int] == Some(i as usize)
        } by {
        if i == parent {
            if k < c.len() {
                assert(kids[i]->0[k] == c[k]);
            }
        } else {
            assert(kids[i] is Some);
        }
    }
    assert forall|i: int, k1: int, k2i: int|
        0 <= i < k2.len() && k2[i] is Some && 0 <= k1 < k2i < k2[i]->0.len()
        implies #[trigger] k2[i]->0[k1] != #[trigger] k2[i]->0[k2i] by {
        if i == parent {
            if k2i == c.len() {
                assert(kids[i]->0[k1] == c[k1]);
                assert(i < kids[i]->0[k1] < kids.len());
            } else {
                assert(kids[i]->0[k1] != kids[i]->0[k2i]);
            }
        } else {
            assert(kids[i]->0[k1] != kids[i]->0[k2i]);
        }
    }
    assert forall|j: int| 0 <= j < p2.len() && #[trigger] p2[j] is Some implies {
        &&& p2[j]->0 < j
        &&& k2[p2[j]->0 as int] is Some
        &&& k2[p2[j]->0 as int]->0.contains(j as usize)
    } by {
        if j == n {
            assert(k2[parent]->0[c.len() as int] == n);
        } else {
            assert(parents[j] is Some);
            let p = parents[j]->0 as int;
            let w = choose|w: int| 0 <= w < kids[p]->0.len() && kids[p]->0[w] == j as usize;
            if p == parent {
                assert(k2[p]->0[w] == j as usize);
            } else {
                assert(k2[p]->0[w] == j as usize);
            }
        }
    }
}

/// A place where a saved tree and the hierarchy it is restored into differ
/// in shape; restoring does not descend below it.
#[derive(Debug, Clone, Copy, PartialEq, Eq, Structural)]
pub enum Mismatch {
    /// The entity has `found` children, the saved node `saved`.
    ChildCount { node: usize, saved: usize, found: usize },
    /// The saved node has `saved` children, the entity none.
    MissingChildren { node: usize, saved: usize },
}

/// Restoring the saved node `saved` at entity `i`: where the entity has a
/// fragment state, it takes the saved state; then, where the entity has as
/// many children as the saved node, each child is restored in order from
/// the saved child at the same place; otherwise the difference is
/// reported. Returns the states afterwards and the differences found, in
/// the order met.
pub open spec fn applied(
    kids: Seq<Option<Seq<usize>>>,
    st: Seq<Option<FragmentStateView>>,
    i: int,
    saved: SavedNodeView,
) -> (Seq<Option<FragmentStateView>>, Seq<Mismatch>)
    decreases kids.len() - i, 1int, 0int,
{
    if !(0 <= i < kids.len() && i < st.len()) || st[i] is None {
        (st, Seq::empty())
    } else {
        let st1 = st.update(i, Some(saved.state));
        match kids[i] {
            Some(c) => if c.len() != saved.children.len() {
                (
                    st1,
                    seq![
                        Mismatch::ChildCount {
                            node: i as usize,
                            saved: saved.children.len() as usize,
                            found: c.len() as usize,
                        },
                    ],
                )
            } else {
                applied_list(kids, st1, c, saved.children, i, 0)
            },
            None => if saved.children.len() > 0 {
                (
                    st1,
                    seq![
                        Mismatch::MissingChildren {
                            node: i as usize,
                            saved: saved.children.len() as usize,
                        },
                    ],
                )
            } else {
                (st1, Seq::empty())
            },
        }
    }
}

/// Restoring the children `c[k..]` of `parent` from the saved children
/// `saved[k..]`, one after the other.
pub open spec fn applied_list(
    kids: Seq<Option<Seq<usize>>>,
    st: Seq<Option<FragmentStateView>>,
    c: Seq<usize>,
    saved: Seq<SavedNodeView>,
    parent: int,
    k: int,
) -> (Seq<Option<FragmentStateView>>, Seq<Mismatch>)
    decreases kids.len() - parent, 0int, c.len() - k,
{
    if k < 0 || k >= c.len() || k >= saved.len() || !(parent < c[k] < kids.len()) {
        (st, Seq::empty())
    } else {
        let first = applied(kids, st, c[k] as int, saved[k]);
        let rest = applied_list(kids, first.0, c, saved, parent, k + 1);
        (rest.0, first.1 + rest.1)
    }
}

impl Hierarchy {
    /// Restores the saved node `saved` at entity `node` and below (see
    /// `applied`), and appends the differences in shape to `report`.
    pub fn apply_saved_state(
        &mut self,
        node: usize,
        saved: &SavedNode,
        report: &mut Vec<Mismatch>,
    ) -> (done: Option<()>)
        requires
            old(self).wf(),
        ensures
            final(self).wf(),
            final(self).structure() == old(self).structure(),
            final(self).parents() == old(self).parents(),
            final(self).states() == applied(
                old(self).structure(),
                old(self).states(),
                node as int,
                saved@,
            ).0,
            final(report)@ == old(report)@ + applied(
                old(self).structure(),
                old(self).states(),
                node as int,
                saved@,
            ).1,
            done is Some <==> has_state(old(self).states(), node as int),
        decreases old(self).structure().len() - node,
    {
        let ghost kids = self.structure();
        let ghost pars = self.parents();
        let ghost st0 = self.states();
        if node >= self.nodes.len() {
            proof {
                assert(report@ =~= old(report)@ + Seq::<Mismatch>::empty());
            }
            return None;
        }
        if self.nodes[node].state.is_none() {
            proof {
                assert(report@ =~= old(report)@ + Seq::<Mismatch>::empty());
            }
            return None;
        }
        let new_state = saved.state.clone();
        self.nodes[node].state = Some(new_state);
        proof {
            assert(self.structure() =~= kids);
            assert(self.parents() =~= pars);
            assert(self.states() =~= st0.update(node as int, Some(saved@.state)));
            lemma_views_of(saved.children@);
        }
        let n_saved = saved.children.len();
        let listed: Option<Vec<usize>> = match &self.nodes[node].children {
            Some(c) => Some(c.clone()),
            None => None,
        };
        match listed {
            None => {
                if n_saved > 0 {
                    report.push(Mismatch::MissingChildren { node, saved: n_saved });
                } else {
                    proof {
                        assert(report@ =~= old(report)@ + Seq::<Mismatch>::empty());
                    }
                }
            },
            Some(c) => {
                proof {
                    assert(c@ =~= kids[node as int]->0);
                }
                if c.len() != n_saved {
                    report.push(Mismatch::ChildCount { node, saved: n_saved, found: c.len() });
                } else {
                    let ghost sv = saved@.children;
                    let ghost total = applied_list(kids, self.states(), c@, sv, node as int, 0);
                    let ghost base = report@;
                    let n = c.len();
                    for k in 0..n
                        invariant
                            n == c@.len(),
                            n == saved.children@.len(),
                            sv == saved@.children,
                            sv.len() == n,
                            forall|j: int| 0 <= j < n ==> #[trigger] sv[j] == saved.children@[j]@,
                            c@ == kids[node as int]->0,
                            kids[node as int] is Some,
                            0 <= node < kids.len(),
                            is_forest(kids, pars),
                            kids == old(self).structure(),
                            self.wf(),
                            self.structure() == kids,
                            self.parents() == pars,
                            total.0 == applied_list(kids, self.states(), c@, sv, node as int, k as int).0,
                            base + total.1 == report@ + applied_list(
                                kids,
                                self.states(),
                                c@,
                                sv,
                                node as int,
                                k as int,
                            ).1,
                    {
                        let child = c[k];
                        proof {
                            assert(node < kids[node as int]->0[k as int] < kids.len());
                        }
                        let ghost before = self.states();
                        let ghost rep_before = report@;
                        let ghost first = applied(kids, before, child as int, sv[k as int]);
                        let ghost rest = applied_list(kids, first.0, c@, sv, node as int, k + 1);
                        self.apply_saved_state(child, &saved.children[k], report);
                        proof {
                            assert(report@ == rep_before + first.1);
                            assert(rep_before + (first.1 + rest.1) =~= report@ + rest.1);
                        }
                    }
                    proof {
                        assert(report@ + Seq::<Mismatch>::empty() =~= report@);
                    }
                }
            },
        }
        Some(())
    }
}

/// Entity `i` exists and has a fragment state.
pub open spec fn has_state(st: Seq<Option<FragmentStateView>>, i: int) -> bool {
    0 <= i < st.len() && st[i] is Some
}

/// `s` made `n` long: cut down to its first `n` elements, or filled up with
/// empty saved nodes.
pub open spec fn resized(s: Seq<SavedNodeView>, n: int) -> Seq<SavedNodeView> {
    if n <= s.len() {
        s.subrange(0, n)
    } else {
        s + Seq::new((n - s.len()) as nat, |j: int| empty_saved())
    }
}

/// Saving entity `i` into the saved node `s0`: where the entity has a
/// fragment state, the saved node takes it; where the entity also has
/// children, the saved children are made as many, and each is saved in
/// order from the child at the same place. Where the entity has no state,
/// `s0` stays as it is; where it has no children, so do the saved children.
pub open spec fn gathered(
    kids: Seq<Option<Seq<usize>>>,
    st: Seq<Option<FragmentStateView>>,
    i: int,
    s0: SavedNodeView,
) -> SavedNodeView
    decreases kids.len() - i, 1int, 0int,
{
    if !(0 <= i < kids.len() && i < st.len()) || st[i] is None {
        s0
    } else {
        match kids[i] {
            Some(c) => SavedNodeView {
                state: st[i]->0,
                children: gathered_list(kids, st, c, resized(s0.children, c.len() as int), i, 0),
            },
            None => SavedNodeView { state: st[i]->0, children: s0.children },
        }
    }
}

/// Saving the children `c[k..]` of `parent` into the saved children
/// `r[k..]`, one after the other.
pub open spec fn gathered_list(
    kids: Seq<Option<Seq<usize>>>,
    st: Seq<Option<FragmentStateView>>,
    c: Seq<usize>,
    r: Seq<SavedNodeView>,
    parent: int,
    k: int,
) -> Seq<SavedNodeView>
    decreases kids.len() - parent, 0int, c.len() - k,
{
    if k < 0 || k >= c.len() || k >= r.len() || !(parent < c[k] < kids.len()) {
        r
    } else {
        gathered_list(kids, st, c, r.update(k, gathered(kids, st, c[k] as int, r[k])), parent, k + 1)
    }
}

impl Hierarchy {
    /// Saves entity `node` and below into `state` (see `gathered`).
    pub fn get_saved_state(&self, node: usize, state: &mut SavedNode) -> (done: Option<()>)
        requires
            self.wf(),
        ensures
            final(state)@ == gathered(self.structure(), self.states(), node as int, old(state)@),
            done is Some <==> has_state(self.states(), node as int),
        decreases self.structure().len() - node,
    {
        let ghost kids = self.structure();
        let ghost st = self.states();
        if node >= self.nodes.len() {
            return None;
        }
        match &self.nodes[node].state {
            None => {
                return None;
            },
            Some(s) => {
                state.state = s.clone();
            },
        }
        match &self.nodes[node].children {
            None => {
                proof {
                    assert(state@ =~= gathered(kids, st, node as int, old(state)@));
                }
            },
            Some(c) => {
                let n = c.len();
                let ghost old_children = views_of(old(state).children@);
                proof {
                    lemma_views_of(old(state).children@);
                }
                state.children.resize(n, SavedNode::default());
                proof {
                    lemma_views_of(state.children@);
                    assert(views_of(state.children@) =~= resized(old_children, n as int));
                }
                let ghost total = gathered_list(
                    kids,
                    st,
                    c@,
                    resized(old_children, n as int),
                    node as int,
                    0,
                );
                for k in 0..n
                    invariant
                        n == c@.len(),
                        n == state.children@.len(),
                        c@ == kids[node as int]->0,
                        kids[node as int] is Some,
                        0 <= node < kids.len(),
                        self.wf(),
                        kids == self.structure(),
                        st == self.states(),
                        state.state@ == st[node as int]->0,
                        total == gathered_list(
                            kids,
                            st,
                            c@,
                            views_of(state.children@),
                            node as int,
                            k as int,
                        ),
                {
                    let child = c[k];
                    proof {
                        assert(node < kids[node as int]->0[k as int] < kids.len());
                        lemma_views_of(state.children@);
                    }
                    let ghost before = views_of(state.children@);
                    self.get_saved_state(child, &mut state.children[k]);
                    proof {
                        lemma_views_of(state.children@);
                        assert(views_of(state.children@) =~= before.update(
                            k as int,
                            gathered(kids, st, child as int, before[k as int]),
                        ));
                    }
                }
                proof {
                    lemma_views_of(state.children@);
                    assert(state@ =~= gathered(kids, st, node as int, old(state)@));
                }
            },
        }
        Some(())
    }
}

/// Saving fills each listed child's place with that child saved, from the
/// place's previous content, and leaves the places before `k` alone.
proof fn lemma_gathered_list_places(
    kids: Seq<Option<Seq<usize>>>,
    st: Seq<Option<FragmentStateView>>,
    c: Seq<usize>,
    r: Seq<SavedNodeView>,
    parent: int,
    k: int,
)
    requires
        0 <= k <= c.len(),
        r.len() == c.len(),
        forall|m: int| k <= m < c.len() ==> parent < #[trigger] c[m] < kids.len(),
    ensures
        gathered_list(kids, st, c, r, parent, k).len() == r.len(),
        forall|j: int|
            0 <= j < k ==> #[trigger] gathered_list(kids, st, c, r, parent, k)[j] == r[j],
        forall|j: int|
            k <= j < c.len() ==> #[trigger] gathered_list(kids, st, c, r, parent, k)[j] == gathered(
                kids,
                st,
                c[j] as int,
                r[j],
            ),
    decreases c.len() - k,
{
    if k < c.len() {
        let r1 = r.update(k, gathered(kids, st, c[k] as int, r[k]));
        lemma_gathered_list_places(kids, st, c, r1, parent, k + 1);
    }
}

/// Restoring children that each restore to the states as they are leaves
/// the states as they are.
proof fn lemma_applied_list_unchanged(
    kids: Seq<Option<Seq<usize>>>,
    st: Seq<Option<FragmentStateView>>,
    c: Seq<usize>,
    g: Seq<SavedNodeView>,
    parent: int,
    k: int,
)
    requires
        0 <= k <= c.len(),
        g.len() == c.len(),
        forall|m: int| k <= m < c.len() ==> parent < #[trigger] c[m] < kids.len(),
        forall|m: int|
            k <= m < c.len() ==> (#[trigger] applied(kids, st, c[m] as int, g[m])).0 == st,
    ensures
        applied_list(kids, st, c, g, parent, k).0 == st,
    decreases c.len() - k,
{
    if k < c.len() {
        assert(parent < c[k] < kids.len());
        assert(applied(kids, st, c[k] as int, g[k]).0 == st);
        lemma_applied_list_unchanged(kids, st, c, g, parent, k + 1);
    }
}

/// Restoring what was just saved from a hierarchy leaves its fragment
/// states as they were: whatever the saved node held before, saving entity
/// `i` into it and restoring it at `i` changes no state.
pub proof fn law_restore_saved(
    kids: Seq<Option<Seq<usize>>>,
    parents: Seq<Option<usize>>,
    st: Seq<Option<FragmentStateView>>,
    i: int,
    s0: SavedNodeView,
)
    requires
        is_forest(kids, parents),
        st.len() == kids.len(),
    ensures
        applied(kids, st, i, gathered(kids, st, i, s0)).0 == st,
    decreases kids.len() - i,
{
    if 0 <= i < kids.len() && st[i] is Some {
        let g = gathered(kids, st, i, s0);
        assert(st.update(i, Some(st[i]->0)) =~= st);
        match kids[i] {
            Some(c) => {
                let r = resized(s0.children, c.len() as int);
                assert(r.len() == c.len());
                assert forall|m: int| 0 <= m < c.len() implies i < #[trigger] c[m] < kids.len() by {
                    assert(kids[i]->0[m] == c[m]);
                }
                lemma_gathered_list_places(kids, st, c, r, i, 0);
                assert forall|m: int| 0 <= m < c.len() implies (#[trigger] applied(
                    kids,
                    st,
                    c[m] as int,
                    g.children[m],
                )).0 == st by {
                    assert(i < c[m] < kids.len());
                    law_restore_saved(kids, parents, st, c[m] as int, r[m]);
                }
                lemma_applied_list_unchanged(kids, st, c, g.children, i, 0);
            },
            None => {},
        }
    }
}

/// Saving twice in a row gives the same tree as saving once: saving
/// entity `i` into what saving it produced changes nothing.
pub proof fn law_save_twice(
    kids: Seq<Option<Seq<usize>>>,
    parents: Seq<Option<usize>>,
    st: Seq<Option<FragmentStateView>>,
    i: int,
    s0: SavedNodeView,
)
    requires
        is_forest(kids, parents),
        st.len() == kids.len(),
    ensures
        gathered(kids, st, i, gathered(kids, st, i, s0)) == gathered(kids, st, i, s0),
    decreases kids.len() - i,
{
    if 0 <= i < kids.len() && st[i] is Some {
        let g = gathered(kids, st, i, s0);
        match kids[i] {
            Some(c) => {
                let r = resized(s0.children, c.len() as int);
                assert forall|m: int| 0 <= m < c.len() implies i < #[trigger] c[m] < kids.len() by {
                    assert(kids[i]->0[m] == c[m]);
                }
                lemma_gathered_list_places(kids, st, c, r, i, 0);
                assert(resized(g.children, c.len() as int) =~= g.children);
                lemma_gathered_list_places(kids, st, c, g.children, i, 0);
                let gg = gathered(kids, st, i, g);
                assert forall|m: int| 0 <= m < c.len() implies #[trigger] gg.children[m]
                    == g.children[m] by {
                    assert(i < c[m] < kids.len());
                    law_save_twice(kids, parents, st, c[m] as int, r[m]);
                }
                assert(gg.children =~= g.children);
            },
            None => {},
        }
    }
}

/// Entity `j` lies below entity `i`: it is `i`, or its parent lies below
/// `i`.
pub open spec fn below(parents: Seq<Option<usize>>, i: int, j: int) -> bool
    decreases j,
{
    &&& 0 <= i
    &&& 0 <= j < parents.len()
    &&& (j == i || (j > i && parents[j] is Some && parents[j]->0 < j && below(
        parents,
        i,
        parents[j]->0 as int,
    )))
}

/// What lies below `i` lies at or after it.
proof fn lemma_below_origin(parents: Seq<Option<usize>>, i: int, j: int)
    requires
        below(parents, i, j),
    ensures
        i <= j,
    decreases j,
{
}

/// What lies below a child lies below its parent.
proof fn lemma_below_parent(parents: Seq<Option<usize>>, p: int, c: int, j: int)
    requires
        below(parents, c, j),
        0 <= p < c,
        parents[c] is Some,
        parents[c]->0 == p,
    ensures
        below(parents, p, j),
    decreases j,
{
    assert(below(parents, p, p));
    if j != c {
        let q = parents[j]->0 as int;
        lemma_below_parent(parents, p, c, q);
        lemma_below_origin(parents, c, q);
    }
}

/// Two entities that something lies below lie one below the other.
proof fn lemma_below_chain(parents: Seq<Option<usize>>, a: int, b: int, j: int)
    requires
        below(parents, a, j),
        below(parents, b, j),
        a <= b,
    ensures
        below(parents, a, b),
    decreases j,
{
    if j != b {
        assert(j != a) by {
            lemma_below_origin(parents, b, j);
        }
        lemma_below_chain(parents, a, b, parents[j]->0 as int);
    }
}

/// Nothing lies below two different children of one entity.
proof fn lemma_siblings_apart(
    kids: Seq<Option<Seq<usize>>>,
    parents: Seq<Option<usize>>,
    i: int,
    m1: int,
    m2: int,
    j: int,
)
    requires
        is_forest(kids, parents),
        0 <= i < kids.len(),
        kids[i] is Some,
        0 <= m1 < kids[i]->0.len(),
        0 <= m2 < kids[i]->0.len(),
        m1 != m2,
        below(parents, kids[i]->0[m1] as int, j),
    ensures
        !below(parents, kids[i]->0[m2] as int, j),
{
    let c = kids[i]->0;
    if below(parents, c[m2] as int, j) {
        assert(c[m1] != c[m2]) by {
            if m1 < m2 {
                assert(c[m1] != c[m2]);
            } else {
                assert(c[m2] != c[m1]);
            }
        }
        assert(i < c[m1] < kids.len() && parents[c[m1] as int] == Some(i as usize));
        assert(i < c[m2] < kids.len() && parents[c[m2] as int] == Some(i as usize));
        if c[m1] < c[m2] {
            lemma_below_chain(parents, c[m1] as int, c[m2] as int, j);
            lemma_below_origin(parents, c[m1] as int, i);
        } else {
            lemma_below_chain(parents, c[m2] as int, c[m1] as int, j);
            lemma_below_origin(parents, c[m2] as int, i);
        }
    }
}

/// Restoring at `i` changes no entity that does not lie below `i`, keeps
/// the number of entities, and keeps which of them have a state.
proof fn lemma_applied_frame(
    kids: Seq<Option<Seq<usize>>>,
    parents: Seq<Option<usize>>,
    x: Seq<Option<FragmentStateView>>,
    i: int,
    s: SavedNodeView,
)
    requires
        is_forest(kids, parents),
        x.len() == kids.len(),
    ensures
        same_pattern(applied(kids, x, i, s).0, x),
        forall|j: int|
            0 <= j < x.len() && !below(parents, i, j) ==> #[trigger] applied(kids, x, i, s).0[j]
                == x[j],
    decreases kids.len() - i, 1int, 0int,
{
    if 0 <= i < kids.len() && x[i] is Some {
        let x1 = x.update(i, Some(s.state));
        match kids[i] {
            Some(c) => {
                if c.len() == s.children.len() {
                    lemma_applied_list_frame(kids, parents, x1, c, s.children, i, 0);
                    assert forall|j: int| 0 <= j < x.len() && !below(parents, i, j) implies #[trigger] applied(
                        kids,
                        x,
                        i,
                        s,
                    ).0[j] == x[j] by {
                        assert forall|m: int| 0 <= m < c.len() implies !#[trigger] below(
                            parents,
                            c[m] as int,
                            j,
                        ) by {
                            assert(kids[i]->0[m] == c[m]);
                            assert(i < c[m] < kids.len());
                            if below(parents, c[m] as int, j) {
                                lemma_below_parent(parents, i, c[m] as int, j);
                            }
                        }
                    }
                }
            },
            None => {},
        }
    }
}

/// Restoring the children `c[k..]` of `parent` changes no entity that lies
/// below none of them, and keeps which entities have a state.
proof fn lemma_applied_list_frame(
    kids: Seq<Option<Seq<usize>>>,
    parents: Seq<Option<usize>>,
    x: Seq<Option<FragmentStateView>>,
    c: Seq<usize>,
    saved: Seq<SavedNodeView>,
    parent: int,
    k: int,
)
    requires
        is_forest(kids, parents),
        x.len() == kids.len(),
        0 <= k,
    ensures
        same_pattern(applied_list(kids, x, c, saved, parent, k).0, x),
        forall|j: int|
            0 <= j < x.len() && (forall|m: int|
                k <= m < c.len() ==> !#[trigger] below(parents, c[m] as int, j))
                ==> #[trigger] applied_list(kids, x, c, saved, parent, k).0[j] == x[j],
    decreases kids.len() - parent, 0int, c.len() - k,
{
    if !(k < 0 || k >= c.len() || k >= saved.len() || !(parent < c[k] < kids.len())) {
        let x1 = applied(kids, x, c[k] as int, saved[k]).0;
        lemma_applied_frame(kids, parents, x, c[k] as int, saved[k]);
        lemma_applied_list_frame(kids, parents, x1, c, saved, parent, k + 1);
        assert forall|j: int|
            0 <= j < x.len() && (forall|m: int|
                k <= m < c.len() ==> !#[trigger] below(parents, c[m] as int, j))
            implies #[trigger] applied_list(kids, x, c, saved, parent, k).0[j] == x[j] by {
            assert(!below(parents, c[k] as int, j));
            assert forall|m: int| k + 1 <= m < c.len() implies !#[trigger] below(
                parents,
                c[m] as int,
                j,
            ) by {}
        }
    }
}

/// Saving at `i` reads only the entities that lie below `i`.
proof fn lemma_gathered_local(
    kids: Seq<Option<Seq<usize>>>,
    parents: Seq<Option<usize>>,
    x1: Seq<Option<FragmentStateView>>,
    x2: Seq<Option<FragmentStateView>>,
    i: int,
    s0: SavedNodeView,
)
    requires
        is_forest(kids, parents),
        x1.len() == kids.len(),
        x2.len() == kids.len(),
        forall|j: int| 0 <= j < kids.len() && below(parents, i, j) ==> #[trigger] x1[j] == x2[j],
    ensures
        gathered(kids, x1, i, s0) == gathered(kids, x2, i, s0),
    decreases kids.len() - i,
{
    if 0 <= i < kids.len() {
        assert(below(parents, i, i));
        assert(x1[i] == x2[i]);
        if x1[i] is Some {
            match kids[i] {
                Some(c) => {
                    let r = resized(s0.children, c.len() as int);
                    assert forall|m: int| 0 <= m < c.len() implies i < #[trigger] c[m] < kids.len() by {
                        assert(kids[i]->0[m] == c[m]);
                    }
                    lemma_gathered_list_places(kids, x1, c, r, i, 0);
                    lemma_gathered_list_places(kids, x2, c, r, i, 0);
                    assert forall|m: int| 0 <= m < c.len() implies gathered(
                        kids,
                        x1,
                        #[trigger] c[m] as int,
                        r[m],
                    ) == gathered(kids, x2, c[m] as int, r[m]) by {
                        assert(kids[i]->0[m] == c[m]);
                        assert(parents[c[m] as int] == Some(i as usize));
                        assert forall|j: int|
                            0 <= j < kids.len() && below(parents, c[m] as int, j) implies #[trigger] x1[j]
                            == x2[j] by {
                            lemma_below_parent(parents, i, c[m] as int, j);
                        }
                        lemma_gathered_local(kids, parents, x1, x2, c[m] as int, r[m]);
                    }
                    assert(gathered(kids, x1, i, s0).children =~= gathered(kids, x2, i, s0).children);
                },
                None => {},
            }
        }
    }
}

/// The saved node `s` fits the hierarchy at entity `i`: the entity and
/// every entity reached below it have a state, and each has as many
/// children as its saved node (no children component where the saved node
/// has none).
pub open spec fn fits(
    kids: Seq<Option<Seq<usize>>>,
    st: Seq<Option<FragmentStateView>>,
    i: int,
    s: SavedNodeView,
) -> bool
    decreases kids.len() - i, 1int, 0int,
{
    if !(0 <= i < kids.len() && i < st.len()) || st[i] is None {
        false
    } else {
        match kids[i] {
            Some(c) => c.len() == s.children.len() && fits_list(kids, st, c, s.children, i, 0),
            None => s.children.len() == 0,
        }
    }
}

/// The saved children `saved[k..]` fit the children `c[k..]` of `parent`.
pub open spec fn fits_list(
    kids: Seq<Option<Seq<usize>>>,
    st: Seq<Option<FragmentStateView>>,
    c: Seq<usize>,
    saved: Seq<SavedNodeView>,
    parent: int,
    k: int,
) -> bool
    decreases kids.len() - parent, 0int, c.len() - k,
{
    if k < 0 || k >= c.len() || k >= saved.len() {
        true
    } else if !(parent < c[k] < kids.len()) {
        false
    } else {
        fits(kids, st, c[k] as int, saved[k]) && fits_list(kids, st, c, saved, parent, k + 1)
    }
}

proof fn lemma_fits_list_places(
    kids: Seq<Option<Seq<usize>>>,
    st: Seq<Option<FragmentStateView>>,
    c: Seq<usize>,
    saved: Seq<SavedNodeView>,
    parent: int,
    k: int,
)
    requires
        fits_list(kids, st, c, saved, parent, k),
        0 <= k,
        c.len() == saved.len(),
    ensures
        forall|m: int| k <= m < c.len() ==> #[trigger] fits(kids, st, c[m] as int, saved[m]),
    decreases c.len() - k,
{
    if k < c.len() {
        lemma_fits_list_places(kids, st, c, saved, parent, k + 1);
    }
}

/// After restoring the children `c[k..]` of `i`, saving each of them from
/// an empty saved node gives back its saved child.
proof fn lemma_saved_back_list(
    kids: Seq<Option<Seq<usize>>>,
    parents: Seq<Option<usize>>,
    pat: Seq<Option<FragmentStateView>>,
    x: Seq<Option<FragmentStateView>>,
    i: int,
    saved: Seq<SavedNodeView>,
    k: int,
)
    requires
        is_forest(kids, parents),
        pat.len() == kids.len(),
        same_pattern(x, pat),
        0 <= i < kids.len(),
        kids[i] is Some,
        kids[i]->0.len() == saved.len(),
        0 <= k <= saved.len(),
        forall|m: int| k <= m < saved.len() ==> #[trigger] fits(kids, pat, kids[i]->0[m] as int, saved[m]),
    ensures
        forall|m: int|
            k <= m < saved.len() ==> gathered(
                kids,
                applied_list(kids, x, kids[i]->0, saved, i, k).0,
                #[trigger] kids[i]->0[m] as int,
                empty_saved(),
            ) == saved[m],
    decreases kids.len() - i, 0int, saved.len() - k,
{
    let c = kids[i]->0;
    if k < saved.len() {
        assert(i < c[k] < kids.len());
        let x1 = applied(kids, x, c[k] as int, saved[k]).0;
        lemma_applied_frame(kids, parents, x, c[k] as int, saved[k]);
        assert(same_pattern(x1, pat));
        lemma_saved_back_list(kids, parents, pat, x1, i, saved, k + 1);
        let y = applied_list(kids, x1, c, saved, i, k + 1).0;
        assert(applied_list(kids, x, c, saved, i, k).0 == y);
        lemma_restored_saved_back(kids, parents, pat, x, c[k] as int, saved[k]);
        lemma_applied_list_frame(kids, parents, x1, c, saved, i, k + 1);
        assert forall|j: int| 0 <= j < kids.len() && below(parents, c[k] as int, j) implies #[trigger] y[j]
            == x1[j] by {
            assert forall|m: int| k + 1 <= m < c.len() implies !#[trigger] below(
                parents,
                c[m] as int,
                j,
            ) by {
                lemma_siblings_apart(kids, parents, i, k, m, j);
            }
        }
        lemma_gathered_local(kids, parents, y, x1, c[k] as int, empty_saved());
    }
}

/// Restoring a saved node that fits `pat` at `i` into states with a state
/// at the same entities as `pat`, then saving `i` from an empty saved
/// node, gives the saved node back.
proof fn lemma_restored_saved_back(
    kids: Seq<Option<Seq<usize>>>,
    parents: Seq<Option<usize>>,
    pat: Seq<Option<FragmentStateView>>,
    x: Seq<Option<FragmentStateView>>,
    i: int,
    s: SavedNodeView,
)
    requires
        is_forest(kids, parents),
        pat.len() == kids.len(),
        same_pattern(x, pat),
        fits(kids, pat, i, s),
    ensures
        gathered(kids, applied(kids, x, i, s).0, i, empty_saved()) == s,
    decreases kids.len() - i, 1int, 0int,
{
    let a = applied(kids, x, i, s).0;
    let x1 = x.update(i, Some(s.state));
    lemma_applied_frame(kids, parents, x, i, s);
    match kids[i] {
        Some(c) => {
            let n = c.len();
            lemma_fits_list_places(kids, pat, c, s.children, i, 0);
            assert(same_pattern(x1, pat));
            lemma_saved_back_list(kids, parents, pat, x1, i, s.children, 0);
            lemma_applied_list_frame(kids, parents, x1, c, s.children, i, 0);
            assert forall|m: int| 0 <= m < c.len() implies !#[trigger] below(parents, c[m] as int, i) by {
                assert(kids[i]->0[m] == c[m]);
                if below(parents, c[m] as int, i) {
                    lemma_below_origin(parents, c[m] as int, i);
                }
            }
            assert(a[i] == Some(s.state));
            let r = resized(empty_saved().children, n as int);
            assert forall|m: int| 0 <= m < n implies i < #[trigger] c[m] < kids.len() by {
                assert(kids[i]->0[m] == c[m]);
            }
            lemma_gathered_list_places(kids, a, c, r, i, 0);
            assert forall|m: int| 0 <= m < n implies #[trigger] gathered(kids, a, i, empty_saved()).children[m]
                == s.children[m] by {
                assert(r[m] == empty_saved());
            }
            assert(gathered(kids, a, i, empty_saved()).children =~= s.children);
        },
        None => {
            assert(gathered(kids, a, i, empty_saved()).children =~= s.children);
        },
    }
}

/// Saving what was just restored gives it back: where a saved node fits
/// the hierarchy at `i` (see `fits`), restoring it at `i` and then saving
/// `i` from an empty saved node gives the same saved node.
pub proof fn law_save_after_restore(
    kids: Seq<Option<Seq<usize>>>,
    parents: Seq<Option<usize>>,
    st: Seq<Option<FragmentStateView>>,
    i: int,
    s: SavedNodeView,
)
    requires
        is_forest(kids, parents),
        st.len() == kids.len(),
        fits(kids, st, i, s),
    ensures
        gathered(kids, applied(kids, st, i, s).0, i, empty_saved()) == s,
{
    lemma_restored_saved_back(kids, parents, st, st, i, s);
}

/// Entity `j` is reached when restoring from entity `i`: both have a
/// fragment state, and `j` is `i` or lies below `i` through entities that
/// all have one.
pub open spec fn reached(parents: Seq<Option<usize>>, st: Seq<Option<FragmentStateView>>, i: int, j: int) -> bool
    decreases j,
{
    &&& 0 <= i
    &&& 0 <= j < st.len()
    &&& j < parents.len()
    &&& st[j] is Some
    &&& (j == i || (j > i && parents[j] is Some && parents[j]->0 < j && reached(
        parents,
        st,
        i,
        parents[j]->0 as int,
    )))
}

/// Entity `j` is reached from one of the children `c[k..]`.
pub open spec fn reached_from_any(
    parents: Seq<Option<usize>>,
    st: Seq<Option<FragmentStateView>>,
    c: Seq<usize>,
    k: int,
    j: int,
) -> bool
    decreases c.len() - k,
{
    if 0 <= k < c.len() {
        reached(parents, st, c[k] as int, j) || reached_from_any(parents, st, c, k + 1, j)
    } else {
        false
    }
}

/// The states of `into` after the tree saved from entity `i` of a hierarchy
/// with the states `from` is restored at `i`: each entity reached from `i`
/// takes its state from `from`; every other keeps its own.
pub open spec fn restored(
    parents: Seq<Option<usize>>,
    from: Seq<Option<FragmentStateView>>,
    into: Seq<Option<FragmentStateView>>,
    i: int,
) -> Seq<Option<FragmentStateView>> {
    Seq::new(into.len(), |j: int| if reached(parents, from, i, j) { from[j] } else { into[j] })
}

/// Two lists of states in which the same entities have a state.
pub open spec fn same_pattern(a: Seq<Option<FragmentStateView>>, b: Seq<Option<FragmentStateView>>) -> bool {
    &&& a.len() == b.len()
    &&& forall|j: int| 0 <= j < a.len() ==> (#[trigger] a[j] is Some <==> b[j] is Some)
}

/// What is reached from `i` lies at or after `i`, and `i` has a state.
proof fn lemma_reached_origin(parents: Seq<Option<usize>>, st: Seq<Option<FragmentStateView>>, i: int, j: int)
    requires
        reached(parents, st, i, j),
    ensures
        i <= j,
        0 <= i < st.len(),
        st[i] is Some,
    decreases j,
{
    if j != i {
        lemma_reached_origin(parents, st, i, parents[j]->0 as int);
    }
}

/// Being reached from one of `c[k..]` is being reached from some `c[m]`.
proof fn lemma_reached_from_any(
    parents: Seq<Option<usize>>,
    st: Seq<Option<FragmentStateView>>,
    c: Seq<usize>,
    k: int,
    j: int,
)
    requires
        0 <= k,
    ensures
        reached_from_any(parents, st, c, k, j) <==> exists|m: int|
            k <= m < c.len() && #[trigger] reached(parents, st, c[m] as int, j),
    decreases c.len() - k,
{
    if k < c.len() {
        lemma_reached_from_any(parents, st, c, k + 1, j);
        if reached(parents, st, c[k] as int, j) {
            assert(exists|m: int| k <= m < c.len() && #[trigger] reached(parents, st, c[m] as int, j));
        }
        if exists|m: int| k <= m < c.len() && #[trigger] reached(parents, st, c[m] as int, j) {
            let m = choose|m: int| k <= m < c.len() && #[trigger] reached(parents, st, c[m] as int, j);
            if m != k {
                assert(k + 1 <= m < c.len() && reached(parents, st, c[m] as int, j));
            }
        }
    }
}

/// Below an entity with a state, what is reached is what is reached from
/// one of its children.
proof fn lemma_reached_below(
    kids: Seq<Option<Seq<usize>>>,
    parents: Seq<Option<usize>>,
    st: Seq<Option<FragmentStateView>>,
    i: int,
    j: int,
)
    requires
        is_forest(kids, parents),
        st.len() == kids.len(),
        0 <= i < kids.len(),
        st[i] is Some,
        j != i,
    ensures
        reached(parents, st, i, j) <==> reached_from_any(
            parents,
            st,
            children_or_none(kids[i]),
            0,
            j,
        ),
    decreases j,
{
    let c = children_or_none(kids[i]);
    lemma_reached_from_any(parents, st, c, 0, j);
    if reached(parents, st, i, j) {
        let p = parents[j]->0 as int;
        assert(parents[j] is Some);
        if p == i {
            assert(0 <= j < kids.len());
            assert(kids[p] is Some);
            assert(c == kids[i]->0);
            assert(kids[p]->0.contains(j as usize));
            let m = choose|m: int| 0 <= m < kids[p]->0.len() && kids[p]->0[m] == j as usize;
            assert(c[m] == j);
            assert(reached(parents, st, c[m] as int, j));
        } else {
            lemma_reached_below(kids, parents, st, i, p);
            lemma_reached_from_any(parents, st, c, 0, p);
            let m = choose|m: int| 0 <= m < c.len() && #[trigger] reached(parents, st, c[m] as int, p);
            lemma_reached_origin(parents, st, c[m] as int, p);
            assert(reached(parents, st, c[m] as int, j));
        }
    }
    if reached_from_any(parents, st, c, 0, j) {
        let m = choose|m: int| 0 <= m < c.len() && #[trigger] reached(parents, st, c[m] as int, j);
        assert(kids[i] is Some);
        assert(kids[i]->0[m] == c[m]);
        assert(i < c[m] < kids.len());
        assert(parents[c[m] as int] == Some(i as usize));
        if j == c[m] {
            assert(reached(parents, st, i, i));
            assert(reached(parents, st, i, j));
        } else {
            let p = parents[j]->0 as int;
            lemma_reached_origin(parents, st, c[m] as int, p);
            assert(p != i);
            assert(reached(parents, st, c[m] as int, p));
            lemma_reached_from_any(parents, st, c, 0, p);
            lemma_reached_below(kids, parents, st, i, p);
            assert(reached(parents, st, i, p));
            assert(reached(parents, st, i, j));
        }
    }
}

/// Restoring children one after the other, each of which restores what is
/// reached from it, restores what is reached from any of them.
proof fn lemma_applied_list_restores(
    kids: Seq<Option<Seq<usize>>>,
    parents: Seq<Option<usize>>,
    st: Seq<Option<FragmentStateView>>,
    x: Seq<Option<FragmentStateView>>,
    c: Seq<usize>,
    g: Seq<SavedNodeView>,
    parent: int,
    k: int,
)
    requires
        same_pattern(x, st),
        0 <= k <= c.len(),
        g.len() == c.len(),
        forall|m: int| k <= m < c.len() ==> parent < #[trigger] c[m] < kids.len(),
        forall|m: int, y: Seq<Option<FragmentStateView>>|
            k <= m < c.len() && same_pattern(y, st) ==> (#[trigger] applied(
                kids,
                y,
                c[m] as int,
                g[m],
            )).0 == restored(parents, st, y, c[m] as int),
    ensures
        applied_list(kids, x, c, g, parent, k).0 == Seq::new(
            x.len(),
            |j: int| if reached_from_any(parents, st, c, k, j) { st[j] } else { x[j] },
        ),
    decreases c.len() - k,
{
    if k < c.len() {
        assert(parent < c[k] < kids.len());
        let x1 = applied(kids, x, c[k] as int, g[k]).0;
        assert(x1 == restored(parents, st, x, c[k] as int));
        assert(same_pattern(x1, st));
        lemma_applied_list_restores(kids, parents, st, x1, c, g, parent, k + 1);
        assert(applied_list(kids, x, c, g, parent, k).0 =~= Seq::new(
            x.len(),
            |j: int| if reached_from_any(parents, st, c, k, j) { st[j] } else { x[j] },
        ));
    } else {
        assert(applied_list(kids, x, c, g, parent, k).0 =~= Seq::new(
            x.len(),
            |j: int| if reached_from_any(parents, st, c, k, j) { st[j] } else { x[j] },
        ));
    }
}

/// Restoring into a hierarchy of the same shape the tree saved from entity
/// `i` of another gives every entity reached from `i` the state it had
/// there, and leaves every other entity as it was. The two hierarchies have
/// the same children and parents, and the same entities have a state.
pub proof fn law_restore_into_same_shape(
    kids: Seq<Option<Seq<usize>>>,
    parents: Seq<Option<usize>>,
    from: Seq<Option<FragmentStateView>>,
    into: Seq<Option<FragmentStateView>>,
    i: int,
    s0: SavedNodeView,
)
    requires
        is_forest(kids, parents),
        from.len() == kids.len(),
        same_pattern(into, from),
    ensures
        applied(kids, into, i, gathered(kids, from, i, s0)).0 == restored(parents, from, into, i),
    decreases kids.len() - i,
{
    let st = from;
    if !(0 <= i < kids.len()) || st[i] is None {
        assert forall|j: int| 0 <= j < into.len() implies !reached(parents, st, i, j) by {
            if reached(parents, st, i, j) {
                lemma_reached_origin(parents, st, i, j);
            }
        }
        assert(applied(kids, into, i, gathered(kids, from, i, s0)).0 =~= restored(
            parents,
            from,
            into,
            i,
        ));
    } else {
        assert(into[i] is Some);
        let g = gathered(kids, st, i, s0);
        let x1 = into.update(i, Some(st[i]->0));
        let c = children_or_none(kids[i]);
        assert forall|j: int| 0 <= j < into.len() && j != i implies (reached(parents, st, i, j)
            <==> reached_from_any(parents, st, c, 0, j)) by {
            lemma_reached_below(kids, parents, st, i, j);
        }
        assert(reached(parents, st, i, i));
        match kids[i] {
            Some(cc) => {
                assert(cc == c);
                let r = resized(s0.children, c.len() as int);
                assert forall|m: int| 0 <= m < c.len() implies i < #[trigger] c[m] < kids.len() by {
                    assert(kids[i]->0[m] == c[m]);
                }
                lemma_gathered_list_places(kids, st, c, r, i, 0);
                assert forall|m: int, y: Seq<Option<FragmentStateView>>|
                    0 <= m < c.len() && same_pattern(y, st) implies (#[trigger] applied(
                        kids,
                        y,
                        c[m] as int,
                        g.children[m],
                    )).0 == restored(parents, st, y, c[m] as int) by {
                    assert(i < c[m] < kids.len());
                    law_restore_into_same_shape(kids, parents, st, y, c[m] as int, r[m]);
                }
                assert(same_pattern(x1, st));
                lemma_applied_list_restores(kids, parents, st, x1, c, g.children, i, 0);
                assert forall|j: int| 0 <= j < into.len() implies !(j == i
                    && reached_from_any(parents, st, c, 0, j)) by {
                    if j == i && reached_from_any(parents, st, c, 0, j) {
                        lemma_reached_from_any(parents, st, c, 0, j);
                        let m = choose|m: int|
                            0 <= m < c.len() && #[trigger] reached(parents, st, c[m] as int, j);
                        lemma_reached_origin(parents, st, c[m] as int, j);
                    }
                }
                assert(applied(kids, into, i, g).0 =~= restored(parents, from, into, i));
            },
            None => {
                assert forall|j: int| 0 <= j < into.len() implies !reached_from_any(
                    parents,
                    st,
                    c,
                    0,
                    j,
                ) by {}
                assert(applied(kids, into, i, g).0 =~= restored(parents, from, into, i));
            },
        }
    }
}

/// Save a tree with a given name.
pub struct Save<T> {
    fragment: T,
    name: Cow<'static, str>,
}

impl<T: 'static> Save<T> {
    pub fn new(fragment: T, name: Cow<'static, str>) -> (s: Save<T>)
        ensures
            s.fragment_spec() == fragment,
            s.name_spec() == name@,
    {
        Save { fragment, name }
    }

    pub closed spec fn fragment_spec(&self) -> T {
        self.fragment
    }

    pub closed spec fn name_spec(&self) -> Seq<char> {
        self.name@
    }

    /// The fragment to save and the name to save it under.
    pub fn into_parts(self) -> (parts: (T, Cow<'static, str>))
        ensures
            parts.0 == self.fragment_spec(),
            parts.1@ == self.name_spec(),
    {
        (self.fragment, self.name)
    }
}

/// The map type of `bevy_platform`, declared so that saved sequences can be
/// kept in one.
#[verifier::external_type_specification]
#[verifier::external_body]
#[verifier::reject_recursive_types(K)]
#[verifier::reject_recursive_types(V)]
#[verifier::reject_recursive_types(S)]
pub struct ExHashMap<K, V, S>(HashMap<K, V, S>);

/// The default hasher of `bevy_platform`'s maps.
#[verifier::external_type_specification]
#[verifier::external_body]
pub struct ExFixedHasher(bevy_platform::hash::FixedHasher);

/// The map that holds saved sequences, by name.
pub type SavedMap = HashMap<Name, SavedSequence>;

/// A sequence's name.
pub type Name = Cow<'static, str>;

/// What a map of saved sequences holds: for each name (as its characters),
/// the saved sequence stored under it.
pub uninterp spec fn saved_entries(m: SavedMap) -> Map<Seq<char>, SavedSequenceView>;

/// No sequence saved under any name.
pub open spec fn nothing_saved() -> Map<Seq<char>, SavedSequenceView> {
    Map::empty()
}

/// `bevy_platform`'s `HashMap::default`: an empty map.
#[verifier::external_body]
fn entries_empty() -> (map: SavedMap)
    ensures
        saved_entries(map) == nothing_saved(),
{
    HashMap::default()
}

/// `bevy_platform`'s `HashMap::get`: the sequence stored under a name equal
/// to `name`, if there is one. Names are compared, and hashed, by their
/// characters.
#[verifier::external_body]
fn entries_get<'a>(m: &'a SavedMap, name: &Name) -> (r: Option<&'a SavedSequence>)
    ensures
        r is Some <==> saved_entries(*m).dom().contains(name@),
        r matches Some(s) ==> s@ == saved_entries(*m)[name@],
{
    m.get(name)
}

/// `bevy_platform`'s `HashMap::insert`: afterwards `name` maps to `sequence`
/// and every other name to what it mapped to before.
#[verifier::external_body]
fn entries_insert(
    m: &mut SavedMap,
    name: Name,
    sequence: SavedSequence,
)
    ensures
        saved_entries(*final(m)) == saved_entries(*old(m)).insert(name@, sequence@),
{
    m.insert(name, sequence);
}

/// `bevy_platform`'s `HashMap::clone`: a map with the same names, each
/// mapped to a clone of its sequence (`SavedSequence::clone`, which keeps
/// the view).
#[verifier::external_body]
fn entries_clone(m: &SavedMap) -> (r: SavedMap)
    ensures
        saved_entries(r) == saved_entries(*m),
{
    m.clone()
}

/// `Cow::clone` on a name: the copy has the same characters.
#[verifier::external_body]
fn clone_name(name: &Name) -> (r: Name)
    ensures
        r@ == name@,
{
    name.clone()
}

/// std's `TypeId` equality: true exactly when both identify the same type.
#[verifier::external_body]
fn same_type(a: TypeId, b: TypeId) -> (r: bool)
    ensures
        r == (a == b),
{
    a == b
}

/// Whether two type records disagree: both known, and different.
pub open spec fn types_differ(a: Option<TypeId>, b: Option<TypeId>) -> bool {
    a is Some && b is Some && a->0 != b->0
}

/// Whether two type records disagree (see `types_differ`).
fn type_records_differ(a: Option<TypeId>, b: Option<TypeId>) -> (r: bool)
    ensures
        r == types_differ(a, b),
{
    match (a, b) {
        (Some(x), Some(y)) => !same_type(x, y),
        _ => false,
    }
}

/// The saved trees of all sequences, by name.
#[derive(Debug)]
pub struct SavedSequences(SavedMap);

/// A saved tree as it is kept among the saved sequences, with the type of
/// the fragment it was saved from, where known.
#[derive(Debug)]
pub struct SavedSequence {
    nodes: SavedNode,
    ty: Option<TypeId>,
}

/// A saved sequence as a mathematical value.
pub struct SavedSequenceView {
    pub nodes: SavedNodeView,
    pub ty: Option<TypeId>,
}

impl View for SavedSequence {
    type V = SavedSequenceView;

    closed spec fn view(&self) -> SavedSequenceView {
        SavedSequenceView { nodes: self.nodes@, ty: self.ty }
    }
}

impl Clone for SavedSequence {
    fn clone(&self) -> (r: SavedSequence)
        ensures
            r@ == self@,
    {
        SavedSequence { nodes: self.nodes.clone(), ty: self.ty }
    }
}

impl View for SavedSequences {
    type V = Map<Seq<char>, SavedSequenceView>;

    closed spec fn view(&self) -> Map<Seq<char>, SavedSequenceView> {
        saved_entries(self.0)
    }
}

impl Default for SavedSequences {
    fn default() -> (s: SavedSequences)
        ensures
            s@ == nothing_saved(),
    {
        SavedSequences(entries_empty())
    }
}

impl Clone for SavedSequences {
    fn clone(&self) -> (r: SavedSequences)
        ensures
            r@ == self@,
    {
        SavedSequences(entries_clone(&self.0))
    }
}

/// Whether saving a sequence of type `ty` under `name` meets a sequence of
/// another type saved there: one name used for two distinct sequences.
pub open spec fn name_reused(
    saved: Map<Seq<char>, SavedSequenceView>,
    name: Seq<char>,
    ty: Option<TypeId>,
) -> bool {
    saved.dom().contains(name) && types_differ(saved[name].ty, ty)
}

impl SavedSequences {
    /// A copy of the tree saved under `name`, if there is one.
    pub fn get(&self, name: &Cow<'static, str>) -> (r: Option<SavedNode>)
        ensures
            r is Some <==> self@.dom().contains(name@),
            r matches Some(n) ==> n@ == self@[name@].nodes,
    {
        match entries_get(&self.0, name) {
            Some(s) => Some(s.nodes.clone()),
            None => None,
        }
    }

    /// Saves `nodes`, from a sequence of type `ty`, under `name`, in place of
    /// what was saved there. Tells whether that was a sequence of another
    /// type (see `name_reused`).
    pub fn store(&mut self, name: Cow<'static, str>, nodes: SavedNode, ty: Option<TypeId>) -> (reused:
        bool)
        ensures
            final(self)@ == old(self)@.insert(name@, SavedSequenceView { nodes: nodes@, ty }),
            reused == name_reused(old(self)@, name@, ty),
    {
        let reused = match entries_get(&self.0, &name) {
            Some(s) => type_records_differ(s.ty, ty),
            None => false,
        };
        entries_insert(&mut self.0, name, SavedSequence { nodes, ty });
        reused
    }
}

/// The saving state of a sequence: the name it is saved under, the tree
/// last saved or loaded for it, and the type of the fragment it saves,
/// where known.
#[derive(Debug)]
pub struct SequenceState {
    name: Cow<'static, str>,
    nodes: Option<SavedNode>,
    ty: Option<TypeId>,
}

/// A sequence's saving state as a mathematical value.
pub struct SequenceStateView {
    pub name: Seq<char>,
    pub nodes: Option<SavedNodeView>,
    pub ty: Option<TypeId>,
}

impl View for SequenceState {
    type V = SequenceStateView;

    closed spec fn view(&self) -> SequenceStateView {
        SequenceStateView {
            name: self.name@,
            nodes: match self.nodes {
                Some(n) => Some(n@),
                None => None,
            },
            ty: self.ty,
        }
    }
}

impl Clone for SequenceState {
    fn clone(&self) -> (r: SequenceState)
        ensures
            r@ == self@,
    {
        SequenceState {
            name: clone_name(&self.name),
            nodes: match &self.nodes {
                Some(n) => Some(n.clone()),
                None => None,
            },
            ty: self.ty,
        }
    }
}

/// The tree a sequence restores from: its own, or else the one saved under
/// its name, if any.
pub open spec fn tree_to_load(q: SequenceStateView, saved: Map<Seq<char>, SavedSequenceView>) -> Option<
    SavedNodeView,
> {
    match q.nodes {
        Some(n) => Some(n),
        None => if saved.dom().contains(q.name) {
            Some(saved[q.name].nodes)
        } else {
            None
        },
    }
}

/// The tree a sequence saves: its own tree (or an empty one) with the
/// hierarchy below `root` saved into it.
pub open spec fn tree_to_save(
    q: SequenceStateView,
    kids: Seq<Option<Seq<usize>>>,
    st: Seq<Option<FragmentStateView>>,
    root: int,
) -> SavedNodeView {
    gathered(
        kids,
        st,
        root,
        match q.nodes {
            Some(n) => n,
            None => empty_saved(),
        },
    )
}

impl SequenceState {
    /// The state of a sequence saved under `name`, saving a fragment of type
    /// `ty` where known, that has loaded nothing yet.
    pub fn new(name: Cow<'static, str>, ty: Option<TypeId>) -> (q: SequenceState)
        ensures
            q@ == (SequenceStateView { name: name@, nodes: None, ty }),
    {
        SequenceState { name, nodes: None, ty }
    }

    /// The name the sequence is saved under.
    pub fn name(&self) -> (n: &Name)
        ensures
            n@ == self@.name,
    {
        &self.name
    }

    /// Restores the hierarchy below `root` when the sequence appears: from
    /// the sequence's own tree, or else from the one saved under its name,
    /// which the sequence then keeps. Returns the differences in shape met.
    pub fn load(&mut self, saved: &SavedSequences, tree: &mut Hierarchy, root: usize) -> (report: Vec<
        Mismatch,
    >)
        requires
            old(tree).wf(),
        ensures
            final(self)@ == (SequenceStateView {
                nodes: tree_to_load(old(self)@, saved@),
                ..old(self)@
            }),
            final(tree).wf(),
            final(tree).structure() == old(tree).structure(),
            final(tree).parents() == old(tree).parents(),
            match tree_to_load(old(self)@, saved@) {
                Some(n) => {
                    &&& final(tree).states() == applied(
                        old(tree).structure(),
                        old(tree).states(),
                        root as int,
                        n,
                    ).0
                    &&& report@ == applied(
                        old(tree).structure(),
                        old(tree).states(),
                        root as int,
                        n,
                    ).1
                },
                None => final(tree).states() == old(tree).states() && report@.len() == 0,
            },
    {
        if self.nodes.is_none() {
            self.nodes = saved.get(&self.name);
        }
        let mut report: Vec<Mismatch> = Vec::new();
        match &self.nodes {
            Some(n) => {
                tree.apply_saved_state(root, n, &mut report);
                proof {
                    assert(report@ =~= applied(
                        old(tree).structure(),
                        old(tree).states(),
                        root as int,
                        n@,
                    ).1);
                }
            },
            None => {},
        }
        report
    }

    /// Saves the hierarchy below `root` into the sequence's tree and stores
    /// a copy of that tree, with the sequence's type, under the sequence's
    /// name. Tells whether that name held a sequence of another type, which
    /// is then replaced (see `name_reused`).
    pub fn sync(&mut self, tree: &Hierarchy, root: usize, saved: &mut SavedSequences) -> (reused: bool)
        requires
            tree.wf(),
        ensures
            final(self)@ == (SequenceStateView {
                nodes: Some(tree_to_save(old(self)@, tree.structure(), tree.states(), root as int)),
                ..old(self)@
            }),
            final(saved)@ == old(saved)@.insert(
                old(self)@.name,
                SavedSequenceView {
                    nodes: tree_to_save(old(self)@, tree.structure(), tree.states(), root as int),
                    ty: old(self)@.ty,
                },
            ),
            reused == name_reused(old(saved)@, old(self)@.name, old(self)@.ty),
    {
        let mut state = match self.nodes.take() {
            Some(n) => n,
            None => SavedNode::default(),
        };
        tree.get_saved_state(root, &mut state);
        let copy = state.clone();
        self.nodes = Some(state);
        saved.store(clone_name(&self.name), copy, self.ty)
    }
}

/// Saving a sequence from one hierarchy and then loading a sequence of the
/// same name that has loaded nothing yet into a hierarchy of the same shape
/// (the same children and parents, and a state at the same entities) gives
/// the loading sequence the saved tree, and every entity reached from the
/// root the state it had when it was saved; the other entities keep theirs.
pub proof fn law_sync_then_load(
    q: SequenceStateView,
    kids: Seq<Option<Seq<usize>>>,
    parents: Seq<Option<usize>>,
    st: Seq<Option<FragmentStateView>>,
    into: Seq<Option<FragmentStateView>>,
    root: int,
    saved: Map<Seq<char>, SavedSequenceView>,
)
    requires
        is_forest(kids, parents),
        st.len() == kids.len(),
        same_pattern(into, st),
    ensures
        ({
            let stored = saved.insert(
                q.name,
                SavedSequenceView { nodes: tree_to_save(q, kids, st, root), ty: q.ty },
            );
            let fresh = SequenceStateView { name: q.name, nodes: None, ty: q.ty };
            &&& tree_to_load(fresh, stored) == Some(tree_to_save(q, kids, st, root))
            &&& applied(kids, into, root, tree_to_save(q, kids, st, root)).0 == restored(
                parents,
                st,
                into,
                root,
            )
        }),
{
    law_restore_into_same_shape(
        kids,
        parents,
        st,
        into,
        root,
        match q.nodes {
            Some(n) => n,
            None => empty_saved(),
        },
    );
}


/// Syncing a sequence twice, with nothing changed in between, leaves its
/// tree and the saved sequences as the first sync left them.
pub proof fn law_sync_twice(
    q: SequenceStateView,
    kids: Seq<Option<Seq<usize>>>,
    parents: Seq<Option<usize>>,
    st: Seq<Option<FragmentStateView>>,
    root: int,
    saved: Map<Seq<char>, SavedSequenceView>,
)
    requires
        is_forest(kids, parents),
        st.len() == kids.len(),
    ensures
        ({
            let t1 = tree_to_save(q, kids, st, root);
            let q1 = SequenceStateView { nodes: Some(t1), ..q };
            let saved1 = saved.insert(q.name, SavedSequenceView { nodes: t1, ty: q.ty });
            &&& tree_to_save(q1, kids, st, root) == t1
            &&& saved1.insert(
                q1.name,
                SavedSequenceView { nodes: tree_to_save(q1, kids, st, root), ty: q1.ty },
            ) == saved1
        }),
{
    let s0 = match q.nodes {
        Some(n) => n,
        None => empty_saved(),
    };
    law_save_twice(kids, parents, st, root, s0);
    let t1 = tree_to_save(q, kids, st, root);
    let saved1 = saved.insert(q.name, SavedSequenceView { nodes: t1, ty: q.ty });
    assert(saved1.insert(q.name, SavedSequenceView { nodes: t1, ty: q.ty }) =~= saved1);
}

/// The tree that sequence `q` saves from hierarchy `h`, whose entity 0 is
/// the sequence's root.
pub open spec fn synced_tree(q: SequenceStateView, h: Hierarchy) -> SavedNodeView {
    tree_to_save(q, h.structure(), h.states(), 0)
}

/// What sequence `q` stores, once synced from hierarchy `h`: its tree and
/// its type.
pub open spec fn synced_entry(q: SequenceStateView, h: Hierarchy) -> SavedSequenceView {
    SavedSequenceView { nodes: synced_tree(q, h), ty: q.ty }
}

/// The saved sequences after syncing the first `k` sequences of `qs`, in
/// order, each from the hierarchy at the same place in `hs`: each stores
/// its entry under its name, in place of what was there.
pub open spec fn stored_after(
    saved: Map<Seq<char>, SavedSequenceView>,
    qs: Seq<SequenceStateView>,
    hs: Seq<Hierarchy>,
    k: int,
) -> Map<Seq<char>, SavedSequenceView>
    decreases k,
{
    if k <= 0 {
        saved
    } else {
        stored_after(saved, qs, hs, k - 1).insert(qs[k - 1].name, synced_entry(qs[k - 1], hs[k - 1]))
    }
}

/// The states of a list of sequences, element by element.
pub open spec fn sequence_views(qs: Seq<SequenceState>) -> Seq<SequenceStateView> {
    Seq::new(qs.len(), |j: int| qs[j]@)
}

/// Syncs every sequence, in order: sequence `j` saves the hierarchy
/// `trees[j]` below its root, entity 0 (see `SequenceState::sync`). Tells,
/// for each sequence, whether its name held a sequence of another type
/// when its turn came.
pub fn sync_all(
    sequences: &mut Vec<SequenceState>,
    trees: &Vec<Hierarchy>,
    saved: &mut SavedSequences,
) -> (reused: Vec<bool>)
    requires
        trees@.len() == old(sequences)@.len(),
        forall|j: int| 0 <= j < trees@.len() ==> (#[trigger] trees@[j]).wf(),
    ensures
        final(sequences)@.len() == old(sequences)@.len(),
        forall|j: int|
            0 <= j < old(sequences)@.len() ==> (#[trigger] final(sequences)@[j])@ == (
            SequenceStateView {
                nodes: Some(synced_tree(old(sequences)@[j]@, trees@[j])),
                ..old(sequences)@[j]@
            }),
        final(saved)@ == stored_after(
            old(saved)@,
            sequence_views(old(sequences)@),
            trees@,
            old(sequences)@.len() as int,
        ),
        reused@.len() == old(sequences)@.len(),
        forall|j: int|
            0 <= j < old(sequences)@.len() ==> #[trigger] reused@[j] == name_reused(
                stored_after(old(saved)@, sequence_views(old(sequences)@), trees@, j),
                old(sequences)@[j]@.name,
                old(sequences)@[j]@.ty,
            ),
{
    let ghost qs = sequence_views(old(sequences)@);
    let ghost saved0 = saved@;
    let n = sequences.len();
    let mut out: Vec<SequenceState> = Vec::new();
    let mut reused: Vec<bool> = Vec::new();
    for j in 0..n
        invariant
            n == sequences@.len(),
            sequences@ == old(sequences)@,
            qs == sequence_views(old(sequences)@),
            trees@.len() == n,
            forall|m: int| 0 <= m < trees@.len() ==> (#[trigger] trees@[m]).wf(),
            out@.len() == j,
            reused@.len() == j,
            forall|m: int|
                0 <= m < j ==> (#[trigger] out@[m])@ == (SequenceStateView {
                    nodes: Some(synced_tree(qs[m], trees@[m])),
                    ..qs[m]
                }),
            forall|m: int|
                0 <= m < j ==> #[trigger] reused@[m] == name_reused(
                    stored_after(saved0, qs, trees@, m),
                    qs[m].name,
                    qs[m].ty,
                ),
            saved@ == stored_after(saved0, qs, trees@, j as int),
    {
        let mut q = sequences[j].clone();
        assert(trees@[j as int].wf());
        let r = q.sync(&trees[j], 0, saved);
        out.push(q);
        reused.push(r);
    }
    *sequences = out;
    reused
}

/// Syncing all sequences, with pairwise distinct names, leaves under each
/// sequence's name exactly what that sequence stored: the tree it saved
/// from its hierarchy, with its type.
pub proof fn law_sync_all_entries(
    saved: Map<Seq<char>, SavedSequenceView>,
    qs: Seq<SequenceStateView>,
    hs: Seq<Hierarchy>,
)
    requires
        hs.len() == qs.len(),
        forall|a: int, b: int| 0 <= a < b < qs.len() ==> #[trigger] qs[a].name != #[trigger] qs[b].name,
    ensures
        forall|j: int|
            0 <= j < qs.len() ==> {
                &&& stored_after(saved, qs, hs, qs.len() as int).dom().contains(#[trigger] qs[j].name)
                &&& stored_after(saved, qs, hs, qs.len() as int)[qs[j].name] == synced_entry(qs[j], hs[j])
            },
{
    assert forall|j: int| 0 <= j < qs.len() implies {
        &&& stored_after(saved, qs, hs, qs.len() as int).dom().contains(#[trigger] qs[j].name)
        &&& stored_after(saved, qs, hs, qs.len() as int)[qs[j].name] == synced_entry(qs[j], hs[j])
    } by {
        lemma_entry_stays(saved, qs, hs, j, qs.len() as int);
    }
}

/// Once sequence `j` has stored its entry, sequences after it with other
/// names leave that entry alone.
proof fn lemma_entry_stays(
    saved: Map<Seq<char>, SavedSequenceView>,
    qs: Seq<SequenceStateView>,
    hs: Seq<Hierarchy>,
    j: int,
    k: int,
)
    requires
        0 <= j < k <= qs.len(),
        forall|a: int, b: int| 0 <= a < b < qs.len() ==> #[trigger] qs[a].name != #[trigger] qs[b].name,
    ensures
        stored_after(saved, qs, hs, k).dom().contains(qs[j].name),
        stored_after(saved, qs, hs, k)[qs[j].name] == synced_entry(qs[j], hs[j]),
    decreases k,
{
    if k > j + 1 {
        lemma_entry_stays(saved, qs, hs, j, k - 1);
        assert(qs[j].name != qs[k - 1].name);
    }
}

/// Syncing the first `k` sequences stores over `saved` what they would
/// store over nothing.
proof fn lemma_stored_over(
    saved: Map<Seq<char>, SavedSequenceView>,
    qs: Seq<SequenceStateView>,
    hs: Seq<Hierarchy>,
    k: int,
)
    ensures
        stored_after(saved, qs, hs, k) == saved.union_prefer_right(
            stored_after(Map::empty(), qs, hs, k),
        ),
    decreases k,
{
    if k > 0 {
        lemma_stored_over(saved, qs, hs, k - 1);
        assert(stored_after(saved, qs, hs, k) =~= saved.union_prefer_right(
            stored_after(Map::empty(), qs, hs, k),
        ));
    } else {
        assert(saved =~= saved.union_prefer_right(Map::<Seq<char>, SavedSequenceView>::empty()));
    }
}

/// Two lists of sequences that store the same entries under the same names
/// store the same saved sequences.
proof fn lemma_stored_same(
    qs1: Seq<SequenceStateView>,
    qs2: Seq<SequenceStateView>,
    hs: Seq<Hierarchy>,
    k: int,
)
    requires
        k <= qs1.len(),
        qs1.len() == qs2.len(),
        forall|j: int|
            0 <= j < k ==> (#[trigger] qs1[j]).name == qs2[j].name && synced_entry(qs1[j], hs[j])
                == synced_entry(qs2[j], hs[j]),
    ensures
        stored_after(Map::empty(), qs1, hs, k) == stored_after(Map::empty(), qs2, hs, k),
    decreases k,
{
    if k > 0 {
        lemma_stored_same(qs1, qs2, hs, k - 1);
        assert(qs1[k - 1].name == qs2[k - 1].name);
    }
}

/// Syncing all sequences twice, with nothing changed in between, leaves
/// every sequence's tree and the saved sequences as the first run left
/// them.
pub proof fn law_sync_all_twice(
    saved: Map<Seq<char>, SavedSequenceView>,
    qs: Seq<SequenceStateView>,
    hs: Seq<Hierarchy>,
)
    requires
        hs.len() == qs.len(),
        forall|j: int| 0 <= j < hs.len() ==> (#[trigger] hs[j]).wf(),
    ensures
        ({
            let qs1 = Seq::new(
                qs.len(),
                |j: int| SequenceStateView { nodes: Some(synced_tree(qs[j], hs[j])), ..qs[j] },
            );
            let saved1 = stored_after(saved, qs, hs, qs.len() as int);
            &&& forall|j: int|
                0 <= j < qs.len() ==> #[trigger] synced_tree(qs1[j], hs[j]) == synced_tree(qs[j], hs[j])
            &&& stored_after(saved1, qs1, hs, qs.len() as int) == saved1
        }),
{
    let n = qs.len() as int;
    let qs1 = Seq::new(
        qs.len(),
        |j: int| SequenceStateView { nodes: Some(synced_tree(qs[j], hs[j])), ..qs[j] },
    );
    let saved1 = stored_after(saved, qs, hs, n);
    assert forall|j: int| 0 <= j < qs.len() implies #[trigger] synced_tree(qs1[j], hs[j])
        == synced_tree(qs[j], hs[j]) by {
        assert(hs[j].wf());
        assert(hs[j].states().len() == hs[j].structure().len());
        law_sync_twice(qs[j], hs[j].structure(), hs[j].parents(), hs[j].states(), 0, saved);
    }
    assert forall|j: int| 0 <= j < n implies (#[trigger] qs1[j]).name == qs[j].name && synced_entry(
        qs1[j],
        hs[j],
    ) == synced_entry(qs[j], hs[j]) by {
        assert(synced_tree(qs1[j], hs[j]) == synced_tree(qs[j], hs[j]));
    }
    lemma_stored_same(qs1, qs, hs, n);
    let fresh = stored_after(Map::empty(), qs, hs, n);
    lemma_stored_over(saved, qs, hs, n);
    lemma_stored_over(saved1, qs1, hs, n);
    assert(saved1.union_prefer_right(fresh) =~= saved1);
}

} // verus!
