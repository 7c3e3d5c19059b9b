//! Favorites: the nodes the user pinned out of the build tree. A node is
//! pinned at most once; toggling pins a node that is not pinned and unpins
//! one that is.

use vstd::prelude::*;
use crate::model::NodeSummary;
use crate::text::text_eq;

verus! {

/// The ids of `nodes`, in order.
pub open spec fn ids(nodes: Seq<NodeSummary>) -> Seq<Seq<char>> {
    nodes.map_values(|n: NodeSummary| n.id@)
}

/// No two of `nodes` share an id.
pub open spec fn distinct_ids(nodes: Seq<NodeSummary>) -> bool {
    forall|i: int, j: int| 0 <= i < j < nodes.len() ==> (#[trigger] nodes[i]).id@ != (#[trigger] nodes[j]).id@
}

/// Where the node with `id` is among `nodes`.
pub open spec fn position_of(nodes: Seq<NodeSummary>, id: Seq<char>) -> Option<int> {
    if exists|i: int| 0 <= i < nodes.len() && (#[trigger] nodes[i]).id@ == id {
        Some(choose|i: int| 0 <= i < nodes.len() && (#[trigger] nodes[i]).id@ == id)
    } else {
        None
    }
}

/// The favorites after toggling `node`: pinned at the end when it was not
/// pinned, taken out where it was otherwise.
pub open spec fn toggled(nodes: Seq<NodeSummary>, node: NodeSummary) -> Seq<NodeSummary> {
    match position_of(nodes, node.id@) {
        Some(p) => nodes.remove(p),
        None => nodes.push(node),
    }
}

/// Toggling a node that is not pinned twice gives back the same favorites.
pub proof fn lemma_toggle_twice_restores(nodes: Seq<NodeSummary>, node: NodeSummary)
    requires
        distinct_ids(nodes),
        position_of(nodes, node.id@) is None,
    ensures
        toggled(toggled(nodes, node), node) == nodes,
{
    let once = nodes.push(node);
    assert(once[nodes.len() as int].id@ == node.id@);
    let p = choose|i: int| 0 <= i < once.len() && (#[trigger] once[i]).id@ == node.id@;
    if p < nodes.len() {
        assert(once[p] == nodes[p]);
    }
    assert(once.remove(nodes.len() as int) =~= nodes);
}

/// Toggling a pinned node twice keeps the same ids pinned.
pub proof fn lemma_toggle_twice_keeps_ids(nodes: Seq<NodeSummary>, node: NodeSummary)
    requires
        distinct_ids(nodes),
        position_of(nodes, node.id@) is Some,
    ensures
        ids(toggled(toggled(nodes, node), node)).to_set() == ids(nodes).to_set(),
{
    let p = position_of(nodes, node.id@)->0;
    let once = nodes.remove(p);
    assert forall|j: int| 0 <= j < once.len() implies (#[trigger] once[j]).id@ != node.id@ by {
        let b = if j < p { j } else { j + 1 };
        assert(once[j] == nodes[b]);
    }
    assert(position_of(once, node.id@) is None);
    let twice = once.push(node);
    assert(toggled(once, node) == twice);
    assert forall|x: Seq<char>| ids(twice).to_set().contains(x) <==> ids(nodes).to_set().contains(x) by {
        if ids(twice).to_set().contains(x) {
            let j = choose|j: int| 0 <= j < ids(twice).len() && ids(twice)[j] == x;
            if j == once.len() {
                assert(ids(nodes)[p] == x);
            } else {
                let b = if j < p { j } else { j + 1 };
                assert(twice[j] == nodes[b]);
                assert(ids(nodes)[b] == x);
            }
        }
        if ids(nodes).to_set().contains(x) {
            let j = choose|j: int| 0 <= j < ids(nodes).len() && ids(nodes)[j] == x;
            if j == p {
                assert(ids(twice)[once.len() as int] == x);
            } else {
                let a = if j < p { j } else { j - 1 };
                assert(twice[a] == nodes[j]);
                assert(ids(twice)[a] == x);
            }
        }
    }
    assert(ids(twice).to_set() =~= ids(nodes).to_set());
}

pub struct Favorites {
    nodes: Vec<NodeSummary>,
}

impl View for Favorites {
    type V = Seq<NodeSummary>;

    closed spec fn view(&self) -> Seq<NodeSummary> {
        self.nodes@
    }
}

impl Default for Favorites {
    fn default() -> (r: Self)
        ensures
            r@.len() == 0,
    {
        Favorites { nodes: Vec::new() }
    }
}

impl Favorites {
    /// A node is pinned at most once.
    #[verifier::type_invariant]
    spec fn pinned_once(self) -> bool {
        distinct_ids(self.nodes@)
    }

    /// Every list of favorites pins each node at most once.
    pub fn has_distinct_ids(&self) -> (r: bool)
        ensures
            r,
            distinct_ids(self@),
    {
        proof {
            use_type_invariant(self);
        }
        true
    }

    /// Where the node with `id` is, if it is pinned.
    fn find(&self, id: &str) -> (r: Option<usize>)
        ensures
            r matches Some(i) ==> i < self@.len() && self@[i as int].id@ == id@,
            r is None ==> position_of(self@, id@) is None,
    {
        let mut i: usize = 0;
        while i < self.nodes.len()
            invariant
                i <= self@.len(),
                self@ == self.nodes@,
                forall|j: int| 0 <= j < i ==> (#[trigger] self@[j]).id@ != id@,
            decreases self.nodes.len() - i,
        {
            if text_eq(self.nodes[i].id.as_str(), id) {
                return Some(i);
            }
            i += 1;
        }
        None
    }

    pub fn contains(&self, id: &str) -> (r: bool)
        ensures
            r == ids(self@).contains(id@),
            r == (position_of(self@, id@) is Some),
    {
        match self.find(id) {
            Some(i) => {
                assert(ids(self@)[i as int] == id@);
                true
            },
            None => {
                assert forall|j: int| 0 <= j < ids(self@).len() implies ids(self@)[j] != id@ by {
                    assert(self@[j].id@ != id@);
                }
                false
            },
        }
    }

    pub fn nodes(&self) -> (r: &[NodeSummary])
        ensures
            r@ == self@,
    {
        self.nodes.as_slice()
    }

    /// Pins `node`, or unpins it when it is pinned already. Returns whether
    /// the node is a favorite afterwards.
    pub fn toggle(&mut self, node: NodeSummary) -> (added: bool)
        ensures
            added == (position_of(old(self)@, node.id@) is None),
            final(self)@ == toggled(old(self)@, node),
            added == ids(final(self)@).contains(node.id@),
    {
        proof {
            use_type_invariant(&*self);
        }
        let ghost before = self.nodes@;
        match self.find(node.id.as_str()) {
            Some(ix) => {
                proof {
                    let p = choose|i: int| 0 <= i < before.len() && (#[trigger] before[i]).id@ == node.id@;
                    if p != ix {
                        assert(before[p].id@ == before[ix as int].id@);
                    }
                }
                let mut nodes: Vec<NodeSummary> = Vec::new();
                std::mem::swap(&mut nodes, &mut self.nodes);
                nodes.remove(ix);
                assert forall|i: int, j: int| 0 <= i < j < nodes@.len() implies (#[trigger] nodes@[i]).id@
                    != (#[trigger] nodes@[j]).id@ by {
                    let a = if i < ix { i } else { i + 1 };
                    let b = if j < ix { j } else { j + 1 };
                    assert(nodes@[i] == before[a] && nodes@[j] == before[b]);
                }
                assert forall|j: int| 0 <= j < ids(nodes@).len() implies ids(nodes@)[j] != node.id@ by {
                    let b = if j < ix { j } else { j + 1 };
                    assert(nodes@[j] == before[b]);
                    assert(before[ix as int].id@ == node.id@);
                }
                self.nodes = nodes;
                false
            },
            None => {
                let mut nodes: Vec<NodeSummary> = Vec::new();
                std::mem::swap(&mut nodes, &mut self.nodes);
                nodes.push(node);
                assert forall|i: int, j: int| 0 <= i < j < nodes@.len() implies (#[trigger] nodes@[i]).id@
                    != (#[trigger] nodes@[j]).id@ by {
                    if j == before.len() {
                        assert(before[i].id@ != node.id@);
                    } else {
                        assert(nodes@[i] == before[i] && nodes@[j] == before[j]);
                    }
                }
                assert(ids(nodes@)[before.len() as int] == node.id@);
                self.nodes = nodes;
                true
            },
        }
    }

    /// Unpins the node with `id`, if it is pinned.
    pub fn remove(&mut self, id: &str)
        ensures
            position_of(old(self)@, id@) matches Some(p) ==> final(self)@ == old(self)@.remove(p),
            position_of(old(self)@, id@) is None ==> final(self)@ == old(self)@,
            !ids(final(self)@).contains(id@),
    {
        proof {
            use_type_invariant(&*self);
        }
        let ghost before = self.nodes@;
        match self.find(id) {
            Some(ix) => {
                proof {
                    let p = choose|i: int| 0 <= i < before.len() && (#[trigger] before[i]).id@ == id@;
                    if p != ix {
                        assert(before[p].id@ == before[ix as int].id@);
                    }
                }
                let mut nodes: Vec<NodeSummary> = Vec::new();
                std::mem::swap(&mut nodes, &mut self.nodes);
                nodes.remove(ix);
                assert forall|i: int, j: int| 0 <= i < j < nodes@.len() implies (#[trigger] nodes@[i]).id@
                    != (#[trigger] nodes@[j]).id@ by {
                    let a = if i < ix { i } else { i + 1 };
                    let b = if j < ix { j } else { j + 1 };
                    assert(nodes@[i] == before[a] && nodes@[j] == before[b]);
                }
                assert forall|j: int| 0 <= j < ids(nodes@).len() implies ids(nodes@)[j] != id@ by {
                    let b = if j < ix { j } else { j + 1 };
                    assert(nodes@[j] == before[b]);
                    assert(before[ix as int].id@ == id@);
                }
                self.nodes = nodes;
            },
            None => {
                assert forall|j: int| 0 <= j < ids(before).len() implies ids(before)[j] != id@ by {
                    if before[j].id@ == id@ {
                        assert(position_of(before, id@) is Some);
                    }
                }
            },
        }
    }
}

} // verus!
