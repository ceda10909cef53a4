//! The state of the graph editor's window: the graph being edited and the stacking order
//! of its nodes on screen, back to front.

use vstd::prelude::*;
use crate::flow::{Graph, NodeId};

verus! {

/// The editor's model: the graph, and the order in which its nodes are drawn (the last one
/// is in front).
pub struct Model {
    pub graph: Graph,
    pub node_z: Vec<NodeId>,
}

/// The stacking order after bringing it up to date with the graph's nodes: entries whose
/// node left the graph are dropped, the others keep their order, and nodes not yet in it
/// are added at the front, in the order in which they joined the graph.
pub open spec fn updated_depth(z: Seq<NodeId>, nodes: Seq<NodeId>) -> Seq<NodeId> {
    z.filter(|n: NodeId| nodes.contains(n)) + nodes.filter(|n: NodeId| !z.contains(n))
}

/// The position, from the back, of the frontmost entry of `z` whose node is in the graph
/// and hit by the pointer; `hits[k]` tells whether the pointer is over entry `k`.
pub open spec fn frontmost_hit(z: Seq<NodeId>, nodes: Seq<NodeId>, hits: Seq<bool>, k: int) -> Option<int>
    decreases k,
{
    if k <= 0 {
        None
    } else if hits[k - 1] && nodes.contains(z[k - 1]) {
        Some(k - 1)
    } else {
        frontmost_hit(z, nodes, hits, k - 1)
    }
}

impl Model {
    /// The model of an empty editor.
    pub fn new() -> (m: Model)
        ensures
            m.graph.wf(),
            m.graph.next_id() == 0,
            m.graph.node_ids() == Seq::<NodeId>::empty(),
            m.node_z@ == Seq::<NodeId>::empty(),
    {
        Model { graph: Graph::new(), node_z: Vec::new() }
    }

    /// Brings the stacking order up to date with the nodes of the graph.
    pub fn update_depth(&mut self)
        ensures
            final(self).graph == old(self).graph,
            final(self).node_z@ == updated_depth(old(self).node_z@, old(self).graph.node_ids()),
    {
        let nodes = self.graph.nodes();
        let ghost ids = self.graph.node_ids();
        let ghost z = self.node_z@;
        let mut kept: Vec<NodeId> = Vec::new();
        let mut i: usize = 0;
        while i < self.node_z.len()
            invariant
                i <= z.len(),
                self.node_z@ == z,
                ids == self.graph.node_ids(),
                nodes@.len() == ids.len(),
                forall|k: int| 0 <= k < nodes@.len() ==> #[trigger] nodes@[k].id == ids[k],
                kept@ == z.take(i as int).filter(|n: NodeId| ids.contains(n)),
            decreases z.len() - i,
        {
            let id = self.node_z[i];
            proof {
                assert(z.take(i as int + 1).drop_last() == z.take(i as int));
                reveal_with_fuel(Seq::filter, 1);
            }
            let present = contains_node(&nodes, id);
            proof {
                if present {
                    let k = choose|k: int| 0 <= k < nodes@.len() && #[trigger] nodes@[k].id == id;
                    assert(ids[k] == id);
                }
                if ids.contains(id) {
                    let k = choose|k: int| 0 <= k < ids.len() && ids[k] == id;
                    assert(nodes@[k].id == id);
                }
                assert(present == ids.contains(id));
            }
            if present {
                kept.push(id);
            }
            i = i + 1;
        }
        assert(z.take(z.len() as int) == z);
        let mut added: Vec<NodeId> = Vec::new();
        let mut j: usize = 0;
        while j < nodes.len()
            invariant
                j <= nodes@.len(),
                self.node_z@ == z,
                nodes@.len() == ids.len(),
                forall|k: int| 0 <= k < nodes@.len() ==> #[trigger] nodes@[k].id == ids[k],
                added@ == ids.take(j as int).filter(|n: NodeId| !z.contains(n)),
            decreases nodes@.len() - j,
        {
            let id = nodes[j].id;
            proof {
                assert(ids.take(j as int + 1).drop_last() == ids.take(j as int));
                reveal_with_fuel(Seq::filter, 1);
            }
            if !contains_id(&self.node_z, id) {
                added.push(id);
            }
            j = j + 1;
        }
        assert(ids.take(ids.len() as int) == ids);
        let mut result = kept;
        let mut k: usize = 0;
        let ghost kept_view = result@;
        while k < added.len()
            invariant
                k <= added@.len(),
                result@ == kept_view + added@.take(k as int),
            decreases added@.len() - k,
        {
            result.push(added[k]);
            assert(added@.take(k as int + 1) == added@.take(k as int).push(added@[k as int]));
            k = k + 1;
        }
        assert(added@.take(added@.len() as int) == added@);
        self.node_z = result;
    }

    /// A press of the left button: the frontmost node under the pointer, if any, is moved
    /// to the front and returned. `hits[k]` tells whether the pointer is over the node at
    /// position `k` of the stacking order.
    pub fn press(&mut self, hits: &[bool]) -> (r: Option<NodeId>)
        requires
            hits@.len() == old(self).node_z@.len(),
        ensures
            final(self).graph == old(self).graph,
            match frontmost_hit(old(self).node_z@, old(self).graph.node_ids(), hits@, hits@.len() as int) {
                Some(k) => {
                    &&& r == Some(old(self).node_z@[k])
                    &&& final(self).node_z@ == old(self).node_z@.remove(k).push(old(self).node_z@[k])
                },
                None => r is None && final(self).node_z@ == old(self).node_z@,
            },
    {
        let ghost z = self.node_z@;
        let ghost ids = self.graph.node_ids();
        let ghost g0 = self.graph;
        let mut idx: usize = self.node_z.len();
        while idx > 0
            invariant
                g0 == old(self).graph,
                z == old(self).node_z@,
                self.graph == g0,
                idx <= z.len(),
                z.len() == hits@.len(),
                self.node_z@ == z,
                ids == self.graph.node_ids(),
                frontmost_hit(z, ids, hits@, z.len() as int) == frontmost_hit(z, ids, hits@, idx as int),
            decreases idx,
        {
            let id = self.node_z[idx - 1];
            if hits[idx - 1] && self.graph.node(id).is_some() {
                let k = idx - 1;
                assert(frontmost_hit(z, ids, hits@, idx as int) == Some(k as int));
                let removed = self.node_z.remove(k);
                self.node_z.push(removed);
                return Some(removed);
            }
            idx = idx - 1;
        }
        None
    }
}

fn contains_node(nodes: &Vec<crate::flow::Node>, id: NodeId) -> (r: bool)
    ensures
        r == exists|k: int| 0 <= k < nodes@.len() && #[trigger] nodes@[k].id == id,
{
    let mut i: usize = 0;
    while i < nodes.len()
        invariant
            i <= nodes@.len(),
            forall|k: int| 0 <= k < i ==> #[trigger] nodes@[k].id != id,
        decreases nodes@.len() - i,
    {
        if nodes[i].id == id {
            return true;
        }
        i = i + 1;
    }
    false
}

fn contains_id(v: &Vec<NodeId>, id: NodeId) -> (r: bool)
    ensures
        r == v@.contains(id),
{
    let mut i: usize = 0;
    while i < v.len()
        invariant
            i <= v@.len(),
            forall|k: int| 0 <= k < i ==> v@[k] != id,
        decreases v@.len() - i,
    {
        if v[i] == id {
            return true;
        }
        i = i + 1;
    }
    false
}

proof fn lemma_filter_no_duplicates(s: Seq<NodeId>, p: spec_fn(NodeId) -> bool)
    requires
        s.no_duplicates(),
    ensures
        s.filter(p).no_duplicates(),
    decreases s.len(),
{
    reveal(Seq::filter);
    if s.len() > 0 {
        let rest = s.drop_last();
        assert(rest.no_duplicates()) by {
            assert forall|i: int, j: int| 0 <= i < rest.len() && 0 <= j < rest.len() && i != j
                implies rest[i] != rest[j] by {
                assert(rest[i] == s[i] && rest[j] == s[j]);
            }
        }
        lemma_filter_no_duplicates(rest, p);
        if rest.filter(p).contains(s.last()) {
            rest.lemma_filter_contains_rev(p, s.last());
            let k = choose|k: int| 0 <= k < rest.len() && rest[k] == s.last();
            assert(s[k] == s[s.len() - 1]);
        }
    }
}

proof fn lemma_filter_has(s: Seq<NodeId>, p: spec_fn(NodeId) -> bool, n: NodeId)
    ensures
        s.filter(p).contains(n) <==> (s.contains(n) && p(n)),
{
    if s.filter(p).contains(n) {
        s.lemma_filter_contains_rev(p, n);
        let k = choose|k: int| 0 <= k < s.filter(p).len() && s.filter(p)[k] == n;
        s.lemma_filter_pred(p, k);
    }
    if s.contains(n) && p(n) {
        let k = choose|k: int| 0 <= k < s.len() && s[k] == n;
        s.lemma_filter_contains(p, k);
    }
}

/// Bringing the stacking order up to date lists every node of the graph exactly once and
/// nothing else, provided the order and the graph list no node twice.
pub proof fn law_depth_matches_nodes(z: Seq<NodeId>, nodes: Seq<NodeId>)
    requires
        z.no_duplicates(),
        nodes.no_duplicates(),
    ensures
        updated_depth(z, nodes).no_duplicates(),
        forall|n: NodeId| #[trigger] updated_depth(z, nodes).contains(n) <==> nodes.contains(n),
{
    let p1 = |n: NodeId| nodes.contains(n);
    let p2 = |n: NodeId| !z.contains(n);
    let a = z.filter(p1);
    let b = nodes.filter(p2);
    lemma_filter_no_duplicates(z, p1);
    lemma_filter_no_duplicates(nodes, p2);
    let r = a + b;
    assert(r == updated_depth(z, nodes));
    assert forall|n: NodeId| #[trigger] r.contains(n) <==> nodes.contains(n) by {
        lemma_filter_has(z, p1, n);
        lemma_filter_has(nodes, p2, n);
        if r.contains(n) {
            let k = choose|k: int| 0 <= k < r.len() && r[k] == n;
            if k < a.len() {
                assert(a[k] == n);
            } else {
                assert(b[k - a.len()] == n);
            }
        }
        if nodes.contains(n) {
            if z.contains(n) {
                let k = choose|k: int| 0 <= k < a.len() && a[k] == n;
                assert(r[k] == n);
            } else {
                let k = choose|k: int| 0 <= k < b.len() && b[k] == n;
                assert(r[a.len() + k] == n);
            }
        }
    }
    assert forall|i: int, j: int| 0 <= i < r.len() && 0 <= j < r.len() && i != j implies r[i] != r[j] by {
        if i < a.len() && j >= a.len() {
            lemma_filter_has(z, p1, r[i]);
            lemma_filter_has(nodes, p2, r[j]);
            assert(a.contains(r[i]));
            assert(b.contains(r[j]));
        } else if j < a.len() && i >= a.len() {
            lemma_filter_has(z, p1, r[j]);
            lemma_filter_has(nodes, p2, r[i]);
            assert(a.contains(r[j]));
            assert(b.contains(r[i]));
        } else if i < a.len() {
            assert(r[i] == a[i] && r[j] == a[j]);
        } else {
            assert(r[i] == b[i - a.len()] && r[j] == b[j - a.len()]);
        }
    }
}

proof fn lemma_filter_order(s: Seq<NodeId>, p: spec_fn(NodeId) -> bool, i: int, j: int)
    requires
        0 <= i < j < s.len(),
        p(s[i]),
        p(s[j]),
    ensures
        exists|a: int, b: int|
            0 <= a < b < s.filter(p).len() && #[trigger] s.filter(p)[a] == s[i] && #[trigger] s.filter(p)[b]
                == s[j],
    decreases s.len(),
{
    reveal(Seq::filter);
    let rest = s.drop_last();
    let sub = rest.filter(p);
    let f = s.filter(p);
    assert(f == if p(s.last()) { sub.push(s.last()) } else { sub });
    if j == s.len() - 1 {
        assert(rest[i] == s[i]);
        rest.lemma_filter_contains(p, i);
        let a = choose|a: int| 0 <= a < sub.len() && sub[a] == s[i];
        assert(f[a] == s[i]);
        assert(f[sub.len() as int] == s[j]);
    } else {
        assert(rest[i] == s[i] && rest[j] == s[j]);
        lemma_filter_order(rest, p, i, j);
        let (a, b) = choose|a: int, b: int|
            0 <= a < b < sub.len() && #[trigger] sub[a] == rest[i] && #[trigger] sub[b] == rest[j];
        assert(f[a] == s[i] && f[b] == s[j]);
    }
}

/// Bringing the stacking order up to date keeps the order of the entries that stay: if a
/// node lay behind another, it still does.
pub proof fn law_depth_keeps_order(z: Seq<NodeId>, nodes: Seq<NodeId>, i: int, j: int)
    requires
        0 <= i < j < z.len(),
        nodes.contains(z[i]),
        nodes.contains(z[j]),
    ensures
        exists|a: int, b: int|
            0 <= a < b < updated_depth(z, nodes).len() && #[trigger] updated_depth(z, nodes)[a] == z[i]
                && #[trigger] updated_depth(z, nodes)[b] == z[j],
{
    let p1 = |n: NodeId| nodes.contains(n);
    let f = z.filter(p1);
    let r = updated_depth(z, nodes);
    lemma_filter_order(z, p1, i, j);
    let (a, b) = choose|a: int, b: int|
        0 <= a < b < f.len() && #[trigger] f[a] == z[i] && #[trigger] f[b] == z[j];
    assert(r[a] == f[a] && r[b] == f[b]);
}

/// Nodes that join the graph go in front of every entry that stays: they are added after
/// the nodes already in the stacking order.
pub proof fn law_depth_new_in_front(z: Seq<NodeId>, nodes: Seq<NodeId>, x: NodeId, y: NodeId)
    requires
        z.contains(x),
        nodes.contains(x),
        nodes.contains(y),
        !z.contains(y),
    ensures
        exists|a: int, b: int|
            0 <= a < b < updated_depth(z, nodes).len() && #[trigger] updated_depth(z, nodes)[a] == x
                && #[trigger] updated_depth(z, nodes)[b] == y,
{
    let p1 = |n: NodeId| nodes.contains(n);
    let p2 = |n: NodeId| !z.contains(n);
    let f1 = z.filter(p1);
    let f2 = nodes.filter(p2);
    let r = updated_depth(z, nodes);
    lemma_filter_has(z, p1, x);
    lemma_filter_has(nodes, p2, y);
    let a = choose|a: int| 0 <= a < f1.len() && f1[a] == x;
    let b = choose|b: int| 0 <= b < f2.len() && f2[b] == y;
    assert(r[a] == x);
    assert(r[f1.len() + b] == y);
}

/// Starts the editor: the model that the window's event loop then drives.
pub fn gui_main() -> (m: Model)
    ensures
        m.graph.wf(),
        m.graph.next_id() == 0,
        m.graph.node_ids() == Seq::<NodeId>::empty(),
        m.node_z@ == Seq::<NodeId>::empty(),
{
    Model::new()
}

} // verus!
