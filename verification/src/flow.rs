//! The dataflow graph: nodes own ports, ports connect one-to-one, and data written into
//! one end of a connection is queued, byte by byte, at the other end until it is read.

use vstd::prelude::*;

verus! {

#[verifier::external_type_specification]
#[verifier::external_body]
pub struct ExTypeId(std::any::TypeId);

/// A lightweight persistent identifier for a node.
#[derive(Clone, Copy, PartialEq, Eq, Structural, Debug, Hash)]
pub struct NodeId(pub usize);

/// A lightweight persistent identifier for a port. Node and port identifiers are drawn
/// from one counter, so a port identifier is unique within the whole graph.
#[derive(Clone, Copy, PartialEq, Eq, Structural, Debug, Hash)]
pub struct PortId(pub usize);

/// Why a connection could not be made or undone.
#[derive(Clone, Copy, PartialEq, Eq, Structural, Debug)]
pub enum ConnectError {
    AlreadyConnected,
    TypeMismatch,
    NotConnected,
}

/// Error cases of graph operations.
#[derive(Clone, Copy, PartialEq, Eq, Structural, Debug)]
pub enum Error {
    NotConnected,
    InvalidNode,
    InvalidPort,
    NotAvailable,
    Disconnected,
}

/// The state of one port.
struct PortEntry {
    node: NodeId,
    name: String,
    in_ty: std::any::TypeId,
    out_ty: std::any::TypeId,
    buffer: std::collections::VecDeque<u8>,
    aborted: bool,
    edge: Option<PortId>,
}

/// Every identifier ever handed out names one slot: the interface of a node (with the
/// ports it currently lists), or a port.
enum Slot {
    Node(Vec<PortId>),
    Port(PortEntry),
}

/// A graph holds a collection of nodes. Nodes have a collection of ports. Ports can be
/// connected to each other one-to-one.
pub struct Graph {
    slots: Vec<Slot>,
    members: Vec<NodeId>,
}

impl Graph {
    /// The identifier that the next node or port will get.
    pub closed spec fn next_id(&self) -> nat {
        self.slots@.len()
    }

    /// The nodes of the graph, in the order in which they were added.
    pub closed spec fn node_ids(&self) -> Seq<NodeId> {
        self.members@
    }

    /// Whether `n` names a node interface (one that may since have left the graph).
    pub closed spec fn is_node(&self, n: NodeId) -> bool {
        n.0 < self.slots@.len() && self.slots@[n.0 as int] is Node
    }

    /// The ports that the interface of `n` currently lists.
    pub closed spec fn node_ports(&self, n: NodeId) -> Seq<PortId> {
        if self.is_node(n) {
            self.slots@[n.0 as int]->Node_0@
        } else {
            Seq::empty()
        }
    }

    /// Whether `p` names a port.
    pub closed spec fn is_port(&self, p: PortId) -> bool {
        p.0 < self.slots@.len() && self.slots@[p.0 as int] is Port
    }

    spec fn entry(&self, p: PortId) -> PortEntry {
        self.slots@[p.0 as int]->Port_0
    }

    /// The node whose interface created port `p`.
    pub closed spec fn port_node(&self, p: PortId) -> NodeId {
        self.entry(p).node
    }

    /// The name of port `p`.
    pub closed spec fn port_name(&self, p: PortId) -> Seq<char> {
        self.entry(p).name@
    }

    /// The type of the items that flow into port `p`.
    pub closed spec fn port_in_ty(&self, p: PortId) -> std::any::TypeId {
        self.entry(p).in_ty
    }

    /// The type of the items that flow out of port `p`.
    pub closed spec fn port_out_ty(&self, p: PortId) -> std::any::TypeId {
        self.entry(p).out_ty
    }

    /// The bytes queued at port `p`, oldest first.
    pub closed spec fn port_buffer(&self, p: PortId) -> Seq<u8> {
        self.entry(p).buffer@
    }

    /// Whether a disconnect of `p` happened that no read has reported yet.
    pub closed spec fn port_aborted(&self, p: PortId) -> bool {
        self.entry(p).aborted
    }

    /// The port that `p` is connected to, if any.
    pub closed spec fn port_edge(&self, p: PortId) -> Option<PortId> {
        self.entry(p).edge
    }

    /// Port `p` is the same in `self` and in `other`: it is a port in both or in neither,
    /// and if it is, its owner, name, item types, queue, disconnect flag and connection
    /// are the same.
    pub open spec fn same_port(&self, other: &Graph, p: PortId) -> bool {
        &&& self.is_port(p) == other.is_port(p)
        &&& self.is_port(p) ==> {
            &&& self.same_port_meta(other, p)
            &&& self.port_buffer(p) == other.port_buffer(p)
            &&& self.port_aborted(p) == other.port_aborted(p)
            &&& self.port_edge(p) == other.port_edge(p)
        }
    }

    /// The interface of `n` is the same in `self` and in `other`.
    pub open spec fn same_node(&self, other: &Graph, n: NodeId) -> bool {
        &&& self.is_node(n) == other.is_node(n)
        &&& self.node_ports(n) == other.node_ports(n)
    }

    spec fn slot_wf(&self, i: int) -> bool {
        match self.slots@[i] {
            Slot::Node(ports) => {
                &&& forall|k: int|
                    0 <= k < ports@.len() ==> {
                        &&& #[trigger] self.is_port(ports@[k])
                        &&& self.port_node(ports@[k]) == NodeId(i as usize)
                    }
                &&& forall|k: int, l: int|
                    0 <= k < l < ports@.len() ==> #[trigger] ports@[k] != #[trigger] ports@[l]
            },
            Slot::Port(e) => {
                &&& self.is_node(e.node)
                &&& match e.edge {
                    Some(q) => {
                        &&& self.is_port(q)
                        &&& q != PortId(i as usize)
                        &&& self.port_edge(q) == Some(PortId(i as usize))
                        &&& self.port_in_ty(q) == e.out_ty
                        &&& self.port_out_ty(q) == e.in_ty
                    },
                    None => true,
                }
            },
        }
    }

    /// The graph's invariant: connections are symmetric, listed ports exist and belong to
    /// the node that lists them, and the graph's nodes are distinct interfaces.
    pub closed spec fn wf(&self) -> bool {
        &&& self.slots@.len() <= usize::MAX
        &&& forall|i: int| 0 <= i < self.slots@.len() ==> #[trigger] self.slot_wf(i)
        &&& forall|k: int| 0 <= k < self.members@.len() ==> #[trigger] self.is_node(self.members@[k])
        &&& forall|k: int, l: int|
            0 <= k < l < self.members@.len() ==> #[trigger] self.members@[k] != #[trigger] self.members@[l]
    }

    /// Make a new empty graph.
    pub fn new() -> (g: Graph)
        ensures
            g.wf(),
            g.next_id() == 0,
            g.node_ids() == Seq::<NodeId>::empty(),
    {
        Graph { slots: Vec::new(), members: Vec::new() }
    }

    /// The identifier that the next node or port will get.
    pub fn peek_next_id(&self) -> (r: usize)
        requires
            self.wf(),
        ensures
            r == self.next_id(),
    {
        self.slots.len()
    }

    /// Construct a new node and add it to the graph; returns its interface.
    pub fn add_node(&mut self) -> (ifc: Interface)
        requires
            old(self).wf(),
            old(self).next_id() < usize::MAX,
        ensures
            final(self).wf(),
            ifc.id == NodeId(old(self).next_id() as usize),
            !old(self).is_node(ifc.id) && !old(self).is_port(PortId(ifc.id.0)),
            final(self).next_id() == old(self).next_id() + 1,
            final(self).node_ids() == old(self).node_ids().push(ifc.id),
            final(self).is_node(ifc.id),
            final(self).node_ports(ifc.id) == Seq::<PortId>::empty(),
            all_ports_kept(final(self), old(self)),
            nodes_kept(final(self), old(self), ifc.id),
    {
        let id = NodeId(self.slots.len());
        let ghost pre = *self;
        self.slots.push(Slot::Node(Vec::new()));
        self.members.push(id);
        assert forall|i: int| 0 <= i < self.slots@.len() implies #[trigger] self.slot_wf(i) by {
            if i < pre.slots@.len() {
                assert(pre.slot_wf(i));
                assert(self.slots@[i] == pre.slots@[i]);
                match self.slots@[i] {
                    Slot::Node(ports) => {
                        assert forall|k: int| 0 <= k < ports@.len() implies {
                            &&& #[trigger] self.is_port(ports@[k])
                            &&& self.port_node(ports@[k]) == NodeId(i as usize)
                        } by {
                            let q = ports@[k];
                            assert(pre.is_port(q));
                            assert(self.slots@[q.0 as int] == pre.slots@[q.0 as int]);
                        }
                    },
                    Slot::Port(e) => {
                        assert(pre.is_node(e.node));
                        assert(self.slots@[e.node.0 as int] == pre.slots@[e.node.0 as int]);
                        match e.edge {
                            Some(q) => {
                                assert(pre.is_port(q));
                                assert(self.slots@[q.0 as int] == pre.slots@[q.0 as int]);
                            },
                            None => {},
                        }
                    },
                }
            }
        }
        assert forall|k: int| 0 <= k < self.members@.len() implies #[trigger] self.is_node(self.members@[k]) by {
            if k < pre.members@.len() {
                assert(pre.is_node(pre.members@[k]));
                assert(self.slots@[pre.members@[k].0 as int] == pre.slots@[pre.members@[k].0 as int]);
            }
        }
        assert forall|k: int, l: int|
            0 <= k < l < self.members@.len() implies #[trigger] self.members@[k] != #[trigger] self.members@[l] by {
            if l == pre.members@.len() {
                assert(pre.is_node(pre.members@[k]));
            }
        }
        Interface { id }
    }
}


impl Graph {
    proof fn lemma_wf_after_new_port(pre: Graph, post: Graph, n: NodeId, id: PortId)
        requires
            pre.wf(),
            pre.is_node(n),
            id.0 == pre.slots@.len(),
            post.slots@.len() == pre.slots@.len() + 1,
            post.slots@.len() <= usize::MAX,
            post.members@ == pre.members@,
            forall|i: int| 0 <= i < pre.slots@.len() && i != n.0 ==> post.slots@[i] == pre.slots@[i],
            post.slots@[n.0 as int] is Node,
            post.slots@[n.0 as int]->Node_0@ == pre.slots@[n.0 as int]->Node_0@.push(id),
            post.slots@[id.0 as int] is Port,
            post.entry(id).node == n,
            post.entry(id).edge is None,
        ensures
            post.wf(),
    {
        assert forall|i: int| 0 <= i < post.slots@.len() implies #[trigger] post.slot_wf(i) by {
            if i < pre.slots@.len() {
                assert(pre.slot_wf(i));
                match post.slots@[i] {
                    Slot::Node(ports) => {
                        let old_ports = pre.slots@[i]->Node_0;
                        assert forall|k: int| 0 <= k < ports@.len() implies {
                            &&& #[trigger] post.is_port(ports@[k])
                            &&& post.port_node(ports@[k]) == NodeId(i as usize)
                        } by {
                            if i != n.0 {
                                assert(post.slots@[i] == pre.slots@[i]);
                                assert(ports@ == old_ports@);
                            }
                            if k < old_ports@.len() {
                                assert(ports@[k] == old_ports@[k]);
                                let q = old_ports@[k];
                                assert(pre.is_port(q));
                                assert(q.0 != n.0);
                                assert(post.slots@[q.0 as int] == pre.slots@[q.0 as int]);
                            } else {
                                assert(i == n.0);
                                assert(ports@[k] == id);
                            }
                        }
                        assert forall|k: int, l: int|
                            0 <= k < l < ports@.len() implies #[trigger] ports@[k] != #[trigger] ports@[l] by {
                            if i != n.0 {
                                assert(post.slots@[i] == pre.slots@[i]);
                                assert(ports@ == old_ports@);
                            }
                            if l < old_ports@.len() {
                                assert(ports@[k] == old_ports@[k]);
                                assert(ports@[l] == old_ports@[l]);
                            } else if i == n.0 {
                                assert(ports@[l] == id);
                                assert(ports@[k] == old_ports@[k]);
                                assert(pre.is_port(old_ports@[k]));
                            }
                        }
                    },
                    Slot::Port(e) => {
                        assert(pre.slots@[i] == post.slots@[i]);
                        assert(pre.is_node(e.node));
                        if e.node.0 != n.0 {
                            assert(post.slots@[e.node.0 as int] == pre.slots@[e.node.0 as int]);
                        }
                        assert(post.is_node(e.node));
                        match e.edge {
                            Some(q) => {
                                assert(pre.is_port(q));
                                assert(q.0 != n.0);
                                assert(post.slots@[q.0 as int] == pre.slots@[q.0 as int]);
                            },
                            None => {},
                        }
                    },
                }
            } else {
                assert(i == id.0);
                assert(post.is_node(n));
            }
        }
        assert forall|k: int| 0 <= k < post.members@.len() implies #[trigger] post.is_node(post.members@[k]) by {
            assert(pre.is_node(pre.members@[k]));
        }
    }

    /// Adds a port named `name` to the interface of node `n`, with the given item types.
    pub fn add_port_with_types(
        &mut self,
        n: NodeId,
        name: String,
        in_ty: std::any::TypeId,
        out_ty: std::any::TypeId,
    ) -> (p: PortId)
        requires
            old(self).wf(),
            old(self).is_node(n),
            old(self).next_id() < usize::MAX,
        ensures
            final(self).wf(),
            p == PortId(old(self).next_id() as usize),
            !old(self).is_port(p) && !old(self).is_node(NodeId(p.0)),
            final(self).next_id() == old(self).next_id() + 1,
            final(self).node_ids() == old(self).node_ids(),
            final(self).is_port(p),
            final(self).port_node(p) == n,
            final(self).port_name(p) == name@,
            final(self).port_in_ty(p) == in_ty,
            final(self).port_out_ty(p) == out_ty,
            final(self).port_buffer(p) == Seq::<u8>::empty(),
            !final(self).port_aborted(p),
            final(self).port_edge(p) is None,
            final(self).is_node(n),
            final(self).node_ports(n) == old(self).node_ports(n).push(p),
            ports_kept(final(self), old(self), p, p),
            nodes_kept(final(self), old(self), n),
    {
        let ghost pre = *self;
        let id = PortId(self.slots.len());
        let entry = PortEntry {
            node: n,
            name,
            in_ty,
            out_ty,
            buffer: std::collections::VecDeque::new(),
            aborted: false,
            edge: None,
        };
        self.slots.push(Slot::Port(entry));
        match &mut self.slots[n.0] {
            Slot::Node(ports) => {
                ports.push(id);
            },
            Slot::Port(_) => {},
        }
        proof {
            Graph::lemma_wf_after_new_port(pre, *self, n, id);
        }
        id
    }
}


/// Compares two type identifiers with `<std::any::TypeId as PartialEq>::eq`; the
/// comparison is true exactly when both identify the same type, that is, when they are
/// the same value.
#[verifier::external_body]
fn type_ids_equal(a: &std::any::TypeId, b: &std::any::TypeId) -> (r: bool)
    ensures
        r == (*a == *b),
{
    a == b
}

impl Graph {
    spec fn edge_ok(&self, i: int) -> bool {
        self.slots@[i] is Port ==> match self.slots@[i]->Port_0.edge {
            Some(q) => {
                &&& self.is_port(q)
                &&& q != PortId(i as usize)
                &&& self.port_edge(q) == Some(PortId(i as usize))
                &&& self.port_in_ty(q) == self.slots@[i]->Port_0.out_ty
                &&& self.port_out_ty(q) == self.slots@[i]->Port_0.in_ty
            },
            None => true,
        }
    }

    spec fn slot_kept(pre: Graph, post: Graph, i: int) -> bool {
        &&& (pre.slots@[i] is Node ==> post.slots@[i] == pre.slots@[i])
        &&& (pre.slots@[i] is Port ==> {
            &&& post.slots@[i] is Port
            &&& post.slots@[i]->Port_0.node == pre.slots@[i]->Port_0.node
            &&& post.slots@[i]->Port_0.in_ty == pre.slots@[i]->Port_0.in_ty
            &&& post.slots@[i]->Port_0.out_ty == pre.slots@[i]->Port_0.out_ty
        })
    }

    /// A graph whose node slots are untouched and whose port slots kept their owner stays
    /// well formed as long as its connections are symmetric.
    proof fn lemma_wf_ports_changed(pre: Graph, post: Graph)
        requires
            pre.wf(),
            post.slots@.len() == pre.slots@.len(),
            post.members@ == pre.members@,
            forall|i: int| 0 <= i < pre.slots@.len() ==> #[trigger] Graph::slot_kept(pre, post, i),
            forall|i: int| 0 <= i < post.slots@.len() ==> #[trigger] post.edge_ok(i),
        ensures
            post.wf(),
    {
        assert forall|i: int| 0 <= i < post.slots@.len() implies #[trigger] post.slot_wf(i) by {
            assert(pre.slot_wf(i));
            assert(post.edge_ok(i));
            assert(Graph::slot_kept(pre, post, i));
            match pre.slots@[i] {
                Slot::Node(ports) => {
                    assert(post.slots@[i] == pre.slots@[i]);
                    assert forall|k: int| 0 <= k < ports@.len() implies {
                        &&& #[trigger] post.is_port(ports@[k])
                        &&& post.port_node(ports@[k]) == NodeId(i as usize)
                    } by {
                        let q = ports@[k];
                        assert(pre.is_port(q));
                        assert(Graph::slot_kept(pre, post, q.0 as int));
                    }
                },
                Slot::Port(e) => {
                    assert(pre.is_node(e.node));
                    assert(Graph::slot_kept(pre, post, e.node.0 as int));
                    assert(post.is_node(e.node));
                },
            }
        }
        assert forall|k: int| 0 <= k < post.members@.len() implies #[trigger] post.is_node(post.members@[k]) by {
            assert(pre.is_node(pre.members@[k]));
            assert(Graph::slot_kept(pre, post, pre.members@[k].0 as int));
        }
    }

    fn entry_ref(&self, p: PortId) -> (e: &PortEntry)
        requires
            self.is_port(p),
        ensures
            *e == self.entry(p),
    {
        match &self.slots[p.0] {
            Slot::Port(e) => e,
            Slot::Node(_) => vstd::pervasive::unreached(),
        }
    }

    /// Whether `p` names a port.
    pub fn has_port(&self, p: PortId) -> (r: bool)
        ensures
            r == self.is_port(p),
    {
        p.0 < self.slots.len() && match &self.slots[p.0] {
            Slot::Port(_) => true,
            Slot::Node(_) => false,
        }
    }

    /// Whether `n` names a node interface (one that may since have left the graph).
    pub fn has_interface(&self, n: NodeId) -> (r: bool)
        ensures
            r == self.is_node(n),
    {
        n.0 < self.slots.len() && match &self.slots[n.0] {
            Slot::Node(_) => true,
            Slot::Port(_) => false,
        }
    }

    /// The item types of port `p`: what flows in, and what flows out.
    pub fn port_types(&self, p: PortId) -> (r: (std::any::TypeId, std::any::TypeId))
        requires
            self.is_port(p),
        ensures
            r == (self.port_in_ty(p), self.port_out_ty(p)),
    {
        let e = self.entry_ref(p);
        (e.in_ty, e.out_ty)
    }

    /// The port that `p` is connected to, if any.
    pub fn edge(&self, p: PortId) -> (r: Option<PortId>)
        requires
            self.is_port(p),
        ensures
            r == self.port_edge(p),
    {
        self.entry_ref(p).edge
    }

    /// Connects port `a` to port `b`. Fails with `TypeMismatch` unless what flows into each
    /// is what flows out of the other, and with `AlreadyConnected` if either is connected.
    /// A port cannot be connected to itself.
    pub fn connect(&mut self, a: PortId, b: PortId) -> (r: Result<(), ConnectError>)
        requires
            old(self).wf(),
            old(self).is_port(a),
            old(self).is_port(b),
            a == b ==> old(self).port_in_ty(a) != old(self).port_out_ty(a),
        ensures
            final(self).wf(),
            connect_post(old(self), final(self), a, b, r),
    {
        let (a_in, a_out, a_edge) = {
            let e = self.entry_ref(a);
            (e.in_ty, e.out_ty, e.edge)
        };
        let (b_in, b_out, b_edge) = {
            let e = self.entry_ref(b);
            (e.in_ty, e.out_ty, e.edge)
        };
        if !type_ids_equal(&a_in, &b_out) || !type_ids_equal(&a_out, &b_in) {
            return Err(ConnectError::TypeMismatch);
        }
        if a_edge.is_some() || b_edge.is_some() {
            return Err(ConnectError::AlreadyConnected);
        }
        let ghost pre = *self;
        match &mut self.slots[a.0] {
            Slot::Port(e) => {
                e.edge = Some(b);
            },
            Slot::Node(_) => {},
        }
        match &mut self.slots[b.0] {
            Slot::Port(e) => {
                e.edge = Some(a);
            },
            Slot::Node(_) => {},
        }
        proof {
            assert forall|i: int| 0 <= i < self.slots@.len() implies #[trigger] self.edge_ok(i) by {
                assert(pre.slot_wf(i));
                if i != a.0 && i != b.0 {
                    assert(self.slots@[i] == pre.slots@[i]);
                    if pre.slots@[i] is Port {
                        match pre.slots@[i]->Port_0.edge {
                            Some(q) => {
                                assert(q != a && q != b);
                                assert(self.slots@[q.0 as int] == pre.slots@[q.0 as int]);
                            },
                            None => {},
                        }
                    }
                }
            }
            Graph::lemma_wf_ports_changed(pre, *self);
        }
        Ok(())
    }

    /// Port `p` has the same owner, name, types, queue and disconnect flag in both graphs.
    pub open spec fn port_fields_except_edge(&self, other: &Graph, p: PortId) -> bool {
        &&& self.port_node(p) == other.port_node(p)
        &&& self.port_name(p) == other.port_name(p)
        &&& self.port_in_ty(p) == other.port_in_ty(p)
        &&& self.port_out_ty(p) == other.port_out_ty(p)
        &&& self.port_buffer(p) == other.port_buffer(p)
        &&& self.port_aborted(p) == other.port_aborted(p)
    }
}

/// What connecting `a` to `b` answers: a type mismatch first, then an existing connection
/// of either port, else success.
pub open spec fn connect_result(g: &Graph, a: PortId, b: PortId) -> Result<(), ConnectError> {
    if g.port_in_ty(a) != g.port_out_ty(b) || g.port_out_ty(a) != g.port_in_ty(b) {
        Err(ConnectError::TypeMismatch)
    } else if g.port_edge(a) is Some || g.port_edge(b) is Some {
        Err(ConnectError::AlreadyConnected)
    } else {
        Ok(())
    }
}


impl Graph {
    spec fn edge_kept(pre: Graph, post: Graph, i: int) -> bool {
        pre.slots@[i] is Port ==> post.slots@[i]->Port_0.edge == pre.slots@[i]->Port_0.edge
    }

    /// Changing only the queues and disconnect flags of ports keeps the graph well formed.
    proof fn lemma_wf_edges_kept(pre: Graph, post: Graph)
        requires
            pre.wf(),
            post.slots@.len() == pre.slots@.len(),
            post.members@ == pre.members@,
            forall|i: int| 0 <= i < pre.slots@.len() ==> #[trigger] Graph::slot_kept(pre, post, i),
            forall|i: int| 0 <= i < pre.slots@.len() ==> #[trigger] Graph::edge_kept(pre, post, i),
        ensures
            post.wf(),
    {
        assert forall|i: int| 0 <= i < post.slots@.len() implies #[trigger] post.edge_ok(i) by {
            assert(pre.slot_wf(i));
            assert(Graph::slot_kept(pre, post, i));
            assert(Graph::edge_kept(pre, post, i));
            if pre.slots@[i] is Port {
                match pre.slots@[i]->Port_0.edge {
                    Some(q) => {
                        assert(Graph::slot_kept(pre, post, q.0 as int));
                        assert(Graph::edge_kept(pre, post, q.0 as int));
                    },
                    None => {},
                }
            }
        }
        Graph::lemma_wf_ports_changed(pre, post);
    }

    /// Port `p` has the same owner, name and item types in both graphs.
    pub open spec fn same_port_meta(&self, other: &Graph, p: PortId) -> bool {
        &&& self.port_node(p) == other.port_node(p)
        &&& self.port_name(p) == other.port_name(p)
        &&& self.port_in_ty(p) == other.port_in_ty(p)
        &&& self.port_out_ty(p) == other.port_out_ty(p)
    }

    /// Disconnects port `p` from the port it is connected to. Both ends are flagged so
    /// that their next read fails, and both lose their connection. Fails with
    /// `NotConnected` if `p` is not connected.
    pub fn disconnect(&mut self, p: PortId) -> (r: Result<(), ConnectError>)
        requires
            old(self).wf(),
            old(self).is_port(p),
        ensures
            final(self).wf(),
            disconnect_post(old(self), final(self), p, r),
    {
        let other = match self.entry_ref(p).edge {
            Some(q) => q,
            None => {
                return Err(ConnectError::NotConnected);
            },
        };
        let ghost pre = *self;
        proof {
            assert(pre.slot_wf(p.0 as int));
        }
        match &mut self.slots[p.0] {
            Slot::Port(e) => {
                e.edge = None;
                e.aborted = true;
            },
            Slot::Node(_) => {},
        }
        match &mut self.slots[other.0] {
            Slot::Port(e) => {
                e.edge = None;
                e.aborted = true;
            },
            Slot::Node(_) => {},
        }
        proof {
            assert forall|i: int| 0 <= i < self.slots@.len() implies #[trigger] self.edge_ok(i) by {
                assert(pre.slot_wf(i));
                if i != p.0 && i != other.0 {
                    assert(self.slots@[i] == pre.slots@[i]);
                    if pre.slots@[i] is Port {
                        match pre.slots@[i]->Port_0.edge {
                            Some(x) => {
                                assert(x != p && x != other);
                                assert(self.slots@[x.0 as int] == pre.slots@[x.0 as int]);
                            },
                            None => {},
                        }
                    }
                }
            }
            assert forall|i: int| 0 <= i < pre.slots@.len() implies #[trigger] Graph::slot_kept(pre, *self, i) by {}
            Graph::lemma_wf_ports_changed(pre, *self);
        }
        Ok(())
    }

    /// One attempt to write `data` out of port `p`. If `p` is connected, the bytes are
    /// queued, in order, at the port it is connected to and the result is `true`; if not,
    /// nothing changes and the result is `false` (the writer waits for a connection).
    pub fn write(&mut self, p: PortId, data: &[u8]) -> (ready: bool)
        requires
            old(self).wf(),
            old(self).is_port(p),
        ensures
            final(self).wf(),
            write_post(old(self), final(self), p, data@, ready),
    {
        let other = match self.entry_ref(p).edge {
            Some(q) => q,
            None => {
                return false;
            },
        };
        let ghost pre = *self;
        proof {
            assert(pre.slot_wf(p.0 as int));
        }
        match &mut self.slots[other.0] {
            Slot::Port(e) => {
                let mut i: usize = 0;
                while i < data.len()
                    invariant
                        0 <= i <= data@.len(),
                        e.buffer@ == pre.entry(other).buffer@ + data@.subrange(0, i as int),
                        e.node == pre.entry(other).node,
                        e.name == pre.entry(other).name,
                        e.in_ty == pre.entry(other).in_ty,
                        e.out_ty == pre.entry(other).out_ty,
                        e.aborted == pre.entry(other).aborted,
                        e.edge == pre.entry(other).edge,
                    decreases data@.len() - i,
                {
                    e.buffer.push_back(data[i]);
                    assert(data@.subrange(0, i + 1) == data@.subrange(0, i as int).push(data@[i as int]));
                    i = i + 1;
                }
                assert(data@.subrange(0, data@.len() as int) == data@);
            },
            Slot::Node(_) => {},
        }
        proof {
            assert forall|i: int| 0 <= i < pre.slots@.len() implies #[trigger] Graph::slot_kept(pre, *self, i) by {}
            assert forall|i: int| 0 <= i < pre.slots@.len() implies #[trigger] Graph::edge_kept(pre, *self, i) by {}
            Graph::lemma_wf_edges_kept(pre, *self);
        }
        true
    }

    /// One attempt to read from port `p`: all queued bytes when `n` is `None` (at least one
    /// must be queued), or exactly the first `n` bytes when `n` is `Some(n)` (at least `n`
    /// must be queued). A disconnect that no read has reported yet makes the attempt fail
    /// with `Disconnected` and clears the report. `Ok(None)` means that not enough data is
    /// queued yet (the reader waits for a write).
    pub fn read_bytes(&mut self, p: PortId, n: Option<usize>) -> (r: Result<Option<Vec<u8>>, Error>)
        requires
            old(self).wf(),
            old(self).is_port(p),
        ensures
            final(self).wf(),
            read_post(old(self), final(self), p, n, r),
    {
        let ghost pre = *self;
        let ghost outcome = read_outcome(pre.port_buffer(p), pre.port_aborted(p), n);
        let (aborted, len) = {
            let e = self.entry_ref(p);
            (e.aborted, e.buffer.len())
        };
        if aborted {
            match &mut self.slots[p.0] {
                Slot::Port(e) => {
                    e.aborted = false;
                },
                Slot::Node(_) => {},
            }
            proof {
                assert forall|i: int| 0 <= i < pre.slots@.len() implies #[trigger] Graph::slot_kept(pre, *self, i) by {}
                assert forall|i: int| 0 <= i < pre.slots@.len() implies #[trigger] Graph::edge_kept(pre, *self, i) by {}
                Graph::lemma_wf_edges_kept(pre, *self);
            }
            return Err(Error::Disconnected);
        }
        let count = match n {
            Some(k) => {
                if len < k {
                    return Ok(None);
                }
                k
            },
            None => {
                if len == 0 {
                    return Ok(None);
                }
                len
            },
        };
        let mut data: Vec<u8> = Vec::new();
        match &mut self.slots[p.0] {
            Slot::Port(e) => {
                while data.len() < count
                    invariant
                        count <= pre.entry(p).buffer@.len(),
                        data@.len() <= count,
                        data@ == pre.entry(p).buffer@.take(data@.len() as int),
                        e.buffer@ == pre.entry(p).buffer@.skip(data@.len() as int),
                        e.node == pre.entry(p).node,
                        e.name == pre.entry(p).name,
                        e.in_ty == pre.entry(p).in_ty,
                        e.out_ty == pre.entry(p).out_ty,
                        e.aborted == pre.entry(p).aborted,
                        e.edge == pre.entry(p).edge,
                    decreases count - data@.len(),
                {
                    let ghost before = data@.len();
                    match e.buffer.pop_front() {
                        Some(x) => {
                            data.push(x);
                        },
                        None => {
                            assert(false);
                        },
                    }
                    assert(pre.entry(p).buffer@.take(before as int + 1) == pre.entry(p).buffer@.take(before as int).push(pre.entry(p).buffer@[before as int]));
                }
            },
            Slot::Node(_) => {},
        }
        proof {
            assert forall|i: int| 0 <= i < pre.slots@.len() implies #[trigger] Graph::slot_kept(pre, *self, i) by {}
            assert forall|i: int| 0 <= i < pre.slots@.len() implies #[trigger] Graph::edge_kept(pre, *self, i) by {}
            Graph::lemma_wf_edges_kept(pre, *self);
        }
        Ok(Some(data))
    }
}

/// Every port other than `a` and `b` is the same in `g1` as in `g0`.
pub open spec fn ports_kept(g1: &Graph, g0: &Graph, a: PortId, b: PortId) -> bool {
    forall|x: PortId|
        #![trigger g1.is_port(x)]
        #![trigger g0.is_port(x)]
        #![trigger g1.port_node(x)]
        #![trigger g1.port_name(x)]
        #![trigger g1.port_in_ty(x)]
        #![trigger g1.port_out_ty(x)]
        #![trigger g1.port_buffer(x)]
        #![trigger g1.port_aborted(x)]
        #![trigger g1.port_edge(x)]
        #![trigger g1.same_port(g0, x)]
        x != a && x != b ==> g1.same_port(g0, x)
}

/// Every port is the same in `g1` as in `g0`.
pub open spec fn all_ports_kept(g1: &Graph, g0: &Graph) -> bool {
    forall|x: PortId|
        #![trigger g1.is_port(x)]
        #![trigger g0.is_port(x)]
        #![trigger g1.port_node(x)]
        #![trigger g1.port_name(x)]
        #![trigger g1.port_in_ty(x)]
        #![trigger g1.port_out_ty(x)]
        #![trigger g1.port_buffer(x)]
        #![trigger g1.port_aborted(x)]
        #![trigger g1.port_edge(x)]
        #![trigger g1.same_port(g0, x)]
        g1.same_port(g0, x)
}

/// Every interface other than that of `m` is the same in `g1` as in `g0`.
pub open spec fn nodes_kept(g1: &Graph, g0: &Graph, m: NodeId) -> bool {
    forall|n: NodeId|
        #![trigger g1.is_node(n)]
        #![trigger g0.is_node(n)]
        #![trigger g1.node_ports(n)]
        #![trigger g1.same_node(g0, n)]
        n != m ==> g1.same_node(g0, n)
}

/// Every interface is the same in `g1` as in `g0`.
pub open spec fn all_nodes_kept(g1: &Graph, g0: &Graph) -> bool {
    forall|n: NodeId|
        #![trigger g1.is_node(n)]
        #![trigger g0.is_node(n)]
        #![trigger g1.node_ports(n)]
        #![trigger g1.same_node(g0, n)]
        g1.same_node(g0, n)
}

/// The graph is unchanged in its nodes and interfaces, and in every port but `a` and `b`.
pub open spec fn frame(g0: &Graph, g1: &Graph, a: PortId, b: PortId) -> bool {
    &&& g1.next_id() == g0.next_id()
    &&& g1.node_ids() == g0.node_ids()
    &&& all_nodes_kept(g1, g0)
    &&& ports_kept(g1, g0, a, b)
}

/// What connecting `a` to `b` in `g0` leaves in `g1` and answers in `r`.
pub open spec fn connect_post(g0: &Graph, g1: &Graph, a: PortId, b: PortId, r: Result<(), ConnectError>) -> bool {
    &&& r == connect_result(g0, a, b)
    &&& r is Ok ==> {
        &&& frame(g0, g1, a, b)
        &&& g1.is_port(a) && g1.is_port(b)
        &&& g1.port_edge(a) == Some(b)
        &&& g1.port_edge(b) == Some(a)
        &&& g1.port_fields_except_edge(g0, a)
        &&& g1.port_fields_except_edge(g0, b)
    }
    &&& r is Err ==> frame(g0, g1, a, a) && g1.same_port(g0, a)
}

/// What disconnecting `p` in `g0` leaves in `g1` and answers in `r`.
pub open spec fn disconnect_post(g0: &Graph, g1: &Graph, p: PortId, r: Result<(), ConnectError>) -> bool {
    match g0.port_edge(p) {
        None => {
            &&& r == Err::<(), ConnectError>(ConnectError::NotConnected)
            &&& frame(g0, g1, p, p) && g1.same_port(g0, p)
        },
        Some(q) => {
            &&& r == Ok::<(), ConnectError>(())
            &&& frame(g0, g1, p, q)
            &&& g1.is_port(p) && g1.is_port(q)
            &&& g1.port_edge(p) is None
            &&& g1.port_edge(q) is None
            &&& g1.port_aborted(p) && g1.port_aborted(q)
            &&& g1.same_port_meta(g0, p)
            &&& g1.same_port_meta(g0, q)
            &&& g1.port_buffer(p) == g0.port_buffer(p)
            &&& g1.port_buffer(q) == g0.port_buffer(q)
        },
    }
}

/// What one attempt to write `data` out of `p` in `g0` leaves in `g1` and answers.
pub open spec fn write_post(g0: &Graph, g1: &Graph, p: PortId, data: Seq<u8>, ready: bool) -> bool {
    match g0.port_edge(p) {
        None => {
            &&& !ready
            &&& frame(g0, g1, p, p) && g1.same_port(g0, p)
        },
        Some(q) => {
            &&& ready
            &&& q != p
            &&& frame(g0, g1, q, q)
            &&& g1.is_port(q)
            &&& g1.port_buffer(q) == g0.port_buffer(q) + data
            &&& g1.same_port_meta(g0, q)
            &&& g1.port_aborted(q) == g0.port_aborted(q)
            &&& g1.port_edge(q) == g0.port_edge(q)
        },
    }
}

/// What one attempt to read from `p` in `g0`, for `n` bytes or for all, leaves in `g1`
/// and answers in `r`.
pub open spec fn read_post(g0: &Graph, g1: &Graph, p: PortId, n: Option<usize>, r: Result<Option<Vec<u8>>, Error>) -> bool {
    &&& frame(g0, g1, p, p)
    &&& g1.is_port(p)
    &&& g1.same_port_meta(g0, p)
    &&& g1.port_edge(p) == g0.port_edge(p)
    &&& match read_outcome(g0.port_buffer(p), g0.port_aborted(p), n) {
        ReadOutcome::Failed => {
            &&& r == Err::<Option<Vec<u8>>, Error>(Error::Disconnected)
            &&& !g1.port_aborted(p)
            &&& g1.port_buffer(p) == g0.port_buffer(p)
        },
        ReadOutcome::Waiting => {
            &&& r == Ok::<Option<Vec<u8>>, Error>(None)
            &&& g1.port_aborted(p) == g0.port_aborted(p)
            &&& g1.port_buffer(p) == g0.port_buffer(p)
        },
        ReadOutcome::Taken(k) => {
            &&& r is Ok && r->Ok_0 is Some
            &&& r->Ok_0->Some_0@ == g0.port_buffer(p).take(k as int)
            &&& g1.port_buffer(p) == g0.port_buffer(p).skip(k as int)
            &&& g1.port_aborted(p) == g0.port_aborted(p)
        },
    }
}

/// What one read attempt does, by the queued bytes, the disconnect flag and the requested
/// count.
pub enum ReadOutcome {
    /// The attempt reports a disconnect.
    Failed,
    /// Not enough data is queued.
    Waiting,
    /// The first `k` queued bytes are taken.
    Taken(nat),
}

pub open spec fn read_outcome(buffer: Seq<u8>, aborted: bool, n: Option<usize>) -> ReadOutcome {
    if aborted {
        ReadOutcome::Failed
    } else {
        match n {
            Some(k) => if buffer.len() < k {
                ReadOutcome::Waiting
            } else {
                ReadOutcome::Taken(k as nat)
            },
            None => if buffer.len() == 0 {
                ReadOutcome::Waiting
            } else {
                ReadOutcome::Taken(buffer.len())
            },
        }
    }
}


impl Graph {
    proof fn lemma_slot_wf_same_slots(a: Graph, b: Graph, j: int)
        requires
            a.slots@ == b.slots@,
            0 <= j < a.slots@.len(),
            a.slot_wf(j),
        ensures
            b.slot_wf(j),
    {
        match a.slots@[j] {
            Slot::Node(ports) => {
                assert forall|k: int| 0 <= k < ports@.len() implies {
                    &&& #[trigger] b.is_port(ports@[k])
                    &&& b.port_node(ports@[k]) == NodeId(j as usize)
                } by {
                    assert(a.is_port(ports@[k]));
                }
            },
            Slot::Port(e) => {
                assert(a.is_node(e.node));
                match e.edge {
                    Some(q) => {
                        assert(a.is_port(q));
                    },
                    None => {},
                }
            },
        }
    }

    fn member_index(&self, n: NodeId) -> (r: Option<usize>)
        ensures
            match r {
                Some(i) => i < self.members@.len() && self.members@[i as int] == n,
                None => !self.members@.contains(n),
            },
    {
        let mut i: usize = 0;
        while i < self.members.len()
            invariant
                i <= self.members@.len(),
                forall|k: int| 0 <= k < i ==> self.members@[k] != n,
            decreases self.members@.len() - i,
        {
            if self.members[i] == n {
                return Some(i);
            }
            i = i + 1;
        }
        None
    }

    fn listed_ports(&self, n: NodeId) -> (r: &Vec<PortId>)
        requires
            self.is_node(n),
        ensures
            r@ == self.node_ports(n),
    {
        match &self.slots[n.0] {
            Slot::Node(ports) => ports,
            Slot::Port(_) => vstd::pervasive::unreached(),
        }
    }

    /// Delete a node by id. Its interface and ports remain, but it is no longer a node of
    /// the graph. Fails with `InvalidNode` if it is not a node of the graph.
    pub fn remove_node(&mut self, node: NodeId) -> (r: Result<Node, Error>)
        requires
            old(self).wf(),
        ensures
            final(self).wf(),
            final(self).next_id() == old(self).next_id(),
            all_nodes_kept(final(self), old(self)),
            all_ports_kept(final(self), old(self)),
            r is Ok <==> old(self).node_ids().contains(node),
            r is Ok ==> r->Ok_0.id == node
                && final(self).node_ids() == old(self).node_ids().remove(old(self).node_ids().index_of(node))
                && !final(self).node_ids().contains(node),
            r is Err ==> r == Err::<Node, Error>(Error::InvalidNode) && final(self).node_ids() == old(self).node_ids(),
    {
        match self.member_index(node) {
            None => Err(Error::InvalidNode),
            Some(i) => {
                let ghost pre = *self;
                proof {
                    assert forall|k: int| 0 <= k < pre.members@.len() && pre.members@[k] == node implies k == i by {
                        if k != i {
                            if k < i {
                                assert(pre.members@[k] != pre.members@[i as int]);
                            } else {
                                assert(pre.members@[i as int] != pre.members@[k]);
                            }
                        }
                    }
                    assert(pre.members@.index_of(node) == i) by {
                        pre.members@.index_of_first_ensures(node);
                        assert(pre.members@.contains(node));
                    }
                }
                self.members.remove(i);
                proof {
                    assert forall|k: int| 0 <= k < self.members@.len() implies #[trigger] self.is_node(self.members@[k]) by {
                        if k < i {
                            assert(self.members@[k] == pre.members@[k]);
                            assert(pre.is_node(pre.members@[k]));
                        } else {
                            assert(self.members@[k] == pre.members@[k + 1]);
                            assert(pre.is_node(pre.members@[k + 1]));
                        }
                    }
                    assert forall|k: int| 0 <= k < self.members@.len() implies self.members@[k] != node by {
                        let k2 = if k < i { k } else { k + 1 };
                        assert(self.members@[k] == pre.members@[k2]);
                        if k2 < i {
                            assert(pre.members@[k2] != pre.members@[i as int]);
                        } else {
                            assert(pre.members@[i as int] != pre.members@[k2]);
                        }
                    }
                    assert forall|k: int, l: int|
                        0 <= k < l < self.members@.len() implies #[trigger] self.members@[k] != #[trigger] self.members@[l] by {
                        let k2 = if k < i { k } else { k + 1 };
                        let l2 = if l < i { l } else { l + 1 };
                        assert(self.members@[k] == pre.members@[k2]);
                        assert(self.members@[l] == pre.members@[l2]);
                        assert(pre.members@[k2] != pre.members@[l2]);
                    }
                    assert(self.slots@ == pre.slots@);
                    assert forall|j: int| 0 <= j < self.slots@.len() implies #[trigger] self.slot_wf(j) by {
                        assert(pre.slot_wf(j));
                        Graph::lemma_slot_wf_same_slots(pre, *self, j);
                    }
                }
                Ok(Node { id: node })
            },
        }
    }

    /// The node with the given id, if it is a node of the graph.
    pub fn node(&self, id: NodeId) -> (r: Option<Node>)
        ensures
            r is Some <==> self.node_ids().contains(id),
            r is Some ==> r->Some_0.id == id,
    {
        match self.member_index(id) {
            Some(_) => Some(Node { id }),
            None => None,
        }
    }

    /// All nodes of the graph at the time of the call, in the order in which they were added.
    pub fn nodes(&self) -> (r: Vec<Node>)
        ensures
            r@.len() == self.node_ids().len(),
            forall|k: int| 0 <= k < r@.len() ==> #[trigger] r@[k].id == self.node_ids()[k],
    {
        let mut r: Vec<Node> = Vec::new();
        let mut i: usize = 0;
        while i < self.members.len()
            invariant
                i <= self.members@.len(),
                r@.len() == i,
                forall|k: int| 0 <= k < i ==> #[trigger] r@[k].id == self.members@[k],
            decreases self.members@.len() - i,
        {
            r.push(Node { id: self.members[i] });
            i = i + 1;
        }
        r
    }

    /// The nodes of the graph at the time of the call, each with its id.
    pub fn node_map(&self) -> (r: Vec<(NodeId, Node)>)
        ensures
            r@.len() == self.node_ids().len(),
            forall|k: int|
                0 <= k < r@.len() ==> (#[trigger] r@[k]).0 == self.node_ids()[k] && r@[k].1.id == self.node_ids()[k],
    {
        let mut r: Vec<(NodeId, Node)> = Vec::new();
        let mut i: usize = 0;
        while i < self.members.len()
            invariant
                i <= self.members@.len(),
                r@.len() == i,
                forall|k: int| 0 <= k < i ==> (#[trigger] r@[k]).0 == self.members@[k] && r@[k].1.id == self.members@[k],
            decreases self.members@.len() - i,
        {
            let id = self.members[i];
            r.push((id, Node { id }));
            i = i + 1;
        }
        r
    }

    /// The ports that the interface of `n` lists at the time of the call.
    pub fn port_list(&self, n: NodeId) -> (r: Vec<PortId>)
        requires
            self.is_node(n),
        ensures
            r@ == self.node_ports(n),
    {
        self.listed_ports(n).clone()
    }

    /// The name of port `p`.
    pub fn port_name_str(&self, p: PortId) -> (r: &str)
        requires
            self.is_port(p),
        ensures
            r@ == self.port_name(p),
    {
        self.entry_ref(p).name.as_str()
    }

    /// Finds the first port of the interface of `n`, in the order in which the ports were
    /// added, whose name is `name`.
    pub fn find_port(&self, n: NodeId, name: &str) -> (r: Option<PortId>)
        requires
            self.wf(),
            self.is_node(n),
        ensures
            r == first_named(self, self.node_ports(n), name@),
            r is Some ==> self.node_ports(n).contains(r->Some_0) && self.port_name(r->Some_0) == name@,
            r is None ==> forall|k: int|
                0 <= k < self.node_ports(n).len() ==> #[trigger] self.port_name(self.node_ports(n)[k]) != name@,
    {
        let wanted = name.to_owned();
        let ports = self.listed_ports(n);
        proof {
            assert(self.slot_wf(n.0 as int));
        }
        let mut i: usize = 0;
        assert(ports@.skip(0) == ports@);
        while i < ports.len()
            invariant
                i <= ports@.len(),
                ports@ == self.node_ports(n),
                wanted@ == name@,
                forall|k: int| 0 <= k < ports@.len() ==> #[trigger] self.is_port(ports@[k]),
                first_named(self, ports@, name@) == first_named(self, ports@.skip(i as int), name@),
                forall|k: int| 0 <= k < i ==> #[trigger] self.port_name(ports@[k]) != name@,
            decreases ports@.len() - i,
        {
            let p = ports[i];
            assert(ports@.skip(i as int)[0] == p);
            assert(ports@.skip(i as int).drop_first() == ports@.skip(i + 1));
            if self.entry_ref(p).name == wanted {
                proof {
                    lemma_first_named_found(self, ports@, name@, i as int);
                }
                return Some(p);
            }
            i = i + 1;
        }
        proof {
            assert(ports@.skip(i as int).len() == 0);
        }
        None
    }

    /// Removes port `p` from the ports that the interface of `n` lists; the port itself and
    /// its connection remain. Fails with `InvalidPort` if the interface does not list it.
    pub fn remove_port(&mut self, n: NodeId, p: PortId) -> (r: Result<PortId, Error>)
        requires
            old(self).wf(),
            old(self).is_node(n),
        ensures
            final(self).wf(),
            final(self).next_id() == old(self).next_id(),
            final(self).node_ids() == old(self).node_ids(),
            all_ports_kept(final(self), old(self)),
            nodes_kept(final(self), old(self), n),
            final(self).is_node(n),
            r is Ok <==> old(self).node_ports(n).contains(p),
            r is Ok ==> r == Ok::<PortId, Error>(p)
                && final(self).node_ports(n) == old(self).node_ports(n).remove(old(self).node_ports(n).index_of(p)),
            r is Err ==> r == Err::<PortId, Error>(Error::InvalidPort) && final(self).node_ports(n) == old(self).node_ports(n),
    {
        let ghost pre = *self;
        let ports = self.listed_ports(n);
        let i = match position_of(ports, p) {
            Some(i) => i,
            None => {
                return Err(Error::InvalidPort);
            },
        };
        proof {
            assert(pre.slot_wf(n.0 as int));
            assert(ports@[i as int] == p);
            assert(pre.node_ports(n).index_of(p) == i) by {
                pre.node_ports(n).index_of_first_ensures(p);
                assert(pre.node_ports(n).contains(p));
            }
        }
        match &mut self.slots[n.0] {
            Slot::Node(list) => {
                list.remove(i);
            },
            Slot::Port(_) => {},
        }
        proof {
            let old_list = pre.slots@[n.0 as int]->Node_0@;
            let new_list = self.slots@[n.0 as int]->Node_0@;
            assert(new_list == old_list.remove(i as int));
            assert forall|j: int| 0 <= j < self.slots@.len() implies #[trigger] self.slot_wf(j) by {
                assert(pre.slot_wf(j));
                if j == n.0 {
                    assert forall|k: int| 0 <= k < new_list.len() implies {
                        &&& #[trigger] self.is_port(new_list[k])
                        &&& self.port_node(new_list[k]) == NodeId(j as usize)
                    } by {
                        let k2 = if k < i { k } else { k + 1 };
                        assert(new_list[k] == old_list[k2]);
                        assert(pre.is_port(old_list[k2]));
                        assert(self.slots@[old_list[k2].0 as int] == pre.slots@[old_list[k2].0 as int]);
                    }
                    assert forall|k: int, l: int|
                        0 <= k < l < new_list.len() implies #[trigger] new_list[k] != #[trigger] new_list[l] by {
                        let k2 = if k < i { k } else { k + 1 };
                        let l2 = if l < i { l } else { l + 1 };
                        assert(new_list[k] == old_list[k2]);
                        assert(new_list[l] == old_list[l2]);
                        assert(old_list[k2] != old_list[l2]);
                    }
                } else {
                    assert(self.slots@[j] == pre.slots@[j]);
                    match pre.slots@[j] {
                        Slot::Node(ports) => {
                            assert forall|k: int| 0 <= k < ports@.len() implies {
                                &&& #[trigger] self.is_port(ports@[k])
                                &&& self.port_node(ports@[k]) == NodeId(j as usize)
                            } by {
                                let q = ports@[k];
                                assert(pre.is_port(q));
                                assert(self.slots@[q.0 as int] == pre.slots@[q.0 as int]);
                            }
                        },
                        Slot::Port(e) => {
                            assert(pre.is_node(e.node));
                            match e.edge {
                                Some(q) => {
                                    assert(pre.is_port(q));
                                    assert(self.slots@[q.0 as int] == pre.slots@[q.0 as int]);
                                },
                                None => {},
                            }
                        },
                    }
                }
            }
            assert forall|k: int| 0 <= k < self.members@.len() implies #[trigger] self.is_node(self.members@[k]) by {
                assert(pre.is_node(pre.members@[k]));
            }
        }
        Ok(p)
    }
}

fn position_of(v: &Vec<PortId>, p: PortId) -> (r: Option<usize>)
    ensures
        match r {
            Some(i) => i < v@.len() && v@[i as int] == p,
            None => !v@.contains(p),
        },
{
    let mut i: usize = 0;
    while i < v.len()
        invariant
            i <= v@.len(),
            forall|k: int| 0 <= k < i ==> v@[k] != p,
        decreases v@.len() - i,
    {
        if v[i] == p {
            return Some(i);
        }
        i = i + 1;
    }
    None
}

/// The first port in `ports` whose name is `name`.
pub open spec fn first_named(g: &Graph, ports: Seq<PortId>, name: Seq<char>) -> Option<PortId>
    decreases ports.len(),
{
    if ports.len() == 0 {
        None
    } else if g.port_name(ports[0]) == name {
        Some(ports[0])
    } else {
        first_named(g, ports.drop_first(), name)
    }
}

proof fn lemma_first_named_found(g: &Graph, ports: Seq<PortId>, name: Seq<char>, i: int)
    requires
        0 <= i < ports.len(),
        g.port_name(ports[i]) == name,
        first_named(g, ports, name) == first_named(g, ports.skip(i), name),
    ensures
        first_named(g, ports, name) == Some(ports[i]),
{
    assert(ports.skip(i)[0] == ports[i]);
}

/// Calls `std::any::TypeId::of::<T>()`, the identifier of type `T`. Nothing is stated of
/// the result: it depends on the type argument alone, which no contract here can name.
#[verifier::external_body]
fn type_id_of<T: ?Sized + 'static>() -> (r: std::any::TypeId) {
    std::any::TypeId::of::<T>()
}

/// The private interface of a node: it can add and remove the node's ports.
pub struct Interface {
    pub id: NodeId,
}

impl Interface {
    /// Get the node ID.
    pub fn id(&self) -> (r: NodeId)
        ensures
            r == self.id,
    {
        self.id
    }

    /// Find a port of this node by name (the first one added, if several share it).
    pub fn find_port(&self, g: &Graph, name: &str) -> (r: Option<OpaquePort>)
        requires
            g.wf(),
            g.is_node(self.id),
        ensures
            match first_named(g, g.node_ports(self.id), name@) {
                Some(p) => r is Some && r->Some_0.id == p,
                None => r is None,
            },
    {
        match g.find_port(self.id, name) {
            Some(p) => Some(Port::from_id(p)),
            None => None,
        }
    }

    /// All ports of this node at the time of the call, in the order in which they were added.
    pub fn ports(&self, g: &Graph) -> (r: Vec<OpaquePort>)
        requires
            g.is_node(self.id),
        ensures
            r@.len() == g.node_ports(self.id).len(),
            forall|k: int| 0 <= k < r@.len() ==> #[trigger] r@[k].id == g.node_ports(self.id)[k],
    {
        opaque_ports(g.listed_ports(self.id))
    }

    /// Add a new port of this node, named `name`, into which items of type `I` flow and
    /// out of which items of type `O` flow.
    pub fn add_port<I: 'static, O: 'static>(&self, g: &mut Graph, name: String) -> (r: Port<I, O>)
        requires
            old(g).wf(),
            old(g).is_node(self.id),
            old(g).next_id() < usize::MAX,
            vstd::layout::size_of::<I>() != 0,
            vstd::layout::size_of::<O>() != 0,
        ensures
            final(g).wf(),
            r.id == PortId(old(g).next_id() as usize),
            final(g).next_id() == old(g).next_id() + 1,
            final(g).node_ids() == old(g).node_ids(),
            final(g).is_port(r.id),
            final(g).is_node(self.id),
            final(g).port_node(r.id) == self.id,
            final(g).port_name(r.id) == name@,
            final(g).port_buffer(r.id) == Seq::<u8>::empty(),
            !final(g).port_aborted(r.id),
            final(g).port_edge(r.id) is None,
            final(g).node_ports(self.id) == old(g).node_ports(self.id).push(r.id),
            ports_kept(final(g), old(g), r.id, r.id),
            nodes_kept(final(g), old(g), self.id),
    {
        let in_ty = type_id_of::<I>();
        let out_ty = type_id_of::<O>();
        let p = g.add_port_with_types(self.id, name, in_ty, out_ty);
        Port::from_id(p)
    }

    /// Remove a port from this node's ports. The port itself remains usable.
    pub fn remove_port(&self, g: &mut Graph, port: PortId) -> (r: Result<OpaquePort, Error>)
        requires
            old(g).wf(),
            old(g).is_node(self.id),
        ensures
            final(g).wf(),
            final(g).next_id() == old(g).next_id(),
            final(g).node_ids() == old(g).node_ids(),
            all_ports_kept(final(g), old(g)),
            nodes_kept(final(g), old(g), self.id),
            final(g).is_node(self.id),
            r is Ok <==> old(g).node_ports(self.id).contains(port),
            r is Ok ==> r->Ok_0.id == port && final(g).node_ports(self.id) == old(g).node_ports(
                self.id,
            ).remove(old(g).node_ports(self.id).index_of(port)),
            r is Err ==> r == Err::<OpaquePort, Error>(Error::InvalidPort) && final(g).node_ports(self.id)
                == old(g).node_ports(self.id),
    {
        match g.remove_port(self.id, port) {
            Ok(p) => Ok(Port::from_id(p)),
            Err(e) => Err(e),
        }
    }
}

/// The public handle of a node of the graph.
pub struct Node {
    pub id: NodeId,
}

impl Node {
    /// Get the node ID.
    pub fn id(&self) -> (r: NodeId)
        ensures
            r == self.id,
    {
        self.id
    }

    /// Find a port of this node by name (the first one added, if several share it).
    pub fn find_port(&self, g: &Graph, name: &str) -> (r: Option<OpaquePort>)
        requires
            g.wf(),
            g.is_node(self.id),
        ensures
            match first_named(g, g.node_ports(self.id), name@) {
                Some(p) => r is Some && r->Some_0.id == p,
                None => r is None,
            },
    {
        match g.find_port(self.id, name) {
            Some(p) => Some(Port::from_id(p)),
            None => None,
        }
    }

    /// All ports of this node at the time of the call, in the order in which they were added.
    pub fn ports(&self, g: &Graph) -> (r: Vec<OpaquePort>)
        requires
            g.is_node(self.id),
        ensures
            r@.len() == g.node_ports(self.id).len(),
            forall|k: int| 0 <= k < r@.len() ==> #[trigger] r@[k].id == g.node_ports(self.id)[k],
    {
        opaque_ports(g.listed_ports(self.id))
    }
}

fn opaque_ports(ids: &Vec<PortId>) -> (r: Vec<OpaquePort>)
    ensures
        r@.len() == ids@.len(),
        forall|k: int| 0 <= k < r@.len() ==> #[trigger] r@[k].id == ids@[k],
{
    let mut r: Vec<OpaquePort> = Vec::new();
    let mut i: usize = 0;
    while i < ids.len()
        invariant
            i <= ids@.len(),
            r@.len() == i,
            forall|k: int| 0 <= k < i ==> #[trigger] r@[k].id == ids@[k],
        decreases ids@.len() - i,
    {
        r.push(Port::from_id(ids[i]));
        i = i + 1;
    }
    r
}

/// The marker that stands for erased item types; no data of this type is ever carried.
pub struct Opaque;

/// A port whose item types are erased. It can be turned back into a typed port with
/// `as_typed`.
pub type OpaquePort = Port<Opaque, Opaque>;

/// A handle on a port into which items of type `I` flow and out of which items of type
/// `O` flow. Data moves through ports as the bytes of the items.
pub struct Port<I, O> {
    pub id: PortId,
    pub types: std::marker::PhantomData<(I, O)>,
}

impl<I, O> Port<I, O> {
    fn from_id(id: PortId) -> (r: Port<I, O>)
        ensures
            r.id == id,
    {
        Port { id, types: std::marker::PhantomData }
    }

    /// Erases the item types of this port.
    pub fn as_opaque(&self) -> (r: OpaquePort)
        ensures
            r.id == self.id,
    {
        Port::from_id(self.id)
    }

    /// Get the PortId.
    pub fn id(&self) -> (r: PortId)
        ensures
            r == self.id,
    {
        self.id
    }

    /// Get the port name.
    pub fn name<'a>(&self, g: &'a Graph) -> (r: &'a str)
        requires
            g.is_port(self.id),
        ensures
            r@ == g.port_name(self.id),
    {
        g.port_name_str(self.id)
    }

    /// Connect this port to another. Fails with `TypeMismatch` if the underlying item types
    /// do not match, and with `AlreadyConnected` if either port is already connected.
    pub fn connect(&self, g: &mut Graph, other: &Port<O, I>) -> (r: Result<(), ConnectError>)
        requires
            old(g).wf(),
            old(g).is_port(self.id),
            old(g).is_port(other.id),
            self.id == other.id ==> old(g).port_in_ty(self.id) != old(g).port_out_ty(self.id),
        ensures
            final(g).wf(),
            connect_post(old(g), final(g), self.id, other.id, r),
    {
        g.connect(self.id, other.id)
    }

    /// Disconnect this port from the port it is connected to. Fails with `NotConnected` if
    /// it is not connected.
    pub fn disconnect(&self, g: &mut Graph) -> (r: Result<(), ConnectError>)
        requires
            old(g).wf(),
            old(g).is_port(self.id),
        ensures
            final(g).wf(),
            disconnect_post(old(g), final(g), self.id, r),
    {
        g.disconnect(self.id)
    }

    /// One attempt to write the bytes of items of type `O` out of this port.
    pub fn write(&self, g: &mut Graph, data: &[u8]) -> (ready: bool)
        requires
            old(g).wf(),
            old(g).is_port(self.id),
        ensures
            final(g).wf(),
            write_post(old(g), final(g), self.id, data@, ready),
    {
        g.write(self.id, data)
    }

    /// One attempt to write the bytes of a single item of type `O` out of this port.
    pub fn write1(&self, g: &mut Graph, item: &[u8]) -> (ready: bool)
        requires
            old(g).wf(),
            old(g).is_port(self.id),
            item@.len() == vstd::layout::size_of::<O>(),
        ensures
            final(g).wf(),
            write_post(old(g), final(g), self.id, item@, ready),
    {
        g.write(self.id, item)
    }

    /// One attempt to read all available data; at least one byte must be queued.
    pub fn read(&self, g: &mut Graph) -> (r: Result<Option<Vec<u8>>, Error>)
        requires
            old(g).wf(),
            old(g).is_port(self.id),
        ensures
            final(g).wf(),
            read_post(old(g), final(g), self.id, None, r),
    {
        g.read_bytes(self.id, None)
    }

    /// One attempt to read exactly `n` items of type `I`.
    pub fn read_n(&self, g: &mut Graph, n: usize) -> (r: Result<Option<Vec<u8>>, Error>)
        requires
            old(g).wf(),
            old(g).is_port(self.id),
            n * vstd::layout::size_of::<I>() <= usize::MAX,
        ensures
            final(g).wf(),
            read_post(old(g), final(g), self.id, Some((n * vstd::layout::size_of::<I>()) as usize), r),
    {
        let size = core::mem::size_of::<I>();
        g.read_bytes(self.id, Some(n * size))
    }

    /// One attempt to read exactly one item of type `I`.
    pub fn read1(&self, g: &mut Graph) -> (r: Result<Option<Vec<u8>>, Error>)
        requires
            old(g).wf(),
            old(g).is_port(self.id),
            vstd::layout::size_of::<I>() <= usize::MAX,
        ensures
            final(g).wf(),
            read_post(old(g), final(g), self.id, Some(vstd::layout::size_of::<I>() as usize), r),
    {
        let size = core::mem::size_of::<I>();
        g.read_bytes(self.id, Some(size))
    }
}

impl Port<Opaque, Opaque> {
    /// Whether this port carries items of type `in_ty` in and items of type `out_ty` out.
    pub fn has_types(&self, g: &Graph, in_ty: &std::any::TypeId, out_ty: &std::any::TypeId) -> (r: bool)
        requires
            g.is_port(self.id),
        ensures
            r == (g.port_in_ty(self.id) == *in_ty && g.port_out_ty(self.id) == *out_ty),
    {
        let (i, o) = g.port_types(self.id);
        type_ids_equal(&i, in_ty) && type_ids_equal(&o, out_ty)
    }

    /// Downcasts this port to a port with the given item types. Returns `None` if the given
    /// types do not match the underlying port.
    pub fn as_typed<NewI: 'static, NewO: 'static>(&self, g: &Graph) -> (r: Option<Port<NewI, NewO>>)
        requires
            g.is_port(self.id),
        ensures
            r is Some ==> r->Some_0.id == self.id,
    {
        let in_ty = type_id_of::<NewI>();
        let out_ty = type_id_of::<NewO>();
        if self.has_types(g, &in_ty, &out_ty) {
            Some(Port::from_id(self.id))
        } else {
            None
        }
    }
}

} // verus!

verus! {

/// Connections are symmetric: if `p` is connected to `q`, then `q` is a different port
/// that is connected to `p`, and what flows out of each flows into the other.
pub proof fn law_connections_symmetric(g: &Graph, p: PortId)
    requires
        g.wf(),
        g.is_port(p),
        g.port_edge(p) is Some,
    ensures
        g.is_port(g.port_edge(p)->Some_0),
        g.port_edge(p)->Some_0 != p,
        g.port_edge(g.port_edge(p)->Some_0) == Some(p),
        g.port_in_ty(g.port_edge(p)->Some_0) == g.port_out_ty(p),
        g.port_out_ty(g.port_edge(p)->Some_0) == g.port_in_ty(p),
{
    assert(g.slot_wf(p.0 as int));
}

/// What is written out of a connected port is read, after what was already queued, at the
/// port it is connected to, and reading everything empties the queue.
pub proof fn law_read_returns_written(
    g0: &Graph,
    g1: &Graph,
    g2: &Graph,
    a: PortId,
    b: PortId,
    data: Seq<u8>,
    ready: bool,
    r: Result<Option<Vec<u8>>, Error>,
)
    requires
        g0.wf(),
        g0.is_port(a),
        g0.port_edge(a) == Some(b),
        !g0.port_aborted(b),
        data.len() > 0,
        write_post(g0, g1, a, data, ready),
        read_post(g1, g2, b, None, r),
    ensures
        ready,
        r is Ok && r->Ok_0 is Some,
        r->Ok_0->Some_0@ == g0.port_buffer(b) + data,
        g2.port_buffer(b) == Seq::<u8>::empty(),
{
    let buf = g1.port_buffer(b);
    assert(buf.take(buf.len() as int) == buf);
}

/// A read completes as soon as enough is queued: with no disconnect left to report, a read
/// of `k` bytes from a port that holds at least `k` bytes returns the first `k` of them and
/// leaves the rest queued, and a read of everything from a port that holds anything returns
/// it all.
pub proof fn law_read_completes_when_enough(
    g0: &Graph,
    g1: &Graph,
    p: PortId,
    n: Option<usize>,
    r: Result<Option<Vec<u8>>, Error>,
)
    requires
        !g0.port_aborted(p),
        match n {
            Some(k) => k <= g0.port_buffer(p).len(),
            None => g0.port_buffer(p).len() > 0,
        },
        read_post(g0, g1, p, n, r),
    ensures
        r is Ok,
        r->Ok_0 is Some,
        ({
            let k: int = match n {
                Some(k) => k as int,
                None => g0.port_buffer(p).len() as int,
            };
            &&& r->Ok_0->Some_0@.len() == k
            &&& r->Ok_0->Some_0@ == g0.port_buffer(p).subrange(0, k)
            &&& g1.port_buffer(p) == g0.port_buffer(p).subrange(k, g0.port_buffer(p).len() as int)
        }),
{
}

/// A read waits only while too little is queued: with no disconnect left to report, a read
/// of `k` bytes from a port that holds fewer than `k` bytes, or a read of everything from an
/// empty port, answers `Ok(None)` and takes nothing.
pub proof fn law_read_waits_when_short(
    g0: &Graph,
    g1: &Graph,
    p: PortId,
    n: Option<usize>,
    r: Result<Option<Vec<u8>>, Error>,
)
    requires
        !g0.port_aborted(p),
        match n {
            Some(k) => g0.port_buffer(p).len() < k,
            None => g0.port_buffer(p).len() == 0,
        },
        read_post(g0, g1, p, n, r),
    ensures
        r == Ok::<Option<Vec<u8>>, Error>(None),
        g1.port_buffer(p) == g0.port_buffer(p),
{
}

/// Data leaves a port in the order in which it arrived: reading `k` bytes and then the
/// rest gives back exactly what was queued.
pub proof fn law_reads_in_order(
    g0: &Graph,
    g1: &Graph,
    g2: &Graph,
    p: PortId,
    k: usize,
    r1: Result<Option<Vec<u8>>, Error>,
    r2: Result<Option<Vec<u8>>, Error>,
)
    requires
        !g0.port_aborted(p),
        k < g0.port_buffer(p).len(),
        read_post(g0, g1, p, Some(k), r1),
        read_post(g1, g2, p, None, r2),
    ensures
        r1 is Ok && r1->Ok_0 is Some,
        r2 is Ok && r2->Ok_0 is Some,
        r1->Ok_0->Some_0@ + r2->Ok_0->Some_0@ == g0.port_buffer(p),
        g2.port_buffer(p) == Seq::<u8>::empty(),
{
    let buf = g0.port_buffer(p);
    let rest = g1.port_buffer(p);
    assert(rest.take(rest.len() as int) == rest);
    assert(buf.take(k as int) + buf.skip(k as int) == buf);
}

/// A disconnect is reported to exactly one later read on each of the two ports: that read
/// fails with `Disconnected`, and the read after it does not fail.
pub proof fn law_disconnect_reported_once(
    g0: &Graph,
    g1: &Graph,
    g2: &Graph,
    g3: &Graph,
    p: PortId,
    x: PortId,
    rd: Result<(), ConnectError>,
    n1: Option<usize>,
    n2: Option<usize>,
    r1: Result<Option<Vec<u8>>, Error>,
    r2: Result<Option<Vec<u8>>, Error>,
)
    requires
        g0.wf(),
        g0.is_port(p),
        g0.port_edge(p) is Some,
        x == p || x == g0.port_edge(p)->Some_0,
        disconnect_post(g0, g1, p, rd),
        read_post(g1, g2, x, n1, r1),
        read_post(g2, g3, x, n2, r2),
    ensures
        rd is Ok,
        r1 == Err::<Option<Vec<u8>>, Error>(Error::Disconnected),
        r2 != Err::<Option<Vec<u8>>, Error>(Error::Disconnected),
{
}

/// Connecting two ports and then disconnecting one of them leaves both unconnected, with
/// their queues as they were.
pub proof fn law_connect_then_disconnect(
    g0: &Graph,
    g1: &Graph,
    g2: &Graph,
    a: PortId,
    b: PortId,
    rc: Result<(), ConnectError>,
    rd: Result<(), ConnectError>,
)
    requires
        g0.is_port(a),
        g0.is_port(b),
        connect_post(g0, g1, a, b, rc),
        rc is Ok,
        disconnect_post(g1, g2, a, rd),
    ensures
        rd is Ok,
        g2.port_edge(a) is None,
        g2.port_edge(b) is None,
        g2.port_buffer(a) == g0.port_buffer(a),
        g2.port_buffer(b) == g0.port_buffer(b),
{
}

} // verus!

verus! {

/// The ports that a node lists exist, belong to it, and are listed once each.
pub proof fn lemma_listed_ports(g: &Graph, n: NodeId)
    requires
        g.wf(),
    ensures
        forall|k: int|
            0 <= k < g.node_ports(n).len() ==> g.is_port(#[trigger] g.node_ports(n)[k])
                && g.port_node(g.node_ports(n)[k]) == n,
        forall|k: int, l: int|
            0 <= k < l < g.node_ports(n).len() ==> #[trigger] g.node_ports(n)[k] != #[trigger] g.node_ports(n)[l],
{
    if g.is_node(n) {
        assert(g.slot_wf(n.0 as int));
        let ports = g.slots@[n.0 as int]->Node_0;
        assert(g.node_ports(n) == ports@);
        assert(NodeId(n.0 as int as usize) == n);
        assert forall|k: int| 0 <= k < g.node_ports(n).len() implies g.is_port(#[trigger] g.node_ports(n)[k])
            && g.port_node(g.node_ports(n)[k]) == n by {
            assert(g.node_ports(n)[k] == ports@[k]);
            assert(g.is_port(ports@[k]));
            assert(g.port_node(ports@[k]) == NodeId(n.0 as int as usize));
        }
    } else {
        assert(g.node_ports(n).len() == 0);
    }
}

/// What a well-formed graph keeps true of its nodes and ports: every node of the graph is
/// an interface, no node is listed twice, a node identifier and a port identifier never
/// coincide, every identifier is below the next one to be handed out, and every port
/// belongs to an interface.
pub proof fn lemma_graph_shape(g: &Graph)
    requires
        g.wf(),
    ensures
        forall|k: int| 0 <= k < g.node_ids().len() ==> g.is_node(#[trigger] g.node_ids()[k]),
        g.node_ids().no_duplicates(),
        forall|n: NodeId| #[trigger] g.is_node(n) ==> !g.is_port(PortId(n.0)) && n.0 < g.next_id(),
        forall|p: PortId| #[trigger] g.is_port(p) ==> !g.is_node(NodeId(p.0)) && p.0 < g.next_id(),
        forall|p: PortId| #[trigger] g.is_port(p) ==> g.is_node(g.port_node(p)),
{
    assert forall|p: PortId| #[trigger] g.is_port(p) implies g.is_node(g.port_node(p)) by {
        assert(g.slot_wf(p.0 as int));
    }
    assert forall|k: int, l: int| 0 <= k < g.node_ids().len() && 0 <= l < g.node_ids().len() && k != l
        implies g.node_ids()[k] != g.node_ids()[l] by {
        if k < l {
            assert(g.members@[k] != g.members@[l]);
        } else {
            assert(g.members@[l] != g.members@[k]);
        }
    }
}

/// A port's identifier is below the next identifier to be handed out.
pub proof fn lemma_port_in_range(g: &Graph, p: PortId)
    requires
        g.is_port(p),
    ensures
        p.0 < g.next_id(),
{
}

impl Graph {
    /// The node whose interface created port `p`.
    pub fn port_owner(&self, p: PortId) -> (r: NodeId)
        requires
            self.is_port(p),
        ensures
            r == self.port_node(p),
    {
        self.entry_ref(p).node
    }
}

} // verus!
