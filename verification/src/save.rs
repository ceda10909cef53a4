//! What of a graph's connections is written down when the editor's project is saved:
//! walking the modules in order and their ports in order, each connection is written once,
//! from the end that the walk reaches first.

use vstd::prelude::*;
use crate::flow::{
    Graph, NodeId, PortId, connect_post, connect_result, first_named, lemma_listed_ports,
    lemma_port_in_range, law_connections_symmetric,
};

verus! {

/// One saved connection: from a port of a node to a port of a node.
#[derive(Clone, Copy, PartialEq, Eq, Structural, Debug)]
pub struct SavedConnection {
    pub src_node: NodeId,
    pub src_port: PortId,
    pub dst_node: NodeId,
    pub dst_port: PortId,
}

/// The ports of node `n`, each with `n`.
pub open spec fn tagged(g: &Graph, n: NodeId) -> Seq<(NodeId, PortId)> {
    g.node_ports(n).map_values(|p: PortId| (n, p))
}

/// The walk over the first `i` nodes of `order`: each node's ports, in order.
pub open spec fn walk_upto(g: &Graph, order: Seq<NodeId>, i: nat) -> Seq<(NodeId, PortId)>
    decreases i,
{
    if i == 0 || i > order.len() {
        Seq::empty()
    } else {
        walk_upto(g, order, (i - 1) as nat) + tagged(g, order[i - 1])
    }
}

/// The walk over all nodes of `order`.
pub open spec fn walk(g: &Graph, order: Seq<NodeId>) -> Seq<(NodeId, PortId)> {
    walk_upto(g, order, order.len())
}

/// The ports of a walk.
pub open spec fn walk_ports(t: Seq<(NodeId, PortId)>) -> Seq<PortId> {
    t.map_values(|x: (NodeId, PortId)| x.1)
}

/// The connection saved at step `k` of walk `t`, if any: the port's connection, unless the
/// port at its other end came earlier in the walk.
pub open spec fn saved_at(g: &Graph, t: Seq<(NodeId, PortId)>, k: int) -> Option<SavedConnection> {
    let (n, p) = t[k];
    match g.port_edge(p) {
        Some(q) => if walk_ports(t).take(k).contains(q) {
            None
        } else {
            Some(SavedConnection { src_node: n, src_port: p, dst_node: g.port_node(q), dst_port: q })
        },
        None => None,
    }
}

/// The connections saved in the first `k` steps of walk `t`.
pub open spec fn saved_upto(g: &Graph, t: Seq<(NodeId, PortId)>, k: nat) -> Seq<SavedConnection>
    decreases k,
{
    if k == 0 || k > t.len() {
        Seq::empty()
    } else {
        match saved_at(g, t, k - 1) {
            Some(c) => saved_upto(g, t, (k - 1) as nat).push(c),
            None => saved_upto(g, t, (k - 1) as nat),
        }
    }
}

/// The connections saved by walking the nodes of `order`.
pub open spec fn saved_connections(g: &Graph, order: Seq<NodeId>) -> Seq<SavedConnection> {
    let t = walk(g, order);
    saved_upto(g, t, t.len())
}

fn walk_exec(g: &Graph, order: &[NodeId]) -> (r: Vec<(NodeId, PortId)>)
    requires
        forall|i: int| 0 <= i < order@.len() ==> #[trigger] g.is_node(order@[i]),
    ensures
        r@ == walk(g, order@),
{
    let mut r: Vec<(NodeId, PortId)> = Vec::new();
    let mut i: usize = 0;
    while i < order.len()
        invariant
            i <= order@.len(),
            forall|x: int| 0 <= x < order@.len() ==> #[trigger] g.is_node(order@[x]),
            r@ == walk_upto(g, order@, i as nat),
        decreases order@.len() - i,
    {
        let n = order[i];
        let ports = g.port_list(n);
        let ghost base = r@;
        let mut j: usize = 0;
        while j < ports.len()
            invariant
                j <= ports@.len(),
                ports@ == g.node_ports(n),
                r@ == base + tagged(g, n).take(j as int),
            decreases ports@.len() - j,
        {
            r.push((n, ports[j]));
            assert(tagged(g, n).take(j as int + 1) == tagged(g, n).take(j as int).push((n, ports@[j as int])));
            j = j + 1;
        }
        assert(tagged(g, n).take(ports@.len() as int) == tagged(g, n));
        i = i + 1;
    }
    r
}

/// The connections to save when the nodes are walked in the order given: for each port
/// reached, its connection, unless the port at the other end was reached before.
pub fn save_connections(g: &Graph, order: &[NodeId]) -> (r: Vec<SavedConnection>)
    requires
        g.wf(),
        forall|i: int| 0 <= i < order@.len() ==> #[trigger] g.is_node(order@[i]),
    ensures
        r@ == saved_connections(g, order@),
{
    let t = walk_exec(g, order);
    let ghost ports = walk_ports(t@);
    let mut visited: Vec<bool> = Vec::new();
    let total = g.peek_next_id();
    while visited.len() < total
        invariant
            visited@.len() <= total,
            forall|x: int| 0 <= x < visited@.len() ==> !#[trigger] visited@[x],
        decreases total - visited@.len(),
    {
        visited.push(false);
    }
    proof {
        assert forall|k: int| 0 <= k < t@.len() implies #[trigger] g.is_port(t@[k].1) by {
            lemma_walk_ports_exist(g, order@, order@.len(), k);
        }
    }
    let mut r: Vec<SavedConnection> = Vec::new();
    let mut k: usize = 0;
    while k < t.len()
        invariant
            k <= t@.len(),
            t@ == walk(g, order@),
            ports == walk_ports(t@),
            g.wf(),
            total == g.next_id(),
            visited@.len() == total,
            forall|x: int| 0 <= x < t@.len() ==> #[trigger] g.is_port(t@[x].1),
            forall|x: int| 0 <= x < total ==> #[trigger] visited@[x] == ports.take(k as int).contains(PortId(x as usize)),
            r@ == saved_upto(g, t@, k as nat),
        decreases t@.len() - k,
    {
        let (n, p) = t[k];
        proof {
            lemma_port_in_range(g, p);
        }
        let e = g.edge(p);
        proof {
            assert(ports.take(k as int + 1) == ports.take(k as int).push(p));
            assert(ports[k as int] == p);
        }
        match e {
            Some(q) => {
                proof {
                    law_connections_symmetric(g, p);
                    lemma_port_in_range(g, q);
                }
                if !visited[q.0] {
                    let dst = g.port_owner(q);
                    r.push(SavedConnection { src_node: n, src_port: p, dst_node: dst, dst_port: q });
                }
            },
            None => {},
        }
        visited.set(p.0, true);
        proof {
            assert forall|x: int| 0 <= x < total implies #[trigger] visited@[x] == ports.take(k as int + 1).contains(PortId(x as usize)) by {
                if x == p.0 {
                    assert(ports.take(k as int + 1)[k as int] == p);
                } else {
                    if ports.take(k as int + 1).contains(PortId(x as usize)) {
                        let w = choose|w: int| 0 <= w < k + 1 && #[trigger] ports.take(k as int + 1)[w] == PortId(x as usize);
                        assert(w != k);
                        assert(ports.take(k as int)[w] == PortId(x as usize));
                    }
                    if ports.take(k as int).contains(PortId(x as usize)) {
                        let w = choose|w: int| 0 <= w < k && #[trigger] ports.take(k as int)[w] == PortId(x as usize);
                        assert(ports.take(k as int + 1)[w] == PortId(x as usize));
                    }
                }
            }
        }
        k = k + 1;
    }
    r
}

proof fn lemma_walk_ports_exist(g: &Graph, order: Seq<NodeId>, i: nat, k: int)
    requires
        g.wf(),
        i <= order.len(),
        forall|x: int| 0 <= x < order.len() ==> #[trigger] g.is_node(order[x]),
        0 <= k < walk_upto(g, order, i).len(),
    ensures
        g.is_port(walk_upto(g, order, i)[k].1),
        g.port_node(walk_upto(g, order, i)[k].1) == walk_upto(g, order, i)[k].0,
        g.node_ports(walk_upto(g, order, i)[k].0).contains(walk_upto(g, order, i)[k].1),
    decreases i,
{
    if i > 0 {
        let prev = walk_upto(g, order, (i - 1) as nat);
        if k < prev.len() {
            lemma_walk_ports_exist(g, order, (i - 1) as nat, k);
        } else {
            lemma_listed_ports(g, order[i - 1]);
            let n = order[i - 1];
            assert(tagged(g, n)[k - prev.len()] == (n, g.node_ports(n)[k - prev.len()]));
            assert(g.node_ports(n)[k - prev.len()] == walk_upto(g, order, i)[k].1);
        }
    }
}


/// Two saved connections join the same two ports, in either direction.
pub open spec fn same_connection(a: SavedConnection, b: SavedConnection) -> bool {
    (a.src_port == b.src_port && a.dst_port == b.dst_port) || (a.src_port == b.dst_port && a.dst_port
        == b.src_port)
}

proof fn lemma_walk_nodes(g: &Graph, order: Seq<NodeId>, i: nat, k: int)
    requires
        i <= order.len(),
        0 <= k < walk_upto(g, order, i).len(),
    ensures
        exists|x: int| 0 <= x < i && #[trigger] order[x] == walk_upto(g, order, i)[k].0,
    decreases i,
{
    if i > 0 {
        let prev = walk_upto(g, order, (i - 1) as nat);
        if k < prev.len() {
            lemma_walk_nodes(g, order, (i - 1) as nat, k);
            let x = choose|x: int| 0 <= x < i - 1 && #[trigger] order[x] == prev[k].0;
            assert(order[x] == walk_upto(g, order, i)[k].0);
        } else {
            let n = order[i - 1];
            assert(tagged(g, n)[k - prev.len()] == (n, g.node_ports(n)[k - prev.len()]));
            assert(order[i - 1] == walk_upto(g, order, i)[k].0);
        }
    }
}

/// Walking distinct nodes reaches each port at most once.
proof fn lemma_walk_distinct(g: &Graph, order: Seq<NodeId>, i: nat)
    requires
        g.wf(),
        i <= order.len(),
        forall|x: int| 0 <= x < order.len() ==> #[trigger] g.is_node(order[x]),
        forall|x: int, y: int| 0 <= x < y < order.len() ==> #[trigger] order[x] != #[trigger] order[y],
    ensures
        forall|a: int, b: int|
            0 <= a < b < walk_upto(g, order, i).len() ==> #[trigger] walk_upto(g, order, i)[a].1
                != #[trigger] walk_upto(g, order, i)[b].1,
    decreases i,
{
    if i > 0 {
        lemma_walk_distinct(g, order, (i - 1) as nat);
        let prev = walk_upto(g, order, (i - 1) as nat);
        let t = walk_upto(g, order, i);
        let n = order[i - 1];
        lemma_listed_ports(g, n);
        assert forall|a: int, b: int| 0 <= a < b < t.len() implies #[trigger] t[a].1 != #[trigger] t[b].1 by {
            if b < prev.len() {
                assert(t[a] == prev[a]);
                assert(t[b] == prev[b]);
            } else if a >= prev.len() {
                assert(t[a] == (n, g.node_ports(n)[a - prev.len()]));
                assert(t[b] == (n, g.node_ports(n)[b - prev.len()]));
            } else {
                assert(t[a] == prev[a]);
                assert(t[b] == (n, g.node_ports(n)[b - prev.len()]));
                lemma_walk_ports_exist(g, order, (i - 1) as nat, a);
                lemma_walk_nodes(g, order, (i - 1) as nat, a);
                let x = choose|x: int| 0 <= x < i - 1 && #[trigger] order[x] == prev[a].0;
                assert(order[x] != order[i - 1]);
            }
        }
    }
}

proof fn lemma_saved_prefix(g: &Graph, t: Seq<(NodeId, PortId)>, k: nat, m: nat)
    requires
        k <= m <= t.len(),
    ensures
        saved_upto(g, t, k).len() <= saved_upto(g, t, m).len(),
        forall|i: int| 0 <= i < saved_upto(g, t, k).len() ==> #[trigger] saved_upto(g, t, m)[i] == saved_upto(g, t, k)[i],
    decreases m - k,
{
    if k < m {
        lemma_saved_prefix(g, t, k, (m - 1) as nat);
    }
}

spec fn walk_distinct(t: Seq<(NodeId, PortId)>) -> bool {
    forall|a: int, b: int| 0 <= a < b < t.len() ==> #[trigger] t[a].1 != #[trigger] t[b].1
}

proof fn lemma_in_prefix(t: Seq<(NodeId, PortId)>, k: int, x: PortId) -> (w: int)
    requires
        0 <= k <= t.len(),
        walk_ports(t).take(k).contains(x),
    ensures
        0 <= w < k,
        t[w].1 == x,
{
    let w = choose|w: int| 0 <= w < k && #[trigger] walk_ports(t).take(k)[w] == x;
    assert(walk_ports(t)[w] == t[w].1);
    w
}

proof fn lemma_saved_upto(g: &Graph, t: Seq<(NodeId, PortId)>, k: nat)
    requires
        g.wf(),
        k <= t.len(),
        walk_distinct(t),
        forall|x: int| 0 <= x < t.len() ==> #[trigger] g.is_port(t[x].1),
    ensures
        forall|i: int|
            0 <= i < saved_upto(g, t, k).len() ==> {
                let c = #[trigger] saved_upto(g, t, k)[i];
                &&& walk_ports(t).take(k as int).contains(c.src_port)
                &&& g.port_edge(c.src_port) == Some(c.dst_port)
                &&& g.port_node(c.dst_port) == c.dst_node
            },
        forall|i: int|
            0 <= i < saved_upto(g, t, k).len() ==> exists|x: int|
                0 <= x < k && #[trigger] t[x] == (
                #[trigger] saved_upto(g, t, k)[i].src_node,
                saved_upto(g, t, k)[i].src_port,
            ),
        forall|i: int, j: int|
            0 <= i < j < saved_upto(g, t, k).len() ==> !same_connection(
                #[trigger] saved_upto(g, t, k)[i],
                #[trigger] saved_upto(g, t, k)[j],
            ),
    decreases k,
{
    if k > 0 {
        lemma_saved_upto(g, t, (k - 1) as nat);
        let prev = saved_upto(g, t, (k - 1) as nat);
        let cur = saved_upto(g, t, k);
        let ports = walk_ports(t);
        assert forall|x: PortId| ports.take(k - 1).contains(x) implies ports.take(k as int).contains(x) by {
            let w = lemma_in_prefix(t, k - 1, x);
            assert(ports.take(k as int)[w] == x);
        }
        match saved_at(g, t, k - 1) {
            Some(c) => {
                assert(cur == prev.push(c));
                assert(ports.take(k as int)[k - 1] == c.src_port);
                assert forall|i: int, j: int| 0 <= i < j < cur.len() implies !same_connection(
                    #[trigger] cur[i],
                    #[trigger] cur[j],
                ) by {
                    if j == prev.len() {
                        let e = prev[i];
                        assert(cur[i] == e);
                        let w = lemma_in_prefix(t, k - 1, e.src_port);
                        if e.src_port == c.src_port {
                            assert(t[k - 1].1 == c.src_port);
                        }
                        if e.src_port == c.dst_port {
                            assert(ports.take(k - 1).contains(c.dst_port));
                        }
                    } else {
                        assert(cur[i] == prev[i]);
                        assert(cur[j] == prev[j]);
                    }
                }
                assert forall|i: int| 0 <= i < cur.len() implies {
                    let c2 = #[trigger] cur[i];
                    &&& ports.take(k as int).contains(c2.src_port)
                    &&& g.port_edge(c2.src_port) == Some(c2.dst_port)
                    &&& g.port_node(c2.dst_port) == c2.dst_node
                } by {
                    if i < prev.len() {
                        assert(cur[i] == prev[i]);
                    }
                }
            },
            None => {
                assert(cur == prev);
            },
        }
    }
}

/// When a project is saved, each connection between walked ports is written at most once:
/// no two saved entries join the same two ports, and every saved entry is a connection of
/// the graph from a walked port.
pub proof fn law_saved_once(g: &Graph, order: Seq<NodeId>)
    requires
        g.wf(),
        forall|x: int| 0 <= x < order.len() ==> #[trigger] g.is_node(order[x]),
        forall|x: int, y: int| 0 <= x < y < order.len() ==> #[trigger] order[x] != #[trigger] order[y],
    ensures
        forall|i: int, j: int|
            0 <= i < j < saved_connections(g, order).len() ==> !same_connection(
                #[trigger] saved_connections(g, order)[i],
                #[trigger] saved_connections(g, order)[j],
            ),
        forall|i: int|
            0 <= i < saved_connections(g, order).len() ==> {
                let c = #[trigger] saved_connections(g, order)[i];
                &&& walk_ports(walk(g, order)).contains(c.src_port)
                &&& g.port_edge(c.src_port) == Some(c.dst_port)
                &&& g.port_node(c.dst_port) == c.dst_node
            },
{
    let t = walk(g, order);
    lemma_walk_distinct(g, order, order.len());
    assert forall|x: int| 0 <= x < t.len() implies #[trigger] g.is_port(t[x].1) by {
        lemma_walk_ports_exist(g, order, order.len(), x);
    }
    lemma_saved_upto(g, t, t.len());
    assert(walk_ports(t).take(t.len() as int) == walk_ports(t));
}

/// When a project is saved, every connection of a walked port is written: either from
/// that port or, if the port at the other end was walked first, from there.
pub proof fn law_saved_complete(g: &Graph, order: Seq<NodeId>, w: int)
    requires
        g.wf(),
        forall|x: int| 0 <= x < order.len() ==> #[trigger] g.is_node(order[x]),
        forall|x: int, y: int| 0 <= x < y < order.len() ==> #[trigger] order[x] != #[trigger] order[y],
        0 <= w < walk(g, order).len(),
        g.port_edge(walk(g, order)[w].1) is Some,
    ensures
        exists|i: int|
            0 <= i < saved_connections(g, order).len() && same_connection(
                #[trigger] saved_connections(g, order)[i],
                SavedConnection {
                    src_node: walk(g, order)[w].0,
                    src_port: walk(g, order)[w].1,
                    dst_node: g.port_node(g.port_edge(walk(g, order)[w].1)->Some_0),
                    dst_port: g.port_edge(walk(g, order)[w].1)->Some_0,
                },
            ),
{
    let t = walk(g, order);
    let ports = walk_ports(t);
    lemma_walk_distinct(g, order, order.len());
    assert forall|x: int| 0 <= x < t.len() implies #[trigger] g.is_port(t[x].1) by {
        lemma_walk_ports_exist(g, order, order.len(), x);
    }
    let p = t[w].1;
    let q = g.port_edge(p)->Some_0;
    let target = SavedConnection { src_node: t[w].0, src_port: p, dst_node: g.port_node(q), dst_port: q };
    law_connections_symmetric(g, p);
    let full = saved_upto(g, t, t.len());
    if ports.take(w).contains(q) {
        let w2 = lemma_in_prefix(t, w, q);
        assert(g.port_edge(q) == Some(p));
        if ports.take(w2).contains(p) {
            let w3 = lemma_in_prefix(t, w2, p);
            assert(t[w3].1 == t[w].1);
        }
        let c = saved_at(g, t, w2);
        assert(c is Some);
        assert(saved_upto(g, t, (w2 + 1) as nat) == saved_upto(g, t, w2 as nat).push(c->Some_0));
        lemma_saved_prefix(g, t, (w2 + 1) as nat, t.len());
        let i = saved_upto(g, t, w2 as nat).len() as int;
        assert(full[i] == c->Some_0);
        assert(same_connection(full[i], target));
        assert(full == saved_connections(g, order));
        assert(0 <= i < saved_connections(g, order).len() && same_connection(saved_connections(g, order)[i], target));
    } else {
        let c = saved_at(g, t, w);
        assert(c == Some(target));
        assert(saved_upto(g, t, (w + 1) as nat) == saved_upto(g, t, w as nat).push(target));
        lemma_saved_prefix(g, t, (w + 1) as nat, t.len());
        let i = saved_upto(g, t, w as nat).len() as int;
        assert(full[i] == target);
        assert(same_connection(full[i], target));
        assert(full == saved_connections(g, order));
        assert(0 <= i < saved_connections(g, order).len() && same_connection(saved_connections(g, order)[i], target));
    }
}

/// Whether restoring a connection between the first port named `src_port` of `src_node`
/// and the first port named `dst_port` of `dst_node` goes through when both are found.
pub open spec fn restorable(g: &Graph, src_node: NodeId, src_port: Seq<char>, dst_node: NodeId, dst_port: Seq<char>) -> bool {
    match (first_named(g, g.node_ports(src_node), src_port), first_named(g, g.node_ports(dst_node), dst_port)) {
        (Some(a), Some(b)) => connect_result(g, a, b) is Ok && a != b,
        _ => true,
    }
}

/// Restores one saved connection when a project is loaded: the ports are found by name on
/// their nodes and connected. Returns whether both ports were found; if one is missing,
/// nothing changes.
pub fn restore_connection(g: &mut Graph, src_node: NodeId, src_port: &str, dst_node: NodeId, dst_port: &str) -> (found: bool)
    requires
        old(g).wf(),
        old(g).is_node(src_node),
        old(g).is_node(dst_node),
        restorable(old(g), src_node, src_port@, dst_node, dst_port@),
    ensures
        final(g).wf(),
        match (
            first_named(old(g), old(g).node_ports(src_node), src_port@),
            first_named(old(g), old(g).node_ports(dst_node), dst_port@),
        ) {
            (Some(a), Some(b)) => found && connect_post(old(g), final(g), a, b, Ok(())),
            _ => !found && *final(g) == *old(g),
        },
{
    let a = g.find_port(src_node, src_port);
    let b = g.find_port(dst_node, dst_port);
    match (a, b) {
        (Some(a), Some(b)) => {
            proof {
                lemma_listed_ports(g, src_node);
                lemma_listed_ports(g, dst_node);
                let ka = choose|k: int| 0 <= k < g.node_ports(src_node).len() && g.node_ports(src_node)[k] == a;
                let kb = choose|k: int| 0 <= k < g.node_ports(dst_node).len() && g.node_ports(dst_node)[k] == b;
                assert(g.is_port(g.node_ports(src_node)[ka]));
                assert(g.is_port(g.node_ports(dst_node)[kb]));
            }
            let _ = g.connect(a, b);
            true
        },
        _ => false,
    }
}

/// No two ports of `ports` share a name in `g`.
pub open spec fn names_distinct(g: &Graph, ports: Seq<PortId>) -> bool {
    forall|k: int, l: int|
        0 <= k < ports.len() && 0 <= l < ports.len() && k != l ==> #[trigger] g.port_name(ports[k])
            != #[trigger] g.port_name(ports[l])
}

proof fn lemma_first_named_unique(g: &Graph, ports: Seq<PortId>, name: Seq<char>, i: int)
    requires
        0 <= i < ports.len(),
        g.port_name(ports[i]) == name,
        names_distinct(g, ports),
    ensures
        first_named(g, ports, name) == Some(ports[i]),
    decreases ports.len(),
{
    if i > 0 {
        let rest = ports.drop_first();
        assert(g.port_name(ports[0]) != g.port_name(ports[i]));
        assert(rest[i - 1] == ports[i]);
        assert(names_distinct(g, rest)) by {
            assert forall|k: int, l: int|
                0 <= k < rest.len() && 0 <= l < rest.len() && k != l implies #[trigger] g.port_name(rest[k])
                    != #[trigger] g.port_name(rest[l]) by {
                assert(rest[k] == ports[k + 1] && rest[l] == ports[l + 1]);
            }
        }
        lemma_first_named_unique(g, rest, name, i - 1);
    }
}

/// Restoring a saved connection re-creates it: onto a graph `h` in which the connection's
/// two nodes list the same ports as in the saved graph `g`, with the same names and item
/// types, and in which neither of its two ports is connected, the ports found by name are
/// the two ports of the connection and connecting them goes through. This holds where no
/// two ports of either node share a name and the port at the far end is still listed by
/// its node.
pub proof fn law_restore_recreates(g: &Graph, order: Seq<NodeId>, i: int, h: &Graph)
    requires
        g.wf(),
        forall|x: int| 0 <= x < order.len() ==> #[trigger] g.is_node(order[x]),
        forall|x: int, y: int| 0 <= x < y < order.len() ==> #[trigger] order[x] != #[trigger] order[y],
        0 <= i < saved_connections(g, order).len(),
        h.wf(),
        ({
            let c = saved_connections(g, order)[i];
            &&& h.is_node(c.src_node)
            &&& h.is_node(c.dst_node)
            &&& h.node_ports(c.src_node) == g.node_ports(c.src_node)
            &&& h.node_ports(c.dst_node) == g.node_ports(c.dst_node)
            &&& forall|k: int|
                0 <= k < g.node_ports(c.src_node).len() ==> h.same_port_meta(
                    g,
                    #[trigger] g.node_ports(c.src_node)[k],
                )
            &&& forall|k: int|
                0 <= k < g.node_ports(c.dst_node).len() ==> h.same_port_meta(
                    g,
                    #[trigger] g.node_ports(c.dst_node)[k],
                )
            &&& names_distinct(g, g.node_ports(c.src_node))
            &&& names_distinct(g, g.node_ports(c.dst_node))
            &&& g.node_ports(c.dst_node).contains(c.dst_port)
            &&& h.port_edge(c.src_port) is None
            &&& h.port_edge(c.dst_port) is None
        }),
    ensures
        ({
            let c = saved_connections(g, order)[i];
            &&& g.port_edge(c.src_port) == Some(c.dst_port)
            &&& first_named(h, h.node_ports(c.src_node), g.port_name(c.src_port)) == Some(c.src_port)
            &&& first_named(h, h.node_ports(c.dst_node), g.port_name(c.dst_port)) == Some(c.dst_port)
            &&& connect_result(h, c.src_port, c.dst_port) is Ok
            &&& restorable(h, c.src_node, g.port_name(c.src_port), c.dst_node, g.port_name(c.dst_port))
        }),
{
    let t = walk(g, order);
    let c = saved_connections(g, order)[i];
    law_saved_once(g, order);
    lemma_walk_distinct(g, order, order.len());
    assert forall|x: int| 0 <= x < t.len() implies #[trigger] g.is_port(t[x].1) by {
        lemma_walk_ports_exist(g, order, order.len(), x);
    }
    lemma_saved_upto(g, t, t.len());
    let x = choose|x: int| 0 <= x < t.len() && #[trigger] t[x] == (c.src_node, c.src_port);
    lemma_walk_ports_exist(g, order, order.len(), x);
    assert(g.node_ports(c.src_node).contains(c.src_port));
    law_connections_symmetric(g, c.src_port);
    let ps = g.node_ports(c.src_node);
    let pd = g.node_ports(c.dst_node);
    let ks = choose|k: int| 0 <= k < ps.len() && ps[k] == c.src_port;
    let kd = choose|k: int| 0 <= k < pd.len() && pd[k] == c.dst_port;
    assert(h.same_port_meta(g, ps[ks]));
    assert(h.same_port_meta(g, pd[kd]));
    assert(names_distinct(h, ps)) by {
        assert forall|k: int, l: int|
            0 <= k < ps.len() && 0 <= l < ps.len() && k != l implies #[trigger] h.port_name(ps[k])
                != #[trigger] h.port_name(ps[l]) by {
            assert(h.same_port_meta(g, ps[k]));
            assert(h.same_port_meta(g, ps[l]));
        }
    }
    assert(names_distinct(h, pd)) by {
        assert forall|k: int, l: int|
            0 <= k < pd.len() && 0 <= l < pd.len() && k != l implies #[trigger] h.port_name(pd[k])
                != #[trigger] h.port_name(pd[l]) by {
            assert(h.same_port_meta(g, pd[k]));
            assert(h.same_port_meta(g, pd[l]));
        }
    }
    lemma_first_named_unique(h, ps, g.port_name(c.src_port), ks);
    lemma_first_named_unique(h, pd, g.port_name(c.dst_port), kd);
}

} // verus!
