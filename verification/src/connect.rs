//! Jacks are the connection points drawn on modules; wires connect pairs of jacks. A jack
//! context manages how connections between its jacks are made: a click on a jack starts a
//! wire, and a click on another jack completes it.

use vstd::prelude::*;
use crate::event::{ButtonState, MouseButton};

verus! {

/// What a jack stands for: something with a label that can be connected to, and
/// disconnected from, another of its kind.
pub trait JackBackend {
    fn label(&self) -> &str;
    fn connect(&self, other: &Self);
    fn disconnect(&self);
}

/// The connection state of one jack. Of the two jacks of a wire, the one that draws it is
/// the head and the other the tail; a floating jack has a wire in progress.
#[derive(Clone, Copy, PartialEq, Eq, Structural, Debug)]
pub enum Connection {
    Unconnected,
    Head { endpoint: usize },
    Tail { endpoint: usize },
    Floating,
}

/// What a click asks of the backends, in this order: disconnect the clicked jack's backend,
/// then connect it to the backend of the given jack.
#[derive(Clone, Copy, PartialEq, Eq, Structural, Debug)]
pub struct JackAction {
    pub disconnect: bool,
    pub connect: Option<usize>,
}

/// A jack, by its position in its context.
#[derive(Clone, Copy, PartialEq, Eq, Structural, Debug)]
pub struct Jack {
    pub index: usize,
}

/// The jacks of one context, and the jack whose wire is in progress, if any.
pub struct JackContext {
    connections: Vec<Connection>,
    alive: Vec<bool>,
    in_progress: Option<usize>,
}

impl JackContext {
    /// The number of jacks ever made in this context.
    pub closed spec fn len(&self) -> nat {
        self.connections@.len()
    }

    /// Whether jack `j` still exists.
    pub closed spec fn is_alive(&self, j: int) -> bool {
        0 <= j < self.alive@.len() && self.alive@[j]
    }

    /// The connection state of jack `j`.
    pub closed spec fn connection(&self, j: int) -> Connection {
        self.connections@[j]
    }

    /// The jack whose wire is in progress, if any.
    pub closed spec fn pending(&self) -> Option<usize> {
        self.in_progress
    }

    /// The jack at the other end of `j`'s wire, if that jack still exists.
    pub open spec fn endpoint(&self, j: int) -> Option<usize> {
        match self.connection(j) {
            Connection::Head { endpoint } | Connection::Tail { endpoint } => if self.is_alive(
                endpoint as int,
            ) {
                Some(endpoint)
            } else {
                None
            },
            _ => None,
        }
    }

    /// The in-progress jack, if it still exists.
    pub open spec fn live_pending(&self) -> Option<usize> {
        match self.pending() {
            Some(e) => if self.is_alive(e as int) {
                Some(e)
            } else {
                None
            },
            None => None,
        }
    }

    /// Wires pair living jacks: a head's living endpoint is a tail that points back at it,
    /// and the other way round; a living floating jack is the one in progress, and the
    /// living jack in progress is floating.
    pub open spec fn paired(&self) -> bool {
        &&& forall|i: int|
            #![trigger self.connection(i)]
            self.is_alive(i) ==> match self.connection(i) {
                Connection::Head { endpoint } => self.is_alive(endpoint as int) ==> self.connection(
                    endpoint as int,
                ) == (Connection::Tail { endpoint: i as usize }),
                Connection::Tail { endpoint } => self.is_alive(endpoint as int) ==> self.connection(
                    endpoint as int,
                ) == (Connection::Head { endpoint: i as usize }),
                Connection::Floating => self.pending() == Some(i as usize),
                Connection::Unconnected => true,
            }
        &&& match self.pending() {
            Some(e) => self.is_alive(e as int) ==> self.connection(e as int) == Connection::Floating,
            None => true,
        }
    }

    /// The context's invariant.
    pub open spec fn wf(&self) -> bool {
        &&& self.inner_wf()
        &&& self.paired()
    }

    /// The two tables have one entry per jack.
    pub closed spec fn inner_wf(&self) -> bool {
        &&& self.alive@.len() == self.connections@.len()
        &&& self.connections@.len() <= usize::MAX
        &&& forall|i: int|
            0 <= i < self.connections@.len() ==> match #[trigger] self.connections@[i] {
                Connection::Head { endpoint } | Connection::Tail { endpoint } => endpoint < self.connections@.len(),
                _ => true,
            }
        &&& match self.in_progress {
            Some(e) => e < self.connections@.len(),
            None => true,
        }
    }

    /// An empty context.
    pub fn new() -> (c: JackContext)
        ensures
            c.wf(),
            c.len() == 0,
            c.pending() is None,
    {
        JackContext { connections: Vec::new(), alive: Vec::new(), in_progress: None }
    }

    /// Makes a new, unconnected jack.
    pub fn new_jack(&mut self) -> (j: Jack)
        requires
            old(self).wf(),
        ensures
            final(self).wf(),
            j.index == old(self).len(),
            final(self).len() == old(self).len() + 1,
            final(self).is_alive(j.index as int),
            final(self).connection(j.index as int) == Connection::Unconnected,
            final(self).pending() == old(self).pending(),
            forall|i: int|
                0 <= i < old(self).len() ==> #[trigger] final(self).connection(i) == old(self).connection(i)
                    && final(self).is_alive(i) == old(self).is_alive(i),
    {
        let j = Jack { index: self.connections.len() };
        self.connections.push(Connection::Unconnected);
        self.alive.push(true);
        proof {
            let pre = *old(self);
            assert(forall|i: int| 0 <= i < pre.len() ==> self.connections@[i] == pre.connections@[i]);
            assert(self.connections@.len() == self.connections.len());
            assert(self.inner_wf()) by {
                assert forall|i: int| 0 <= i < self.connections@.len() implies match #[trigger] self.connections@[i] {
                    Connection::Head { endpoint } | Connection::Tail { endpoint } => endpoint < self.connections@.len(),
                    _ => true,
                } by {
                    if i < pre.len() {
                        let _ = pre.connections@[i];
                    }
                }
            }
            assert forall|i: int| paired_at(*self, i) by {
                if self.is_alive(i) && i < pre.len() {
                    lemma_paired_at(pre, i);
                    let _ = pre.connections@[i];
                }
            }
            lemma_paired_from_points(*self);
        }
        j
    }

    /// Drops jack `j`: it no longer takes part in any wire.
    pub fn drop_jack(&mut self, j: Jack)
        requires
            old(self).wf(),
            j.index < old(self).len(),
        ensures
            final(self).wf(),
            final(self).len() == old(self).len(),
            !final(self).is_alive(j.index as int),
            final(self).pending() == old(self).pending(),
            forall|i: int|
                0 <= i < old(self).len() ==> #[trigger] final(self).connection(i) == old(self).connection(i)
                    && (i != j.index ==> final(self).is_alive(i) == old(self).is_alive(i)),
    {
        self.alive.set(j.index, false);
        proof {
            let pre = *old(self);
            assert forall|i: int| paired_at(*self, i) by {
                if self.is_alive(i) {
                    lemma_paired_at(pre, i);
                }
            }
            lemma_paired_from_points(*self);
        }
    }

    /// The connection state of jack `j`.
    pub fn connection_of(&self, j: Jack) -> (r: Connection)
        requires
            j.index < self.len(),
            self.inner_wf(),
        ensures
            r == self.connection(j.index as int),
    {
        self.connections[j.index]
    }

    /// Whether jack `j` still exists.
    pub fn alive(&self, j: Jack) -> (r: bool)
        requires
            self.inner_wf(),
        ensures
            r == self.is_alive(j.index as int),
    {
        j.index < self.alive.len() && self.alive[j.index]
    }

    fn endpoint_of(&self, j: usize) -> (r: Option<usize>)
        requires
            self.inner_wf(),
            j < self.len(),
        ensures
            r == self.endpoint(j as int),
    {
        match self.connections[j] {
            Connection::Head { endpoint } | Connection::Tail { endpoint } => {
                if endpoint < self.alive.len() && self.alive[endpoint] {
                    Some(endpoint)
                } else {
                    None
                }
            },
            _ => None,
        }
    }

    /// The jack at the other end of `j`'s wire, if that jack still exists.
    pub fn endpoint_jack(&self, j: Jack) -> (r: Option<Jack>)
        requires
            self.inner_wf(),
            j.index < self.len(),
        ensures
            match self.endpoint(j.index as int) {
                Some(e) => r == Some(Jack { index: e }),
                None => r is None,
            },
    {
        match self.endpoint_of(j.index) {
            Some(e) => Some(Jack { index: e }),
            None => None,
        }
    }

    /// A left-button press, with focus, on living jack `j`. If another living jack has a
    /// wire in progress, the wire is completed from it (the head) to `j` (the tail).
    /// Otherwise `j` starts a wire. Either way, `j` first leaves the wire it was part of.
    /// A press on the jack whose wire is in progress does nothing.
    pub fn click(&mut self, j: Jack) -> (action: JackAction)
        requires
            old(self).wf(),
            old(self).is_alive(j.index as int),
        ensures
            final(self).wf(),
            final(self).len() == old(self).len(),
            forall|i: int| #[trigger] final(self).is_alive(i) == old(self).is_alive(i),
            click_post(old(self), final(self), j.index as int, action),
    {
        let jx = j.index;
        let pending = match self.in_progress {
            Some(e) => if e < self.alive.len() && self.alive[e] {
                Some(e)
            } else {
                None
            },
            None => None,
        };
        if pending == Some(jx) {
            return JackAction { disconnect: false, connect: None };
        }
        let ghost pre = *self;
        let was_connected = self.endpoint_of(jx).is_some();
        match self.endpoint_of(jx) {
            Some(other) => {
                self.connections.set(other, Connection::Unconnected);
                self.connections.set(jx, Connection::Unconnected);
            },
            None => {},
        }
        let ghost mid = *self;
        match pending {
            Some(e) => {
                self.connections.set(jx, Connection::Tail { endpoint: e });
                self.connections.set(e, Connection::Head { endpoint: jx });
                self.in_progress = None;
                proof {
                    lemma_click_connect_paired(pre, mid, *self, jx, e);
                }
                JackAction { disconnect: was_connected, connect: Some(e) }
            },
            None => {
                self.connections.set(jx, Connection::Floating);
                self.in_progress = Some(jx);
                proof {
                    lemma_click_start_paired(pre, mid, *self, jx);
                }
                JackAction { disconnect: was_connected, connect: None }
            },
        }
    }
}

/// What a press on jack `j` of `c0` leaves in `c1` and asks of the backends.
pub open spec fn click_post(c0: &JackContext, c1: &JackContext, j: int, action: JackAction) -> bool {
    if c0.live_pending() == Some(j as usize) {
        &&& action == (JackAction { disconnect: false, connect: None })
        &&& c1.pending() == c0.pending()
        &&& forall|i: int| 0 <= i < c0.len() ==> #[trigger] c1.connection(i) == c0.connection(i)
    } else {
        let old_end = c0.endpoint(j);
        &&& action.disconnect == old_end is Some
        &&& match c0.live_pending() {
            Some(e) => {
                &&& action.connect == Some(e)
                &&& c1.pending() is None
                &&& c1.connection(j) == (Connection::Tail { endpoint: e })
                &&& c1.connection(e as int) == (Connection::Head { endpoint: j as usize })
                &&& forall|i: int|
                    0 <= i < c0.len() && i != j && i != e ==> #[trigger] c1.connection(i) == (if old_end
                        == Some(i as usize) {
                        Connection::Unconnected
                    } else {
                        c0.connection(i)
                    })
            },
            None => {
                &&& action.connect is None
                &&& c1.pending() == Some(j as usize)
                &&& c1.connection(j) == Connection::Floating
                &&& forall|i: int|
                    0 <= i < c0.len() && i != j ==> #[trigger] c1.connection(i) == (if old_end == Some(
                        i as usize,
                    ) {
                        Connection::Unconnected
                    } else {
                        c0.connection(i)
                    })
            },
        }
    }
}

spec fn paired_at(c: JackContext, i: int) -> bool {
    c.is_alive(i) ==> match c.connection(i) {
        Connection::Head { endpoint } => c.is_alive(endpoint as int) ==> c.connection(endpoint as int)
            == (Connection::Tail { endpoint: i as usize }),
        Connection::Tail { endpoint } => c.is_alive(endpoint as int) ==> c.connection(endpoint as int)
            == (Connection::Head { endpoint: i as usize }),
        Connection::Floating => c.pending() == Some(i as usize),
        Connection::Unconnected => true,
    }
}

proof fn lemma_paired_from_points(c: JackContext)
    requires
        forall|i: int| paired_at(c, i),
        match c.pending() {
            Some(e) => c.is_alive(e as int) ==> c.connection(e as int) == Connection::Floating,
            None => true,
        },
    ensures
        c.paired(),
{
    assert forall|i: int| c.is_alive(i) implies match #[trigger] c.connection(i) {
        Connection::Head { endpoint } => c.is_alive(endpoint as int) ==> c.connection(endpoint as int)
            == (Connection::Tail { endpoint: i as usize }),
        Connection::Tail { endpoint } => c.is_alive(endpoint as int) ==> c.connection(endpoint as int)
            == (Connection::Head { endpoint: i as usize }),
        Connection::Floating => c.pending() == Some(i as usize),
        Connection::Unconnected => true,
    } by {
        assert(paired_at(c, i));
    }
}

proof fn lemma_paired_at(c: JackContext, i: int)
    requires
        c.paired(),
    ensures
        paired_at(c, i),
{
    if c.is_alive(i) {
        let _ = c.connection(i);
    }
}

/// The connection states after a press on `j` that completes the wire from `e`.
spec fn connected_state(pre: JackContext, j: int, e: int, x: int) -> Connection {
    if x == e {
        Connection::Head { endpoint: j as usize }
    } else if x == j {
        Connection::Tail { endpoint: e as usize }
    } else if pre.endpoint(j) == Some(x as usize) {
        Connection::Unconnected
    } else {
        pre.connection(x)
    }
}

/// The connection states after a press on `j` that starts a wire.
spec fn started_state(pre: JackContext, j: int, x: int) -> Connection {
    if x == j {
        Connection::Floating
    } else if pre.endpoint(j) == Some(x as usize) {
        Connection::Unconnected
    } else {
        pre.connection(x)
    }
}

proof fn lemma_old_endpoint(pre: JackContext, j: usize)
    requires
        pre.wf(),
        pre.is_alive(j as int),
        pre.endpoint(j as int) is Some,
    ensures
        ({
            let o = pre.endpoint(j as int)->Some_0;
            &&& o != j
            &&& pre.is_alive(o as int)
            &&& o < pre.len()
            &&& (pre.connection(o as int) == (Connection::Head { endpoint: j })
                || pre.connection(o as int) == (Connection::Tail { endpoint: j }))
        }),
{
    lemma_paired_at(pre, j as int);
    let o = pre.endpoint(j as int)->Some_0;
    if o == j {
        assert(false);
    }
}

proof fn lemma_click_connect_paired(pre: JackContext, mid: JackContext, post: JackContext, j: usize, e: usize)
    requires
        pre.wf(),
        pre.is_alive(j as int),
        pre.live_pending() == Some(e),
        e != j,
        mid.alive@ == pre.alive@,
        mid.in_progress == pre.in_progress,
        mid.connections@.len() == pre.connections@.len(),
        match pre.endpoint(j as int) {
            Some(o) => mid.connections@ == pre.connections@.update(o as int, Connection::Unconnected).update(j as int, Connection::Unconnected),
            None => mid.connections@ == pre.connections@,
        },
        post.alive@ == pre.alive@,
        post.in_progress is None,
        post.connections@ == mid.connections@.update(j as int, Connection::Tail { endpoint: e }).update(
            e as int,
            Connection::Head { endpoint: j },
        ),
    ensures
        post.wf(),
        click_post(&pre, &post, j as int, JackAction { disconnect: pre.endpoint(j as int) is Some, connect: Some(e) }),
{
    lemma_paired_at(pre, e as int);
    assert(pre.connection(e as int) == Connection::Floating);
    if pre.endpoint(j as int) is Some {
        lemma_old_endpoint(pre, j);
    }
    assert forall|x: int| 0 <= x < pre.len() implies #[trigger] post.connection(x) == connected_state(pre, j as int, e as int, x) by {
        match pre.endpoint(j as int) {
            Some(o) => {
                assert(mid.connections@[x] == (if x == j as int { Connection::Unconnected } else if x == o as int { Connection::Unconnected } else { pre.connections@[x] }));
            },
            None => {},
        }
    }
    assert(post.inner_wf()) by {
        assert forall|i: int| 0 <= i < post.connections@.len() implies match #[trigger] post.connections@[i] {
            Connection::Head { endpoint } | Connection::Tail { endpoint } => endpoint < post.connections@.len(),
            _ => true,
        } by {
            assert(post.connection(i) == connected_state(pre, j as int, e as int, i));
            let _ = pre.connections@[i];
        }
    }
    assert forall|i: int| paired_at(post, i) by {
        if post.is_alive(i) {
            assert(pre.is_alive(i));
            lemma_paired_at(pre, i);
            assert(post.connection(i) == connected_state(pre, j as int, e as int, i));
            match post.connection(i) {
                Connection::Head { endpoint } => {
                    if i != e as int {
                        assert(post.connection(i) == pre.connection(i));
                        if post.is_alive(endpoint as int) {
                            let k = endpoint as int;
                            assert(pre.connection(k) == (Connection::Tail { endpoint: i as usize }));
                            assert(k != e as int);
                            if k == j as int {
                                assert(pre.endpoint(j as int) == Some(i as usize));
                            }
                            if pre.endpoint(j as int) == Some(k as usize) {
                                lemma_old_endpoint(pre, j);
                            }
                            assert(post.connection(k) == connected_state(pre, j as int, e as int, k));
                        }
                    }
                },
                Connection::Tail { endpoint } => {
                    if i != j as int {
                        assert(post.connection(i) == pre.connection(i));
                        if post.is_alive(endpoint as int) {
                            let k = endpoint as int;
                            assert(pre.connection(k) == (Connection::Head { endpoint: i as usize }));
                            assert(k != e as int);
                            if k == j as int {
                                assert(pre.endpoint(j as int) == Some(i as usize));
                            }
                            if pre.endpoint(j as int) == Some(k as usize) {
                                lemma_old_endpoint(pre, j);
                            }
                            assert(post.connection(k) == connected_state(pre, j as int, e as int, k));
                        }
                    }
                },
                Connection::Floating => {
                    assert(post.connection(i) == pre.connection(i));
                    assert(pre.pending() == Some(i as usize));
                },
                Connection::Unconnected => {},
            }
        }
    }
    lemma_paired_from_points(post);
}

proof fn lemma_click_start_paired(pre: JackContext, mid: JackContext, post: JackContext, j: usize)
    requires
        pre.wf(),
        pre.is_alive(j as int),
        pre.live_pending() is None,
        mid.alive@ == pre.alive@,
        mid.in_progress == pre.in_progress,
        mid.connections@.len() == pre.connections@.len(),
        match pre.endpoint(j as int) {
            Some(o) => mid.connections@ == pre.connections@.update(o as int, Connection::Unconnected).update(j as int, Connection::Unconnected),
            None => mid.connections@ == pre.connections@,
        },
        post.alive@ == pre.alive@,
        post.in_progress == Some(j),
        post.connections@ == mid.connections@.update(j as int, Connection::Floating),
    ensures
        post.wf(),
        click_post(&pre, &post, j as int, JackAction { disconnect: pre.endpoint(j as int) is Some, connect: None }),
{
    if pre.endpoint(j as int) is Some {
        lemma_old_endpoint(pre, j);
    }
    assert forall|x: int| 0 <= x < pre.len() implies #[trigger] post.connection(x) == started_state(pre, j as int, x) by {
        match pre.endpoint(j as int) {
            Some(o) => {
                assert(mid.connections@[x] == (if x == j as int { Connection::Unconnected } else if x == o as int { Connection::Unconnected } else { pre.connections@[x] }));
            },
            None => {},
        }
    }
    assert(post.inner_wf()) by {
        assert forall|i: int| 0 <= i < post.connections@.len() implies match #[trigger] post.connections@[i] {
            Connection::Head { endpoint } | Connection::Tail { endpoint } => endpoint < post.connections@.len(),
            _ => true,
        } by {
            assert(post.connection(i) == started_state(pre, j as int, i));
            let _ = pre.connections@[i];
        }
    }
    assert forall|i: int| paired_at(post, i) by {
        if post.is_alive(i) {
            assert(pre.is_alive(i));
            lemma_paired_at(pre, i);
            assert(post.connection(i) == started_state(pre, j as int, i));
            match post.connection(i) {
                Connection::Head { endpoint } => {
                    assert(post.connection(i) == pre.connection(i));
                    if post.is_alive(endpoint as int) {
                        let k = endpoint as int;
                        if k == j as int {
                            assert(pre.endpoint(j as int) == Some(i as usize));
                        }
                        if pre.endpoint(j as int) == Some(k as usize) {
                            lemma_old_endpoint(pre, j);
                        }
                        assert(post.connection(k) == started_state(pre, j as int, k));
                    }
                },
                Connection::Tail { endpoint } => {
                    assert(post.connection(i) == pre.connection(i));
                    if post.is_alive(endpoint as int) {
                        let k = endpoint as int;
                        if k == j as int {
                            assert(pre.endpoint(j as int) == Some(i as usize));
                        }
                        if pre.endpoint(j as int) == Some(k as usize) {
                            lemma_old_endpoint(pre, j);
                        }
                        assert(post.connection(k) == started_state(pre, j as int, k));
                    }
                },
                Connection::Floating => {
                    if i != j as int {
                        assert(post.connection(i) == pre.connection(i));
                        assert(pre.pending() == Some(i as usize));
                    }
                },
                Connection::Unconnected => {},
            }
        }
    }
    lemma_paired_from_points(post);
}

impl JackContext {
    /// Draws the wire of a connection that already exists between the jacks' ports, as when
    /// a project is loaded: `a` becomes the head and `b` the tail. Neither jack may be part
    /// of a wire or have a wire in progress.
    pub fn wire(&mut self, a: Jack, b: Jack)
        requires
            old(self).wf(),
            old(self).is_alive(a.index as int),
            old(self).is_alive(b.index as int),
            a.index != b.index,
            old(self).endpoint(a.index as int) is None,
            old(self).endpoint(b.index as int) is None,
            old(self).live_pending() != Some(a.index),
            old(self).live_pending() != Some(b.index),
        ensures
            final(self).wf(),
            final(self).len() == old(self).len(),
            forall|i: int| #[trigger] final(self).is_alive(i) == old(self).is_alive(i),
            final(self).pending() == old(self).pending(),
            final(self).connection(a.index as int) == (Connection::Head { endpoint: b.index }),
            final(self).connection(b.index as int) == (Connection::Tail { endpoint: a.index }),
            forall|i: int|
                0 <= i < old(self).len() && i != a.index && i != b.index ==> #[trigger] final(self).connection(i)
                    == old(self).connection(i),
    {
        let ghost pre = *self;
        self.connections.set(a.index, Connection::Head { endpoint: b.index });
        self.connections.set(b.index, Connection::Tail { endpoint: a.index });
        proof {
            let post = *self;
            let (x, y) = (a.index as int, b.index as int);
            assert(post.inner_wf()) by {
                assert forall|i: int| 0 <= i < post.connections@.len() implies match #[trigger] post.connections@[i] {
                    Connection::Head { endpoint } | Connection::Tail { endpoint } => endpoint < post.connections@.len(),
                    _ => true,
                } by {
                    let _ = pre.connections@[i];
                }
            }
            assert forall|i: int| paired_at(post, i) by {
                if post.is_alive(i) && i != x && i != y {
                    lemma_paired_at(pre, i);
                    assert(post.connection(i) == pre.connection(i));
                    match pre.connection(i) {
                        Connection::Head { endpoint } | Connection::Tail { endpoint } => {
                            let k = endpoint as int;
                            if pre.is_alive(k) {
                                if k == x || k == y {
                                    lemma_paired_at(pre, k);
                                    assert(pre.endpoint(k) == Some(i as usize));
                                }
                                assert(post.connection(k) == pre.connection(k));
                            }
                        },
                        _ => {},
                    }
                }
            }
            match pre.pending() {
                Some(e) => if pre.is_alive(e as int) {
                    assert(post.connection(e as int) == pre.connection(e as int));
                },
                None => {},
            }
            lemma_paired_from_points(post);
        }
    }
}

impl JackContext {
    /// A click on jack `j`, which the pointer is over or not as `inside` says: only a press
    /// of the left button over the jack, with the focus, does anything, and then it is a
    /// `click`. Any other click asks nothing and changes nothing.
    pub fn handle_click(
        &mut self,
        j: Jack,
        focus: bool,
        inside: bool,
        button: MouseButton,
        state: ButtonState,
    ) -> (action: JackAction)
        requires
            old(self).wf(),
            old(self).is_alive(j.index as int),
        ensures
            final(self).wf(),
            final(self).len() == old(self).len(),
            forall|i: int| #[trigger] final(self).is_alive(i) == old(self).is_alive(i),
            if focus && inside && button == MouseButton::Left && state == ButtonState::Pressed {
                click_post(old(self), final(self), j.index as int, action)
            } else {
                &&& action == (JackAction { disconnect: false, connect: None })
                &&& final(self).pending() == old(self).pending()
                &&& forall|i: int| 0 <= i < old(self).len() ==> #[trigger] final(self).connection(i)
                    == old(self).connection(i)
            },
    {
        if focus && inside && button == MouseButton::Left && state == ButtonState::Pressed {
            self.click(j)
        } else {
            JackAction { disconnect: false, connect: None }
        }
    }
}

/// Every wire of a jack leads to a jack of the context, and the jack whose wire is in
/// progress is one of its jacks.
pub proof fn law_endpoints_in_context(c: &JackContext, i: int)
    requires
        c.wf(),
        0 <= i < c.len(),
    ensures
        match c.connection(i) {
            Connection::Head { endpoint } | Connection::Tail { endpoint } => endpoint < c.len(),
            _ => true,
        },
        match c.pending() {
            Some(e) => e < c.len(),
            None => true,
        },
{
    let _ = c.connections@[i];
}

/// A wire joins two living jacks both ways: if the other end of `i`'s wire is `k`, then
/// the other end of `k`'s wire is `i`, and one of them is the head and the other the tail.
pub proof fn law_wires_are_mutual(c: &JackContext, i: int)
    requires
        c.wf(),
        c.is_alive(i),
        c.endpoint(i) is Some,
    ensures
        c.endpoint(c.endpoint(i)->Some_0 as int) == Some(i as usize),
        (c.connection(i) is Head && c.connection(c.endpoint(i)->Some_0 as int) is Tail)
            || (c.connection(i) is Tail && c.connection(c.endpoint(i)->Some_0 as int) is Head),
{
    lemma_paired_at(*c, i);
}

/// At most one living jack has a wire in progress: the one the context holds as pending.
pub proof fn law_one_wire_in_progress(c: &JackContext, i: int)
    requires
        c.wf(),
        c.is_alive(i),
        c.connection(i) == Connection::Floating,
    ensures
        c.pending() == Some(i as usize),
{
    lemma_paired_at(*c, i);
}

} // verus!
