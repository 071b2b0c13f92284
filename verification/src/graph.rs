use crate::entity_set::{entity_set_items, EntitySet};
use crate::graph_state::{Graph, GraphView, UndoAction, UndoMutation};
use crate::text::{str_contains, str_eq, text_contains};
use vstd::prelude::*;

verus! {

/// Id of a node within a graph, used in serialization and undo/redo entries.
#[derive(Clone, Copy, Debug, PartialEq, Eq, Hash, Structural)]
pub struct GraphNodeId(pub usize);

/// Defines whether the material output of a node has changed, and whether it's being rebuilt.
#[derive(Clone, Copy, Debug, PartialEq, Eq, Structural)]
pub enum NodeOutputState {
    /// Material handle is up to date.
    Ready,
    /// Material has changed, but is not rebuilding.
    Modified,
    /// Material is being rebuilt in an async task.
    Building,
}

impl Default for NodeOutputState {
    fn default() -> (res: Self)
        ensures
            res == NodeOutputState::Modified,
    {
        NodeOutputState::Modified
    }
}

/// The type of an input or output terminal. If the data type does not match, then values
/// will be coerced to the proper type.
#[derive(Clone, Copy, Debug, PartialEq, Eq, Hash, Structural)]
pub enum ConnectionDataType {
    /// A scalar value
    Scalar,
    /// A vector with 2-4 components (Vec2, Vec3 or Vec4).
    Vector,
    /// An RGBA color in either sRGBA or Linear RGBA color space.
    Color,
}

/// The input end of a connection. Entities are given by their id bits.
#[derive(Clone, Copy, Debug, PartialEq, Eq, Hash)]
pub struct InputTerminalId {
    pub node_id: u64,
    pub terminal_name: &'static str,
    pub terminal_id: u64,
}

/// The output end of a connection.
#[derive(Clone, Copy, Debug, PartialEq, Eq, Hash)]
pub struct OutputTerminalId {
    pub node_id: u64,
    pub terminal_name: &'static str,
    pub terminal_id: u64,
}

/// A connection from an output terminal to an input terminal.
#[derive(Clone, Copy, Debug, PartialEq, Eq, Hash)]
pub struct Connection {
    pub output: OutputTerminalId,
    pub input: InputTerminalId,
}

/// An input or output terminal of a node.
#[derive(Debug)]
pub struct Terminal {
    /// Entity id of the node that owns this terminal.
    pub node_id: u64,
    /// Name of this field
    pub name: &'static str,
    /// Data type for this connection
    pub data_type: ConnectionDataType,
    /// The connections to this terminal, each once.
    pub connections: Vec<u64>,
}

impl Terminal {
    /// Whether any connection ends at this terminal.
    pub fn is_connected(&self) -> (res: bool)
        ensures
            res == (self.connections@.len() > 0),
    {
        self.connections.len() > 0
    }
}

/// A node within a node graph, as far as the graph commands read it: its id, and the
/// terminals derived from its operator, each as its field name and terminal entity.
#[derive(Debug)]
pub struct GraphNode {
    /// Id of this node. This is used in serialization and undo/redo entries.
    pub index: GraphNodeId,
    /// Position of node relative to graph origin.
    pub position: (i32, i32),
    /// Size of the node, this is calculated by the display code.
    pub size: (i32, i32),
    /// List of input terminals.
    pub inputs: Vec<(&'static str, u64)>,
    /// List of output terminals.
    pub outputs: Vec<(&'static str, u64)>,
}

/// The first terminal of the list with the given name.
pub open spec fn find_terminal_named(s: Seq<(&'static str, u64)>, name: Seq<char>) -> Option<u64>
    decreases s.len(),
{
    if s.len() == 0 {
        None
    } else if s[0].0@ == name {
        Some(s[0].1)
    } else {
        find_terminal_named(s.drop_first(), name)
    }
}

/// The terminal entity of the first entry with the given name.
fn terminal_named(s: &Vec<(&'static str, u64)>, name: &'static str) -> (res: Option<u64>)
    ensures
        res == find_terminal_named(s@, name@),
{
    let mut i: usize = 0;
    proof {
        assert(s@.skip(0) =~= s@);
    }
    while i < s.len()
        invariant
            i <= s.len(),
            find_terminal_named(s@, name@) == find_terminal_named(s@.skip(i as int), name@),
        decreases s.len() - i,
    {
        proof {
            let t = s@.skip(i as int);
            assert(t[0] == s@[i as int]);
            assert(t.drop_first() =~= s@.skip(i + 1));
        }
        if str_eq(s[i].0, name) {
            return Some(s[i].1);
        }
        i += 1;
    }
    proof {
        assert(s@.skip(i as int).len() == 0);
    }
    None
}

impl GraphNode {
    /// Locate the input terminal with the specified name.
    pub fn get_input_terminal(&self, name: &'static str) -> (res: Option<u64>)
        ensures
            res == find_terminal_named(self.inputs@, name@),
    {
        terminal_named(&self.inputs, name)
    }

    /// Locate the output terminal with the specified name.
    pub fn get_output_terminal(&self, name: &'static str) -> (res: Option<u64>)
        ensures
            res == find_terminal_named(self.outputs@, name@),
    {
        terminal_named(&self.outputs, name)
    }
}

/// A node entity with its node, and whether it carries the modified and selected marks.
#[derive(Debug)]
pub struct NodeEntry {
    pub entity: u64,
    pub node: GraphNode,
    pub modified: bool,
    pub selected: bool,
}

/// The graph entities of a world: its nodes, terminals and connections, each terminal and
/// connection with its entity.
#[derive(Debug)]
pub struct GraphWorld {
    pub nodes: Vec<NodeEntry>,
    pub terminals: Vec<(u64, Terminal)>,
    pub connections: Vec<(u64, Connection)>,
}

impl GraphWorld {
    /// No two nodes, terminals or connections share an entity.
    pub open spec fn wf(&self) -> bool {
        &&& forall|i: int, j: int|
            0 <= i < j < self.nodes@.len() ==> #[trigger] self.nodes@[i].entity
                != #[trigger] self.nodes@[j].entity
        &&& forall|i: int, j: int|
            0 <= i < j < self.terminals@.len() ==> #[trigger] self.terminals@[i].0
                != #[trigger] self.terminals@[j].0
        &&& forall|i: int, j: int|
            0 <= i < j < self.connections@.len() ==> #[trigger] self.connections@[i].0
                != #[trigger] self.connections@[j].0
    }

    /// The entity `e` is a node that is not marked modified.
    pub open spec fn unmodified_node(&self, e: u64) -> bool {
        exists|i: int|
            0 <= i < self.nodes@.len() && #[trigger] self.nodes@[i].entity == e
                && !self.nodes@[i].modified
    }

    /// A connection leads from an output terminal of node `a` into node `b`.
    pub open spec fn feeds(&self, a: u64, b: u64) -> bool {
        exists|i: int, j: int, t: int, k: int, c: int|
            #![trigger self.nodes@[i].node.outputs@[j], self.terminals@[t].1.connections@[k], self.connections@[c]]
            0 <= i < self.nodes@.len() && self.nodes@[i].entity == a && 0 <= j
                < self.nodes@[i].node.outputs@.len() && 0 <= t < self.terminals@.len()
                && self.terminals@[t].0 == self.nodes@[i].node.outputs@[j].1 && 0 <= k
                < self.terminals@[t].1.connections@.len() && 0 <= c < self.connections@.len()
                && self.connections@[c].0 == self.terminals@[t].1.connections@[k]
                && self.connections@[c].1.input.node_id == b
    }

    /// A chain of unmodified nodes, each feeding the next.
    pub open spec fn is_chain(&self, p: Seq<u64>) -> bool {
        &&& p.len() > 0
        &&& forall|m: int| 0 <= m < p.len() ==> self.unmodified_node(#[trigger] p[m])
        &&& forall|m: int| 0 <= m < p.len() - 1 ==> self.feeds(#[trigger] p[m], p[m + 1])
    }

    /// Node `e` is reached from `start` along a chain of unmodified nodes.
    pub open spec fn downstream(&self, start: u64, e: u64) -> bool {
        exists|p: Seq<u64>| #[trigger] self.is_chain(p) && p[0] == start && p.last() == e
    }

    /// A connection with entity `id` is present.
    pub open spec fn connection_present(&self, id: u64) -> bool {
        exists|c: int| 0 <= c < self.connections@.len() && #[trigger] self.connections@[c].0 == id
    }

    /// The terminal at position `t` has all its connections present.
    pub open spec fn connections_present(&self, t: int) -> bool {
        forall|k: int|
            0 <= k < self.terminals@[t].1.connections@.len() ==> self.connection_present(
                #[trigger] self.terminals@[t].1.connections@[k],
            )
    }

    /// A terminal with entity `id` is present, and so are its connections.
    pub open spec fn terminal_present(&self, id: u64) -> bool {
        exists|t: int|
            0 <= t < self.terminals@.len() && #[trigger] self.terminals@[t].0 == id
                && self.connections_present(t)
    }

    /// The output terminals of node `e` are present, and so are their connections.
    pub open spec fn outputs_present(&self, e: u64) -> bool {
        forall|i: int, j: int|
            0 <= i < self.nodes@.len() && self.nodes@[i].entity == e && 0 <= j
                < self.nodes@[i].node.outputs@.len() ==> self.terminal_present(
                #[trigger] self.nodes@[i].node.outputs@[j].1,
            )
    }

    /// The position of the node entity `e`.
    fn find_node(&self, e: u64) -> (res: Option<usize>)
        ensures
            match res {
                Some(i) => i < self.nodes@.len() && self.nodes@[i as int].entity == e,
                None => forall|i: int| 0 <= i < self.nodes@.len() ==> #[trigger] self.nodes@[i].entity != e,
            },
    {
        let mut i: usize = 0;
        while i < self.nodes.len()
            invariant
                i <= self.nodes@.len(),
                forall|m: int| 0 <= m < i ==> #[trigger] self.nodes@[m].entity != e,
            decreases self.nodes.len() - i,
        {
            if self.nodes[i].entity == e {
                return Some(i);
            }
            i += 1;
        }
        None
    }

    /// The position of the terminal entity `e`.
    fn find_terminal(&self, e: u64) -> (res: Option<usize>)
        ensures
            match res {
                Some(i) => i < self.terminals@.len() && self.terminals@[i as int].0 == e,
                None => forall|i: int| 0 <= i < self.terminals@.len() ==> #[trigger] self.terminals@[i].0 != e,
            },
    {
        let mut i: usize = 0;
        while i < self.terminals.len()
            invariant
                i <= self.terminals@.len(),
                forall|m: int| 0 <= m < i ==> #[trigger] self.terminals@[m].0 != e,
            decreases self.terminals.len() - i,
        {
            if self.terminals[i].0 == e {
                return Some(i);
            }
            i += 1;
        }
        None
    }

    /// The position of the connection entity `e`.
    fn find_connection(&self, e: u64) -> (res: Option<usize>)
        ensures
            match res {
                Some(i) => i < self.connections@.len() && self.connections@[i as int].0 == e,
                None => forall|i: int| 0 <= i < self.connections@.len() ==> #[trigger] self.connections@[i].0 != e,
            },
    {
        let mut i: usize = 0;
        while i < self.connections.len()
            invariant
                i <= self.connections@.len(),
                forall|m: int| 0 <= m < i ==> #[trigger] self.connections@[m].0 != e,
            decreases self.connections.len() - i,
        {
            if self.connections[i].0 == e {
                return Some(i);
            }
            i += 1;
        }
        None
    }
}


impl GraphWorld {
    /// Whether the output terminals of the node at position `idx`, and their connections, are
    /// present.
    fn node_outputs_present(&self, idx: usize) -> (res: bool)
        requires
            self.wf(),
            idx < self.nodes@.len(),
        ensures
            res == self.outputs_present(self.nodes@[idx as int].entity),
    {
        let ghost e = self.nodes@[idx as int].entity;
        let outputs = &self.nodes[idx].node.outputs;
        let mut j: usize = 0;
        while j < outputs.len()
            invariant
                self.wf(),
                idx < self.nodes@.len(),
                e == self.nodes@[idx as int].entity,
                outputs@ == self.nodes@[idx as int].node.outputs@,
                j <= outputs@.len(),
                forall|j2: int| 0 <= j2 < j ==> self.terminal_present(#[trigger] outputs@[j2].1),
            decreases outputs@.len() - j,
        {
            let tid = outputs[j].1;
            let t = match self.find_terminal(tid) {
                Some(t) => t,
                None => {
                    proof {
                        assert(!self.terminal_present(tid));
                        assert(self.nodes@[idx as int].node.outputs@[j as int].1 == tid);
                    }
                    return false;
                },
            };
            let conns = &self.terminals[t].1.connections;
            let mut k: usize = 0;
            while k < conns.len()
                invariant
                    self.wf(),
                    idx < self.nodes@.len(),
                    e == self.nodes@[idx as int].entity,
                    outputs@ == self.nodes@[idx as int].node.outputs@,
                    j < outputs@.len(),
                    outputs@[j as int].1 == tid,
                    t < self.terminals@.len(),
                    self.terminals@[t as int].0 == tid,
                    conns@ == self.terminals@[t as int].1.connections@,
                    k <= conns@.len(),
                    forall|k2: int| 0 <= k2 < k ==> self.connection_present(#[trigger] conns@[k2]),
                decreases conns@.len() - k,
            {
                if self.find_connection(conns[k]).is_none() {
                    proof {
                        assert(!self.connection_present(conns@[k as int]));
                        assert(!self.connections_present(t as int));
                        assert forall|t2: int|
                            0 <= t2 < self.terminals@.len() && #[trigger] self.terminals@[t2].0 == tid
                            implies !self.connections_present(t2) by {
                            if t2 != t as int {
                                if t2 < t {
                                    assert(self.terminals@[t2].0 != self.terminals@[t as int].0);
                                } else {
                                    assert(self.terminals@[t as int].0 != self.terminals@[t2].0);
                                }
                            }
                        }
                        assert(!self.terminal_present(tid));
                        assert(self.nodes@[idx as int].node.outputs@[j as int].1 == tid);
                    }
                    return false;
                }
                k += 1;
            }
            proof {
                assert(self.connections_present(t as int));
                assert(self.terminal_present(tid));
            }
            j += 1;
        }
        proof {
            assert forall|i: int, j2: int|
                0 <= i < self.nodes@.len() && self.nodes@[i].entity == e && 0 <= j2
                    < self.nodes@[i].node.outputs@.len() implies self.terminal_present(
                #[trigger] self.nodes@[i].node.outputs@[j2].1,
            ) by {
                if i != idx as int {
                    if i < idx {
                        assert(self.nodes@[i].entity != self.nodes@[idx as int].entity);
                    } else {
                        assert(self.nodes@[idx as int].entity != self.nodes@[i].entity);
                    }
                }
                assert(self.terminal_present(outputs@[j2].1));
            }
        }
        true
    }
}

/// The entities of the nodes.
pub open spec fn node_entities(w: &GraphWorld) -> Set<u64> {
    w.nodes@.map_values(|n: NodeEntry| n.entity).to_set()
}

/// A chain followed by a node that its last node feeds is a chain.
proof fn lemma_chain_push(w: &GraphWorld, p: Seq<u64>, x: u64)
    requires
        w.is_chain(p),
        w.feeds(p.last(), x),
        w.unmodified_node(x),
    ensures
        w.is_chain(p.push(x)),
{
    let q = p.push(x);
    assert forall|m: int| 0 <= m < q.len() implies w.unmodified_node(#[trigger] q[m]) by {
        if m < p.len() {
            assert(q[m] == p[m]);
        }
    }
    assert forall|m: int| 0 <= m < q.len() - 1 implies w.feeds(#[trigger] q[m], q[m + 1]) by {
        if m < p.len() - 1 {
            assert(q[m] == p[m]);
            assert(q[m + 1] == p[m + 1]);
            assert(w.feeds(p[m], p[m + 1]));
        } else {
            assert(q[m] == p.last());
        }
    }
}

/// A set that holds `start` and every unmodified node fed from one of its members holds
/// every node downstream of `start`.
proof fn lemma_closed_holds_downstream(w: &GraphWorld, start: u64, marked: Set<u64>, p: Seq<u64>, n: int)
    requires
        w.is_chain(p),
        p[0] == start,
        marked.contains(start),
        forall|m: u64, b: u64|
            marked.contains(m) && #[trigger] w.feeds(m, b) && w.unmodified_node(b) ==> marked.contains(b),
        0 <= n < p.len(),
    ensures
        marked.contains(p[n]),
    decreases n,
{
    if n > 0 {
        lemma_closed_holds_downstream(w, start, marked, p, n - 1);
        assert(w.feeds(p[n - 1], p[(n - 1) + 1]));
        assert(w.unmodified_node(p[n]));
    }
}

/// Where a node's outputs are present, each of its output terminals is present, with its
/// connections.
proof fn lemma_output_terminal(w: &GraphWorld, i: int, j: int) -> (t: int)
    requires
        0 <= i < w.nodes@.len(),
        0 <= j < w.nodes@[i].node.outputs@.len(),
        w.outputs_present(w.nodes@[i].entity),
    ensures
        0 <= t < w.terminals@.len(),
        w.terminals@[t].0 == w.nodes@[i].node.outputs@[j].1,
        w.connections_present(t),
{
    assert(w.terminal_present(w.nodes@[i].node.outputs@[j].1));
    choose|t: int|
        0 <= t < w.terminals@.len() && #[trigger] w.terminals@[t].0 == w.nodes@[i].node.outputs@[j].1
            && w.connections_present(t)
}

/// Marks the given node, and all downstream nodes, as modified.
pub struct MarkModifiedCmd {
    /// Entity of the node to start from.
    pub start: u64,
}

impl MarkModifiedCmd {
    /// The nodes that the command marks, each once: the start node and every node fed from
    /// a marked one, where the node exists and is not marked already.
    pub fn nodes_to_mark(&self, world: &GraphWorld) -> (res: Vec<u64>)
        requires
            world.wf(),
            forall|e: u64| #[trigger] world.downstream(self.start, e) ==> world.outputs_present(e),
        ensures
            res@.no_duplicates(),
            forall|e: u64| res@.contains(e) <==> #[trigger] world.downstream(self.start, e),
    {
        self.mark(world, false).unwrap()
    }

    /// The nodes that the command marks, as `nodes_to_mark` gives them, or `None` where a
    /// node to be marked lacks one of its output terminals or one of their connections.
    pub fn try_nodes_to_mark(&self, world: &GraphWorld) -> (res: Option<Vec<u64>>)
        requires
            world.wf(),
        ensures
            res.is_some() <==> forall|e: u64| #[trigger] world.downstream(self.start, e) ==> world.outputs_present(e),
            match res {
                Some(v) => v@.no_duplicates() && forall|e: u64| v@.contains(e) <==> #[trigger] world.downstream(self.start, e),
                None => true,
            },
    {
        self.mark(world, true)
    }

    /// Walks the nodes downstream of the start; with `check`, gives up at the first such node
    /// whose outputs are not all present.
    fn mark(&self, world: &GraphWorld, check: bool) -> (res: Option<Vec<u64>>)
        requires
            world.wf(),
            !check ==> forall|e: u64| #[trigger] world.downstream(self.start, e) ==> world.outputs_present(e),
        ensures
            match res {
                Some(v) => {
                    &&& v@.no_duplicates()
                    &&& forall|e: u64| v@.contains(e) <==> #[trigger] world.downstream(self.start, e)
                    &&& forall|e: u64| #[trigger] world.downstream(self.start, e) ==> world.outputs_present(e)
                },
                None => check && exists|e: u64| #[trigger] world.downstream(self.start, e) && !world.outputs_present(e),
            },
    {
        let start = self.start;
        let mut to_visit = EntitySet::with_capacity(64);
        let mut to_mark = EntitySet::with_capacity(64);
        to_visit.insert(start);
        let ghost all = node_entities(world);
        proof {
            world.nodes@.map_values(|n: NodeEntry| n.entity).lemma_cardinality_of_set();
            vstd::seq_lib::seq_to_set_is_finite(world.nodes@.map_values(|n: NodeEntry| n.entity));
        }
        loop
            invariant
                world.wf(),
                start == self.start,
                !check ==> forall|e: u64| #[trigger] world.downstream(start, e) ==> world.outputs_present(e),
                forall|e: u64| #[trigger] to_mark@.contains(e) ==> world.outputs_present(e),
                all == node_entities(world),
                all.finite(),
                all.len() <= world.nodes@.len(),
                to_mark@.finite(),
                to_visit@.finite(),
                to_mark@.subset_of(all),
                forall|e: u64| to_mark@.contains(e) ==> #[trigger] world.downstream(start, e),
                forall|v: u64|
                    #[trigger] to_visit@.contains(v) ==> v == start || exists|m: u64|
                        to_mark@.contains(m) && #[trigger] world.feeds(m, v),
                forall|m: u64, b: u64|
                    to_mark@.contains(m) && #[trigger] world.feeds(m, b) ==> to_mark@.contains(b)
                        || to_visit@.contains(b) || !world.unmodified_node(b),
                to_mark@.contains(start) || to_visit@.contains(start) || !world.unmodified_node(start),
            ensures
                to_visit@ == Set::<u64>::empty(),
                forall|e: u64| to_mark@.contains(e) ==> #[trigger] world.downstream(start, e),
                forall|m: u64, b: u64|
                    to_mark@.contains(m) && #[trigger] world.feeds(m, b) ==> to_mark@.contains(b)
                        || !world.unmodified_node(b),
                to_mark@.contains(start) || !world.unmodified_node(start),
            decreases world.nodes@.len() - to_mark@.len(), to_visit@.len(),
        {
            let next = to_visit.first();
            let node_id = match next {
                Some(id) => id,
                None => {
                    break ;
                },
            };
            let ghost before_visit = to_visit@;
            to_visit.remove(node_id);
            let found = world.find_node(node_id);
            if let Some(idx) = found {
                if !world.nodes[idx].modified && !to_mark.contains(node_id) {
                    proof {
                        assert(world.unmodified_node(node_id)) by {
                            assert(world.nodes@[idx as int].entity == node_id);
                        }
                        // the node is downstream of the start
                        if node_id == start {
                            let p = seq![start];
                            assert(world.is_chain(p));
                            assert(world.downstream(start, node_id));
                        } else {
                            let m = choose|m: u64| to_mark@.contains(m) && #[trigger] world.feeds(m, node_id);
                            assert(world.downstream(start, m));
                            let p = choose|p: Seq<u64>| #[trigger] world.is_chain(p) && p[0] == start && p.last() == m;
                            lemma_chain_push(world, p, node_id);
                            assert(world.is_chain(p.push(node_id)));
                            assert(p.push(node_id)[0] == start);
                            assert(world.downstream(start, node_id));
                        }
                    }
                    if check && !world.node_outputs_present(idx) {
                        return None;
                    }
                    proof {
                        assert(world.outputs_present(node_id));
                    }
                    let ghost marked_before = to_mark@;
                    to_mark.insert(node_id);
                    proof {
                        assert(all.contains(node_id)) by {
                            assert(world.nodes@.map_values(|n: NodeEntry| n.entity)[idx as int] == node_id);
                        }
                        vstd::set_lib::lemma_len_subset(to_mark@, all);
                    }
                    let ghost visit_before = to_visit@;
                    self.expand(world, idx, &mut to_visit);
                    proof {
                        assert forall|m: u64, b: u64|
                            to_mark@.contains(m) && #[trigger] world.feeds(m, b) implies to_mark@.contains(b)
                                || to_visit@.contains(b) || !world.unmodified_node(b) by {
                            if m != node_id {
                                assert(marked_before.contains(m));
                                assert(marked_before.contains(b) || before_visit.contains(b)
                                    || !world.unmodified_node(b));
                            }
                        }
                        assert forall|v: u64| #[trigger] to_visit@.contains(v) implies v == start
                            || exists|m: u64| to_mark@.contains(m) && #[trigger] world.feeds(m, v) by {
                            if !visit_before.contains(v) {
                                assert(world.feeds(node_id, v));
                            } else {
                                assert(before_visit.contains(v));
                                if v != start {
                                    let m = choose|m: u64| marked_before.contains(m) && #[trigger] world.feeds(m, v);
                                    assert(to_mark@.contains(m));
                                }
                            }
                        }
                    }
                }
            }
        }
        proof {
            assert forall|e: u64| #[trigger] world.downstream(start, e) implies to_mark@.contains(e) by {
                let p = choose|p: Seq<u64>| #[trigger] world.is_chain(p) && p[0] == start && p.last() == e;
                assert(world.unmodified_node(p[0]));
                lemma_closed_holds_downstream(world, start, to_mark@, p, p.len() - 1);
            }
        }
        Some(to_mark.to_vec())
    }

    /// Adds to `to_visit` every node that the node at position `idx` feeds.
    fn expand(&self, world: &GraphWorld, idx: usize, to_visit: &mut EntitySet)
        requires
            world.wf(),
            idx < world.nodes@.len(),
            world.outputs_present(world.nodes@[idx as int].entity),
            old(to_visit)@.finite(),
        ensures
            final(to_visit)@.finite(),
            forall|v: u64| old(to_visit)@.contains(v) ==> final(to_visit)@.contains(v),
            forall|v: u64|
                #[trigger] final(to_visit)@.contains(v) ==> old(to_visit)@.contains(v)
                    || world.feeds(world.nodes@[idx as int].entity, v),
            forall|b: u64|
                #[trigger] world.feeds(world.nodes@[idx as int].entity, b) ==> final(to_visit)@.contains(b),
    {
        let ghost node_id = world.nodes@[idx as int].entity;
        let ghost v0 = to_visit@;
        let outputs = &world.nodes[idx].node.outputs;
        let mut j: usize = 0;
        while j < outputs.len()
            invariant
                world.wf(),
                idx < world.nodes@.len(),
                node_id == world.nodes@[idx as int].entity,
                world.outputs_present(node_id),
                outputs@ == world.nodes@[idx as int].node.outputs@,
                j <= outputs@.len(),
                to_visit@.finite(),
                forall|v: u64| v0.contains(v) ==> to_visit@.contains(v),
                forall|v: u64|
                    #[trigger] to_visit@.contains(v) ==> v0.contains(v) || world.feeds(node_id, v),
                forall|jj: int, t: int, k: int, c: int|
                    #![trigger world.nodes@[idx as int].node.outputs@[jj], world.terminals@[t].1.connections@[k], world.connections@[c]]
                    0 <= jj < j && 0 <= t < world.terminals@.len() && world.terminals@[t].0
                        == world.nodes@[idx as int].node.outputs@[jj].1 && 0 <= k
                        < world.terminals@[t].1.connections@.len() && 0 <= c
                        < world.connections@.len() && world.connections@[c].0
                        == world.terminals@[t].1.connections@[k] ==> to_visit@.contains(
                        world.connections@[c].1.input.node_id,
                    ),
            decreases outputs@.len() - j,
        {
            let tid = outputs[j].1;
            let found = world.find_terminal(tid);
            proof {
                assert(world.nodes@[idx as int].node.outputs@[j as int].1 == tid);
                let t0 = lemma_output_terminal(world, idx as int, j as int);
                assert(world.terminals@[t0].0 == tid);
            }
            let t = found.unwrap();
            proof {
                let t0 = lemma_output_terminal(world, idx as int, j as int);
                if t0 != t as int {
                    if t0 < t {
                        assert(world.terminals@[t0].0 != world.terminals@[t as int].0);
                    } else {
                        assert(world.terminals@[t as int].0 != world.terminals@[t0].0);
                    }
                }
            }
            let conns = &world.terminals[t].1.connections;
            let mut k: usize = 0;
            while k < conns.len()
                invariant
                    world.wf(),
                    idx < world.nodes@.len(),
                    node_id == world.nodes@[idx as int].entity,
                    outputs@ == world.nodes@[idx as int].node.outputs@,
                    j < outputs@.len(),
                    t < world.terminals@.len(),
                    world.terminals@[t as int].0 == world.nodes@[idx as int].node.outputs@[j as int].1,
                    conns@ == world.terminals@[t as int].1.connections@,
                    world.connections_present(t as int),
                    k <= conns@.len(),
                    to_visit@.finite(),
                    forall|v: u64| v0.contains(v) ==> to_visit@.contains(v),
                    forall|v: u64|
                        #[trigger] to_visit@.contains(v) ==> v0.contains(v) || world.feeds(node_id, v),
                    forall|jj: int, t2: int, k2: int, c: int|
                        #![trigger world.nodes@[idx as int].node.outputs@[jj], world.terminals@[t2].1.connections@[k2], world.connections@[c]]
                        0 <= jj < j && 0 <= t2 < world.terminals@.len() && world.terminals@[t2].0
                            == world.nodes@[idx as int].node.outputs@[jj].1 && 0 <= k2
                            < world.terminals@[t2].1.connections@.len() && 0 <= c
                            < world.connections@.len() && world.connections@[c].0
                            == world.terminals@[t2].1.connections@[k2] ==> to_visit@.contains(
                            world.connections@[c].1.input.node_id,
                        ),
                    forall|k2: int, c: int|
                        #![trigger world.terminals@[t as int].1.connections@[k2], world.connections@[c]]
                        0 <= k2 < k && 0 <= c < world.connections@.len() && world.connections@[c].0
                            == world.terminals@[t as int].1.connections@[k2] ==> to_visit@.contains(
                            world.connections@[c].1.input.node_id,
                        ),
                decreases conns@.len() - k,
            {
                let cid = conns[k];
                proof {
                    assert(world.terminals@[t as int].1.connections@[k as int] == cid);
                    assert(world.connection_present(cid));
                }
                let c = world.find_connection(cid).unwrap();
                let dst = world.connections[c].1.input.node_id;
                proof {
                    assert(world.nodes@[idx as int].node.outputs@[j as int].1 == world.terminals@[t as int].0);
                    assert(world.feeds(node_id, dst)) by {
                        assert(world.terminals@[t as int].1.connections@[k as int] == cid);
                        assert(world.connections@[c as int].0 == cid);
                    }
                }
                to_visit.insert(dst);
                proof {
                    assert forall|k2: int, c2: int|
                        #![trigger world.terminals@[t as int].1.connections@[k2], world.connections@[c2]]
                        0 <= k2 < k + 1 && 0 <= c2 < world.connections@.len() && world.connections@[c2].0
                            == world.terminals@[t as int].1.connections@[k2] implies to_visit@.contains(
                            world.connections@[c2].1.input.node_id,
                        ) by {
                        if k2 == k {
                            if c2 != c as int {
                                if c2 < c {
                                    assert(world.connections@[c2].0 != world.connections@[c as int].0);
                                } else {
                                    assert(world.connections@[c as int].0 != world.connections@[c2].0);
                                }
                            }
                        }
                    }
                }
                k += 1;
            }
            proof {
                assert forall|jj: int, t2: int, k2: int, c: int|
                    #![trigger world.nodes@[idx as int].node.outputs@[jj], world.terminals@[t2].1.connections@[k2], world.connections@[c]]
                    0 <= jj < j + 1 && 0 <= t2 < world.terminals@.len() && world.terminals@[t2].0
                        == world.nodes@[idx as int].node.outputs@[jj].1 && 0 <= k2
                        < world.terminals@[t2].1.connections@.len() && 0 <= c
                        < world.connections@.len() && world.connections@[c].0
                        == world.terminals@[t2].1.connections@[k2] implies to_visit@.contains(
                        world.connections@[c].1.input.node_id,
                    ) by {
                    if jj == j {
                        if t2 != t as int {
                            if t2 < t {
                                assert(world.terminals@[t2].0 != world.terminals@[t as int].0);
                            } else {
                                assert(world.terminals@[t as int].0 != world.terminals@[t2].0);
                            }
                        }
                    }
                }
            }
            j += 1;
        }
        proof {
            assert forall|b: u64| #[trigger] world.feeds(node_id, b) implies to_visit@.contains(b) by {
                let (i, jj, t2, k2, c) = choose|i: int, jj: int, t2: int, k2: int, c: int|
                    #![trigger world.nodes@[i].node.outputs@[jj], world.terminals@[t2].1.connections@[k2], world.connections@[c]]
                    0 <= i < world.nodes@.len() && world.nodes@[i].entity == node_id && 0 <= jj
                        < world.nodes@[i].node.outputs@.len() && 0 <= t2 < world.terminals@.len()
                        && world.terminals@[t2].0 == world.nodes@[i].node.outputs@[jj].1 && 0 <= k2
                        < world.terminals@[t2].1.connections@.len() && 0 <= c < world.connections@.len()
                        && world.connections@[c].0 == world.terminals@[t2].1.connections@[k2]
                        && world.connections@[c].1.input.node_id == b;
                if i != idx as int {
                    if i < idx {
                        assert(world.nodes@[i].entity != world.nodes@[idx as int].entity);
                    } else {
                        assert(world.nodes@[idx as int].entity != world.nodes@[i].entity);
                    }
                }
                assert(world.nodes@[idx as int].node.outputs@[jj] == world.nodes@[i].node.outputs@[jj]);
            }
        }
    }
}


impl GraphWorld {
    /// The entity `e` is a node that carries the selected mark.
    pub open spec fn selected_node(&self, e: u64) -> bool {
        exists|i: int| 0 <= i < self.nodes@.len() && #[trigger] self.nodes@[i].entity == e && self.nodes@[i].selected
    }

    /// The entity `e` is a node.
    pub open spec fn has_node(&self, e: u64) -> bool {
        exists|i: int| 0 <= i < self.nodes@.len() && #[trigger] self.nodes@[i].entity == e
    }

    /// Every connection leads from a node to a node.
    pub open spec fn connection_ends_present(&self) -> bool {
        forall|c: int|
            0 <= c < self.connections@.len() ==> self.has_node(#[trigger] self.connections@[c].1.input.node_id)
                && self.has_node(self.connections@[c].1.output.node_id)
    }

    /// Whether the node entity `e` carries the selected mark.
    fn node_selected(&self, e: u64) -> (res: bool)
        requires
            self.wf(),
            self.has_node(e),
        ensures
            res == self.selected_node(e),
    {
        let i = self.find_node(e).unwrap();
        proof {
            if self.selected_node(e) {
                let j = choose|j: int| 0 <= j < self.nodes@.len() && #[trigger] self.nodes@[j].entity == e && self.nodes@[j].selected;
                if j != i as int {
                    if j < i {
                        assert(self.nodes@[j].entity != self.nodes@[i as int].entity);
                    } else {
                        assert(self.nodes@[i as int].entity != self.nodes@[j].entity);
                    }
                }
            }
        }
        self.nodes[i].selected
    }
}

/// Deletes the selected nodes, and every connection to or from them.
pub struct DeleteSelectedCmd;

impl DeleteSelectedCmd {
    /// The connections that the command removes, each once: those with a selected node at
    /// either end.
    pub fn connections_to_remove(&self, world: &GraphWorld) -> (res: Vec<u64>)
        requires
            world.wf(),
            world.connection_ends_present(),
        ensures
            res@.no_duplicates(),
            forall|e: u64|
                res@.contains(e) <==> exists|c: int|
                    0 <= c < world.connections@.len() && #[trigger] world.connections@[c].0 == e
                        && (world.selected_node(world.connections@[c].1.input.node_id)
                        || world.selected_node(world.connections@[c].1.output.node_id)),
    {
        let mut to_remove = EntitySet::with_capacity(0);
        let mut c: usize = 0;
        while c < world.connections.len()
            invariant
                world.wf(),
                world.connection_ends_present(),
                c <= world.connections@.len(),
                to_remove@.finite(),
                forall|e: u64|
                    to_remove@.contains(e) <==> exists|c2: int|
                        0 <= c2 < c && #[trigger] world.connections@[c2].0 == e
                            && (world.selected_node(world.connections@[c2].1.input.node_id)
                            || world.selected_node(world.connections@[c2].1.output.node_id)),
            decreases world.connections@.len() - c,
        {
            let (ent, conn) = &world.connections[c];
            proof {
                assert(world.has_node(world.connections@[c as int].1.input.node_id));
            }
            let input_selected = world.node_selected(conn.input.node_id);
            let output_selected = world.node_selected(conn.output.node_id);
            if input_selected || output_selected {
                to_remove.insert(*ent);
            }
            proof {
                assert forall|e: u64|
                    to_remove@.contains(e) <==> exists|c2: int|
                        0 <= c2 < c + 1 && #[trigger] world.connections@[c2].0 == e
                            && (world.selected_node(world.connections@[c2].1.input.node_id)
                            || world.selected_node(world.connections@[c2].1.output.node_id)) by {
                    if e == world.connections@[c as int].0 && (input_selected || output_selected) {
                        assert(to_remove@.contains(e));
                    }
                }
            }
            c += 1;
        }
        let res = to_remove.to_vec();
        proof {
            assert forall|e: u64| res@.contains(e) == to_remove@.contains(e) by {
                assert(res@.to_set().contains(e) == res@.contains(e));
            }
        }
        res
    }

    /// The nodes that the command deletes, each once, by entity and id: the selected ones.
    pub fn nodes_to_delete(&self, world: &GraphWorld) -> (res: Vec<(u64, GraphNodeId)>)
        requires
            world.wf(),
        ensures
            res@.no_duplicates(),
            forall|x: (u64, GraphNodeId)|
                res@.contains(x) <==> exists|i: int| #[trigger] world.selected_entry(i, x),
    {
        let mut res: Vec<(u64, GraphNodeId)> = Vec::new();
        let ghost mut src: Seq<int> = Seq::empty();
        let mut i: usize = 0;
        while i < world.nodes.len()
            invariant
                world.wf(),
                i <= world.nodes@.len(),
                src.len() == res@.len(),
                forall|r: int| 0 <= r < src.len() ==> #[trigger] src[r] < i,
                forall|r: int| 0 <= r < res@.len() ==> #[trigger] world.selected_entry(src[r], res@[r]),
                forall|r1: int, r2: int| 0 <= r1 < r2 < src.len() ==> #[trigger] src[r1] < #[trigger] src[r2],
                forall|i2: int, x: (u64, GraphNodeId)|
                    i2 < i && #[trigger] world.selected_entry(i2, x) ==> res@.contains(x),
            decreases world.nodes@.len() - i,
        {
            let ghost before = res@;
            let ghost old_src = src;
            let ghost old_i = i as int;
            let entry = &world.nodes[i];
            let selected = entry.selected;
            if selected {
                res.push((entry.entity, entry.node.index));
                proof {
                    src = src.push(i as int);
                }
            }
            i += 1;
            proof {
                let x = (world.nodes@[old_i].entity, world.nodes@[old_i].node.index);
                if selected {
                    assert(res@ == before.push(x));
                    assert(src == old_src.push(old_i));
                    assert(world.selected_entry(old_i, x));
                } else {
                    assert(res@ == before);
                    assert(src == old_src);
                }
                assert forall|r: int| 0 <= r < src.len() implies #[trigger] src[r] < i by {
                    if r < old_src.len() {
                        assert(old_src[r] < old_i);
                    }
                }
                assert forall|r: int| 0 <= r < res@.len() implies #[trigger] world.selected_entry(src[r], res@[r]) by {
                    if r < before.len() {
                        assert(src[r] == old_src[r]);
                        assert(res@[r] == before[r]);
                        assert(world.selected_entry(old_src[r], before[r]));
                    } else {
                        assert(res@[r] == x);
                    }
                }
                assert forall|r1: int, r2: int| 0 <= r1 < r2 < src.len() implies #[trigger] src[r1] < #[trigger] src[r2] by {
                    if r2 < old_src.len() {
                        assert(old_src[r1] < old_src[r2]);
                    } else {
                        assert(old_src[r1] < old_i);
                    }
                }
                assert forall|i2: int, y: (u64, GraphNodeId)|
                    i2 < i && #[trigger] world.selected_entry(i2, y) implies res@.contains(y) by {
                    if i2 < old_i {
                        assert(before.contains(y));
                        let r = choose|r: int| 0 <= r < before.len() && before[r] == y;
                        assert(res@[r] == y);
                    } else {
                        assert(selected);
                        assert(y == x);
                        assert(res@[before.len() as int] == x);
                    }
                }
            }
        }
        proof {
            assert forall|r1: int, r2: int| 0 <= r1 < res@.len() && 0 <= r2 < res@.len() && r1 != r2 implies res@[r1]
                != res@[r2] by {
                assert(world.selected_entry(src[r1], res@[r1]));
                assert(world.selected_entry(src[r2], res@[r2]));
                if r1 < r2 {
                    assert(src[r1] < src[r2]);
                } else {
                    assert(src[r2] < src[r1]);
                }
                if res@[r1] == res@[r2] {
                    if src[r1] < src[r2] {
                        assert(world.nodes@[src[r1]].entity != world.nodes@[src[r2]].entity);
                    } else {
                        assert(world.nodes@[src[r2]].entity != world.nodes@[src[r1]].entity);
                    }
                }
            }
            assert forall|x: (u64, GraphNodeId)|
                res@.contains(x) implies exists|i: int| #[trigger] world.selected_entry(i, x) by {
                let r = choose|r: int| 0 <= r < res@.len() && res@[r] == x;
                assert(world.selected_entry(src[r], res@[r]));
            }
            assert forall|x: (u64, GraphNodeId)|
                (exists|i: int| #[trigger] world.selected_entry(i, x)) implies res@.contains(x) by {
                let i2 = choose|i: int| #[trigger] world.selected_entry(i, x);
                assert(i2 < i);
            }
        }
        res
    }
}

impl GraphWorld {
    /// The node at position `i` is selected, and `x` is its entity and id.
    pub open spec fn selected_entry(&self, i: int, x: (u64, GraphNodeId)) -> bool {
        &&& 0 <= i < self.nodes@.len()
        &&& self.nodes@[i].selected
        &&& self.nodes@[i].entity == x.0
        &&& self.nodes@[i].node.index == x.1
    }
}

impl GraphWorld {
    /// A terminal with entity `e` is present.
    pub open spec fn has_terminal(&self, e: u64) -> bool {
        exists|t: int| 0 <= t < self.terminals@.len() && #[trigger] self.terminals@[t].0 == e
    }

    /// The terminal with entity `e`, where there is one.
    pub open spec fn terminal(&self, e: u64) -> Terminal {
        self.terminals@[choose|t: int| 0 <= t < self.terminals@.len() && #[trigger] self.terminals@[t].0 == e].1
    }

    /// The connection with entity `r` ends at the terminal `e`, at either end.
    pub open spec fn ends_at(&self, r: u64, e: u64) -> bool {
        exists|c: int|
            0 <= c < self.connections@.len() && #[trigger] self.connections@[c].0 == r && (
            self.connections@[c].1.input.terminal_id == e || self.connections@[c].1.output.terminal_id
                == e)
    }

    /// No entity of the world is `id`.
    pub open spec fn fresh(&self, id: u64) -> bool {
        &&& forall|i: int| 0 <= i < self.nodes@.len() ==> #[trigger] self.nodes@[i].entity != id
        &&& forall|t: int| 0 <= t < self.terminals@.len() ==> #[trigger] self.terminals@[t].0 != id
        &&& forall|c: int| 0 <= c < self.connections@.len() ==> #[trigger] self.connections@[c].0 != id
    }
}

/// In a well-formed world, the terminal with entity `e` is the one at the position that has it.
proof fn lemma_terminal_at(w: &GraphWorld, t: int)
    requires
        w.wf(),
        0 <= t < w.terminals@.len(),
    ensures
        w.has_terminal(w.terminals@[t].0),
        w.terminal(w.terminals@[t].0) == w.terminals@[t].1,
{
    let e = w.terminals@[t].0;
    assert(w.has_terminal(e));
    let t2 = choose|t2: int| 0 <= t2 < w.terminals@.len() && #[trigger] w.terminals@[t2].0 == e;
    if t2 != t {
        if t2 < t {
            assert(w.terminals@[t2].0 != w.terminals@[t].0);
        } else {
            assert(w.terminals@[t].0 != w.terminals@[t2].0);
        }
    }
}

/// Connects an output terminal to an input terminal. An input terminal has at most one
/// connection, so what was connected to it before is removed.
pub struct AddConnectionCmd {
    /// Entity for the input terminal.
    pub input: u64,
    /// Entity for the output terminal.
    pub output: u64,
    /// If set, the entity of the connection to replace.
    pub replace: Option<u64>,
}

impl AddConnectionCmd {
    /// The connection that the command adds, from the output terminal to the input terminal.
    pub open spec fn new_connection(&self, w: &GraphWorld) -> Connection {
        Connection {
            output: OutputTerminalId {
                node_id: w.terminal(self.output).node_id,
                terminal_name: w.terminal(self.output).name,
                terminal_id: self.output,
            },
            input: InputTerminalId {
                node_id: w.terminal(self.input).node_id,
                terminal_name: w.terminal(self.input).name,
                terminal_id: self.input,
            },
        }
    }

    /// The connections that the command removes: those of the input terminal, and the one it
    /// replaces.
    pub open spec fn removed(&self, w: &GraphWorld) -> Set<u64> {
        let s = w.terminal(self.input).connections@.to_set();
        match self.replace {
            Some(r) => s.insert(r),
            None => s,
        }
    }

    /// The connections of the terminal `e`, formerly `s`, after the command: only the new one
    /// for the input terminal; for the others, the former ones but those removed that end
    /// there, and the new one for the output terminal.
    pub open spec fn connections_after(&self, w: &GraphWorld, id: u64, e: u64, s: Set<u64>) -> Set<u64> {
        if e == self.input {
            set![id]
        } else {
            let s1 = if e == self.output {
                s.insert(id)
            } else {
                s
            };
            s1.filter(|x: u64| !(self.removed(w).contains(x) && w.ends_at(x, e)))
        }
    }

    /// The connection that the command adds.
    pub fn connection(&self, world: &GraphWorld) -> (res: Connection)
        requires
            world.wf(),
            world.has_terminal(self.input),
            world.has_terminal(self.output),
        ensures
            res == self.new_connection(world),
    {
        let it = world.find_terminal(self.input).unwrap();
        let ot = world.find_terminal(self.output).unwrap();
        proof {
            lemma_terminal_at(world, it as int);
            lemma_terminal_at(world, ot as int);
        }
        let input_terminal = &world.terminals[it].1;
        let output_terminal = &world.terminals[ot].1;
        Connection {
            output: OutputTerminalId {
                node_id: output_terminal.node_id,
                terminal_name: output_terminal.name,
                terminal_id: self.output,
            },
            input: InputTerminalId {
                node_id: input_terminal.node_id,
                terminal_name: input_terminal.name,
                terminal_id: self.input,
            },
        }
    }

    /// The connections that the command removes, each once.
    fn removed_connections(&self, world: &GraphWorld) -> (res: Vec<u64>)
        requires
            world.wf(),
            world.has_terminal(self.input),
        ensures
            res@.no_duplicates(),
            res@.to_set() == self.removed(world),
    {
        let it = world.find_terminal(self.input).unwrap();
        proof {
            lemma_terminal_at(world, it as int);
        }
        let conns = &world.terminals[it].1.connections;
        let mut to_remove = EntitySet::with_capacity(conns.len());
        let mut k: usize = 0;
        while k < conns.len()
            invariant
                k <= conns@.len(),
                to_remove@.finite(),
                to_remove@ == conns@.take(k as int).to_set(),
            decreases conns@.len() - k,
        {
            to_remove.insert(conns[k]);
            proof {
                assert(conns@.take(k + 1) == conns@.take(k as int).push(conns@[k as int]));
                conns@.take(k as int).lemma_push_to_set_commute(conns@[k as int]);
            }
            k += 1;
        }
        proof {
            assert(conns@.take(k as int) == conns@);
        }
        if let Some(r) = self.replace {
            to_remove.insert(r);
        }
        to_remove.to_vec()
    }
}

/// Whether the id list holds `x`.
fn contains_id(v: &Vec<u64>, x: u64) -> (res: bool)
    ensures
        res == v@.contains(x),
{
    let mut i: usize = 0;
    while i < v.len()
        invariant
            i <= v@.len(),
            forall|m: int| 0 <= m < i ==> v@[m] != x,
        decreases v@.len() - i,
    {
        if v[i] == x {
            return true;
        }
        i += 1;
    }
    false
}

/// One of the connections, given with the terminals at their ends, is `x` and ends at `e`.
spec fn detached_by(ends: Seq<(u64, u64, u64)>, x: u64, e: u64) -> bool {
    exists|q: int| 0 <= q < ends.len() && #[trigger] ends[q].0 == x && (ends[q].1 == e || ends[q].2 == e)
}

/// Whether one of the removed connections, given with the terminals at its ends, ends at `e`
/// and is `x`.
fn detaches(ends: &Vec<(u64, u64, u64)>, x: u64, e: u64) -> (res: bool)
    ensures
        res == detached_by(ends@, x, e),
{
    let mut q: usize = 0;
    while q < ends.len()
        invariant
            q <= ends@.len(),
            forall|m: int| 0 <= m < q ==> !(#[trigger] ends@[m].0 == x && (ends@[m].1 == e || ends@[m].2 == e)),
        decreases ends@.len() - q,
    {
        let (r, a, b) = ends[q];
        if r == x && (a == e || b == e) {
            return true;
        }
        q += 1;
    }
    false
}

impl AddConnectionCmd {
    /// The terminal `t2` is the one at position `k` after the command.
    pub open spec fn terminal_after(&self, w: &GraphWorld, id: u64, k: int, t2: (u64, Terminal)) -> bool {
        &&& t2.0 == w.terminals@[k].0
        &&& t2.1.node_id == w.terminals@[k].1.node_id
        &&& t2.1.name == w.terminals@[k].1.name
        &&& t2.1.data_type == w.terminals@[k].1.data_type
        &&& t2.1.connections@.to_set() == self.connections_after(
            w,
            id,
            w.terminals@[k].0,
            w.terminals@[k].1.connections@.to_set(),
        )
        &&& t2.0 == self.input ==> t2.1.connections@ == seq![id]
    }

    /// The removed connections with the terminals at their ends.
    fn removed_ends(&self, world: &GraphWorld, removed: &Vec<u64>) -> (res: Vec<(u64, u64, u64)>)
        requires
            world.wf(),
            forall|r: u64| removed@.contains(r) ==> #[trigger] world.connection_present(r),
        ensures
            forall|x: u64, e: u64|
                #[trigger] detached_by(res@, x, e) == (removed@.contains(x) && world.ends_at(x, e)),
    {
        let mut ends: Vec<(u64, u64, u64)> = Vec::new();
        let ghost mut src: Seq<int> = Seq::empty();
        let mut j: usize = 0;
        while j < removed.len()
            invariant
                world.wf(),
                forall|r: u64| removed@.contains(r) ==> #[trigger] world.connection_present(r),
                j <= removed@.len(),
                ends@.len() == j,
                src.len() == j,
                forall|q: int|
                    #![trigger src[q]]
                    #![trigger ends@[q]]
                    0 <= q < j ==> 0 <= src[q] < world.connections@.len() && ends@[q].0 == removed@[q]
                        && world.connections@[src[q]].0 == removed@[q] && ends@[q].1
                        == world.connections@[src[q]].1.input.terminal_id && ends@[q].2
                        == world.connections@[src[q]].1.output.terminal_id,
            decreases removed@.len() - j,
        {
            let r = removed[j];
            proof {
                assert(removed@.contains(r));
                assert(world.connection_present(r));
            }
            let c = world.find_connection(r).unwrap();
            let conn = world.connections[c].1;
            ends.push((r, conn.input.terminal_id, conn.output.terminal_id));
            proof {
                src = src.push(c as int);
            }
            j += 1;
        }
        proof {
            assert forall|x: u64, e: u64|
                #[trigger] detached_by(ends@, x, e) == (removed@.contains(x) && world.ends_at(x, e)) by {
                if detached_by(ends@, x, e) {
                    let q = choose|q: int|
                        0 <= q < ends@.len() && #[trigger] ends@[q].0 == x && (ends@[q].1 == e || ends@[q].2 == e);
                    assert(removed@[q] == x);
                    assert(world.connections@[src[q]].0 == x);
                }
                if removed@.contains(x) && world.ends_at(x, e) {
                    let q = choose|q: int| 0 <= q < removed@.len() && removed@[q] == x;
                    let c = choose|c: int|
                        0 <= c < world.connections@.len() && #[trigger] world.connections@[c].0 == x && (
                        world.connections@[c].1.input.terminal_id == e
                            || world.connections@[c].1.output.terminal_id == e);
                    if c != src[q] {
                        if c < src[q] {
                            assert(world.connections@[c].0 != world.connections@[src[q]].0);
                        } else {
                            assert(world.connections@[src[q]].0 != world.connections@[c].0);
                        }
                    }
                    assert(ends@[q].0 == x);
                }
            }
        }
        ends
    }
}

impl AddConnectionCmd {
    /// The connections of the terminal `e` that remain once the removed connections that end
    /// there are gone, in their order.
    fn remaining_connections(
        &self,
        world: &GraphWorld,
        ends: &Vec<(u64, u64, u64)>,
        conns: &Vec<u64>,
        e: u64,
    ) -> (res: Vec<u64>)
        requires
            forall|x: u64, e2: u64|
                #[trigger] detached_by(ends@, x, e2) == (self.removed(world).contains(x) && world.ends_at(x, e2)),
        ensures
            res@.to_set() == conns@.to_set().filter(
                |x: u64| !(self.removed(world).contains(x) && world.ends_at(x, e)),
            ),
    {
        let ghost keep = |x: u64| !(self.removed(world).contains(x) && world.ends_at(x, e));
        let mut res: Vec<u64> = Vec::new();
        let mut m: usize = 0;
        while m < conns.len()
            invariant
                m <= conns@.len(),
                keep == (|x: u64| !(self.removed(world).contains(x) && world.ends_at(x, e))),
                forall|x: u64, e2: u64|
                    #[trigger] detached_by(ends@, x, e2) == (self.removed(world).contains(x) && world.ends_at(x, e2)),
                res@.to_set() == conns@.take(m as int).to_set().filter(keep),
            decreases conns@.len() - m,
        {
            let x = conns[m];
            let gone = detaches(ends, x, e);
            proof {
                assert(conns@.take(m + 1) == conns@.take(m as int).push(x));
                conns@.take(m as int).lemma_push_to_set_commute(x);
                assert(gone == (self.removed(world).contains(x) && world.ends_at(x, e)));
            }
            if !gone {
                let ghost before = res@;
                res.push(x);
                proof {
                    before.lemma_push_to_set_commute(x);
                    assert(res@.to_set() =~= conns@.take(m + 1).to_set().filter(keep));
                }
            } else {
                proof {
                    assert(res@.to_set() =~= conns@.take(m + 1).to_set().filter(keep));
                }
            }
            m += 1;
        }
        proof {
            assert(conns@.take(m as int) == conns@);
        }
        res
    }

    /// Applies the command to the world, the new connection having the entity `id`: the
    /// connections of the input terminal and the replaced one go, and with them their entries
    /// in the terminals at their ends; the new connection comes, and is entered in the
    /// terminals at its ends. Returns the removed connections, each once, and the command
    /// that marks the input's node, and all downstream nodes, as modified.
    pub fn apply(&self, world: &mut GraphWorld, graph: &mut Graph, id: u64) -> (res: (Vec<u64>, MarkModifiedCmd))
        requires
            old(world).wf(),
            self.input != self.output,
            old(world).has_terminal(self.input),
            old(world).has_terminal(self.output),
            old(world).fresh(id),
            forall|r: u64| self.removed(&*old(world)).contains(r) ==> #[trigger] old(world).connection_present(r),
        ensures
            res.0@.no_duplicates(),
            res.0@.to_set() == self.removed(&*old(world)),
            res.1.start == old(world).terminal(self.input).node_id,
            final(world).nodes@ == old(world).nodes@,
            final(world).terminals@.len() == old(world).terminals@.len(),
            forall|k: int|
                0 <= k < old(world).terminals@.len() ==> self.terminal_after(
                    &*old(world),
                    id,
                    k,
                    #[trigger] final(world).terminals@[k],
                ),
            forall|x: (u64, Connection)|
                #[trigger] final(world).connections@.contains(x) <==> (old(world).connections@.contains(x)
                    && !self.removed(&*old(world)).contains(x.0)) || x == (id, self.new_connection(&*old(world))),
            final(world).wf(),
            old(world).refs_in_sync() ==> final(world).refs_in_sync(),
            final(graph)@ == (GraphView {
                connections: old(graph)@.connections.difference(self.removed(&*old(world))).insert(id),
                undo_stack: final(graph)@.undo_stack,
                redo_stack: Seq::<UndoAction>::empty(),
                ..old(graph)@
            }),
            final(graph)@.undo_stack.drop_last() == old(graph)@.undo_stack,
            final(graph)@.undo_stack.len() == old(graph)@.undo_stack.len() + 1,
            final(graph)@.undo_stack.last().label@ == "Add Connection"@,
            final(graph)@.undo_stack.last().mutations@ == seq![UndoMutation::AddConnection(self.new_connection(&*old(world)))],
    {
        let ghost w0 = *world;
        let it = world.find_terminal(self.input).unwrap();
        proof {
            lemma_terminal_at(world, it as int);
        }
        let start = world.terminals[it].1.node_id;
        let conn = self.connection(world);
        let removed = self.removed_connections(world);
        proof {
            assert forall|r: u64| removed@.contains(r) implies #[trigger] world.connection_present(r) by {
                assert(removed@.to_set().contains(r));
            }
            assert(!self.removed(world).contains(id)) by {
                if self.removed(world).contains(id) {
                    assert(world.connection_present(id));
                    let c = choose|c: int| 0 <= c < world.connections@.len() && #[trigger] world.connections@[c].0 == id;
                    assert(world.connections@[c].0 != id);
                }
            }
        }
        let ends = self.removed_ends(world, &removed);
        proof {
            assert forall|x: u64| #[trigger] removed@.contains(x) == self.removed(world).contains(x) by {
                assert(removed@.to_set().contains(x) == removed@.contains(x));
            }
            assert forall|x: u64, e2: u64|
                #[trigger] detached_by(ends@, x, e2) == (self.removed(world).contains(x) && world.ends_at(x, e2)) by {
                assert(removed@.contains(x) == self.removed(world).contains(x));
            }
        }
        let mut terms: Vec<(u64, Terminal)> = Vec::new();
        let mut k: usize = 0;
        while k < world.terminals.len()
            invariant
                *world == w0,
                w0.wf(),
                self.input != self.output,
                !self.removed(&w0).contains(id),
                forall|x: u64, e2: u64|
                    #[trigger] detached_by(ends@, x, e2) == (self.removed(&w0).contains(x) && w0.ends_at(x, e2)),
                k <= w0.terminals@.len(),
                terms@.len() == k,
                forall|q: int| 0 <= q < k ==> self.terminal_after(&w0, id, q, #[trigger] terms@[q]),
            decreases w0.terminals@.len() - k,
        {
            let e = world.terminals[k].0;
            let t = &world.terminals[k].1;
            let mut cs: Vec<u64>;
            if e == self.input {
                cs = Vec::new();
                cs.push(id);
                proof {
                    assert(cs@ == seq![id]);
                    assert(cs@.to_set() =~= set![id]) by {
                        assert(cs@[0] == id);
                        assert(cs@.to_set().contains(id));
                    }
                }
            } else {
                cs = self.remaining_connections(world, &ends, &t.connections, e);
                if e == self.output {
                    let ghost before = cs@;
                    cs.push(id);
                    proof {
                        before.lemma_push_to_set_commute(id);
                    }
                }
                proof {
                    let keep = |x: u64| !(self.removed(&w0).contains(x) && w0.ends_at(x, e));
                    let s = t.connections@.to_set();
                    if e == self.output {
                        assert(cs@.to_set() =~= s.insert(id).filter(keep));
                    } else {
                        assert(cs@.to_set() =~= s.filter(keep));
                    }
                }
            }
            let entry = (e, Terminal { node_id: t.node_id, name: t.name, data_type: t.data_type, connections: cs });
            terms.push(entry);
            proof {
                assert(terms@[k as int] == entry);
                assert forall|q: int| 0 <= q < k + 1 implies self.terminal_after(&w0, id, q, #[trigger] terms@[q]) by {
                    if q < k {
                        assert(terms@[q] == terms@.drop_last()[q]);
                    }
                }
            }
            k += 1;
        }
        let mut conns2: Vec<(u64, Connection)> = Vec::new();
        let ghost mut src: Seq<int> = Seq::empty();
        let mut c: usize = 0;
        while c < world.connections.len()
            invariant
                *world == w0,
                w0.wf(),
                forall|x: u64| #[trigger] removed@.contains(x) == self.removed(&w0).contains(x),
                c <= w0.connections@.len(),
                conns2@.len() == src.len(),
                forall|q: int|
                    0 <= q < src.len() ==> 0 <= #[trigger] src[q] < c && conns2@[q] == w0.connections@[src[q]]
                        && !self.removed(&w0).contains(conns2@[q].0),
                forall|q1: int, q2: int| 0 <= q1 < q2 < src.len() ==> #[trigger] src[q1] < #[trigger] src[q2],
                forall|c2: int|
                    0 <= c2 < c && !self.removed(&w0).contains(#[trigger] w0.connections@[c2].0)
                        ==> conns2@.contains(w0.connections@[c2]),
            decreases w0.connections@.len() - c,
        {
            let entry = world.connections[c];
            let gone = contains_id(&removed, entry.0);
            let ghost before = conns2@;
            let ghost old_src = src;
            if !gone {
                conns2.push(entry);
                proof {
                    src = src.push(c as int);
                }
            }
            proof {
                if !gone {
                    assert(conns2@ == before.push(entry));
                    assert(conns2@[before.len() as int] == entry);
                } else {
                    assert(conns2@ == before);
                }
                assert forall|q: int|
                    0 <= q < src.len() implies 0 <= #[trigger] src[q] < c + 1 && conns2@[q] == w0.connections@[src[q]]
                        && !self.removed(&w0).contains(conns2@[q].0) by {
                    if q < old_src.len() {
                        assert(src[q] == old_src[q]);
                        assert(conns2@[q] == before[q]);
                    }
                }
                assert forall|q1: int, q2: int| 0 <= q1 < q2 < src.len() implies #[trigger] src[q1] < #[trigger] src[q2] by {
                    assert(src[q1] == old_src[q1]);
                    if q2 < old_src.len() {
                        assert(src[q2] == old_src[q2]);
                    }
                }
                assert forall|c2: int|
                    0 <= c2 < c + 1 && !self.removed(&w0).contains(#[trigger] w0.connections@[c2].0)
                        implies conns2@.contains(w0.connections@[c2]) by {
                    if c2 < c {
                        let q = choose|q: int| 0 <= q < before.len() && before[q] == w0.connections@[c2];
                        assert(conns2@[q] == before[q]);
                    } else {
                        assert(conns2@[before.len() as int] == entry);
                    }
                }
            }
            c += 1;
        }
        let ghost kept = conns2@;
        conns2.push((id, conn));
        proof {
            let n = self.new_connection(&w0);
            assert(conns2@ == kept.push((id, n)));
            assert forall|x: (u64, Connection)|
                #[trigger] conns2@.contains(x) <==> (w0.connections@.contains(x) && !self.removed(&w0).contains(x.0))
                    || x == (id, n) by {
                if conns2@.contains(x) && x != (id, n) {
                    let q = choose|q: int| 0 <= q < conns2@.len() && conns2@[q] == x;
                    assert(q < kept.len());
                    assert(kept[q] == x);
                    assert(w0.connections@[src[q]] == x);
                }
                if w0.connections@.contains(x) && !self.removed(&w0).contains(x.0) {
                    let c2 = choose|c2: int| 0 <= c2 < w0.connections@.len() && w0.connections@[c2] == x;
                    assert(kept.contains(w0.connections@[c2]));
                    let q = choose|q: int| 0 <= q < kept.len() && kept[q] == x;
                    assert(conns2@[q] == x);
                }
                if x == (id, n) {
                    assert(conns2@[kept.len() as int] == x);
                }
            }
            assert forall|i: int, j: int| 0 <= i < j < conns2@.len() implies #[trigger] conns2@[i].0
                != #[trigger] conns2@[j].0 by {
                assert(conns2@[i] == kept[i]);
                assert(kept[i] == w0.connections@[src[i]]);
                if j < kept.len() {
                    assert(conns2@[j] == kept[j]);
                    assert(src[i] < src[j]);
                    assert(w0.connections@[src[i]].0 != w0.connections@[src[j]].0);
                } else {
                    assert(w0.connections@[src[i]].0 != id);
                }
            }
            assert forall|i: int, j: int| 0 <= i < j < terms@.len() implies #[trigger] terms@[i].0
                != #[trigger] terms@[j].0 by {
                assert(self.terminal_after(&w0, id, i, terms@[i]));
                assert(self.terminal_after(&w0, id, j, terms@[j]));
                assert(w0.terminals@[i].0 != w0.terminals@[j].0);
            }
        }
        world.terminals = terms;
        world.connections = conns2;
        proof {
            if w0.refs_in_sync() {
                lemma_apply_keeps_refs_in_sync(self, &w0, id, world);
            }
        }
        let mut action = UndoAction::new("Add Connection");
        action.mutations.push(UndoMutation::AddConnection(conn));
        let ghost recorded = action;
        graph.replace_connections(&removed, id);
        graph.add_undo_action(action);
        proof {
            assert(graph@.undo_stack.last() == recorded);
            assert(graph@.undo_stack.drop_last() =~= old(graph)@.undo_stack);
        }
        (removed, MarkModifiedCmd { start })
    }
}

impl GraphWorld {
    /// The terminal with entity `e` enters the connection `x`.
    pub open spec fn lists(&self, e: u64, x: u64) -> bool {
        exists|t: int|
            0 <= t < self.terminals@.len() && #[trigger] self.terminals@[t].0 == e
                && self.terminals@[t].1.connections@.contains(x)
    }

    /// The references between connections and terminals agree: each connection is entered in
    /// the terminals at both its ends, and each terminal enters only connections that are
    /// present and end there.
    pub open spec fn refs_in_sync(&self) -> bool {
        &&& forall|c: int|
            0 <= c < self.connections@.len() ==> self.lists(
                (#[trigger] self.connections@[c]).1.input.terminal_id,
                self.connections@[c].0,
            ) && self.lists(self.connections@[c].1.output.terminal_id, self.connections@[c].0)
        &&& forall|t: int, k: int|
            0 <= t < self.terminals@.len() && 0 <= k < self.terminals@[t].1.connections@.len()
                ==> self.ends_at(#[trigger] self.terminals@[t].1.connections@[k], self.terminals@[t].0)
    }
}

/// The fresh id is not among the removed connections, and the input's former connections
/// all are.
proof fn lemma_removed_facts(cmd: &AddConnectionCmd, w0: &GraphWorld, id: u64, it: int)
    requires
        w0.wf(),
        0 <= it < w0.terminals@.len(),
        w0.terminals@[it].0 == cmd.input,
        w0.fresh(id),
        forall|r: u64| cmd.removed(w0).contains(r) ==> #[trigger] w0.connection_present(r),
    ensures
        !cmd.removed(w0).contains(id),
        forall|x: u64| w0.terminals@[it].1.connections@.contains(x) ==> cmd.removed(w0).contains(x),
{
    lemma_terminal_at(w0, it);
    if cmd.removed(w0).contains(id) {
        assert(w0.connection_present(id));
        let c = choose|c: int| 0 <= c < w0.connections@.len() && #[trigger] w0.connections@[c].0 == id;
        assert(w0.connections@[c].0 != id);
    }
    assert forall|x: u64| w0.terminals@[it].1.connections@.contains(x) implies cmd.removed(w0).contains(x) by {
        assert(w0.terminal(cmd.input).connections@.to_set().contains(x));
    }
}

/// After the command, each connection is entered in the terminals at both its ends.
#[verifier::spinoff_prover]
proof fn lemma_apply_connections_listed(cmd: &AddConnectionCmd, w0: &GraphWorld, id: u64, w1: &GraphWorld)
    requires
        w0.wf(),
        w0.refs_in_sync(),
        cmd.input != cmd.output,
        w0.has_terminal(cmd.input),
        w0.has_terminal(cmd.output),
        w0.fresh(id),
        forall|r: u64| cmd.removed(w0).contains(r) ==> #[trigger] w0.connection_present(r),
        w1.terminals@.len() == w0.terminals@.len(),
        forall|k: int| 0 <= k < w0.terminals@.len() ==> cmd.terminal_after(w0, id, k, #[trigger] w1.terminals@[k]),
        forall|x: (u64, Connection)|
            #[trigger] w1.connections@.contains(x) <==> (w0.connections@.contains(x) && !cmd.removed(w0).contains(x.0))
                || x == (id, cmd.new_connection(w0)),
    ensures
        forall|c: int|
            0 <= c < w1.connections@.len() ==> w1.lists(
                (#[trigger] w1.connections@[c]).1.input.terminal_id,
                w1.connections@[c].0,
            ) && w1.lists(w1.connections@[c].1.output.terminal_id, w1.connections@[c].0),
{
    let n = cmd.new_connection(w0);
    let it = choose|t: int| 0 <= t < w0.terminals@.len() && #[trigger] w0.terminals@[t].0 == cmd.input;
    let ot = choose|t: int| 0 <= t < w0.terminals@.len() && #[trigger] w0.terminals@[t].0 == cmd.output;
    lemma_removed_facts(cmd, w0, id, it);
    assert(cmd.terminal_after(w0, id, it, w1.terminals@[it]));
    assert(cmd.terminal_after(w0, id, ot, w1.terminals@[ot]));
    assert(w1.terminals@[it].1.connections@[0] == id);
    assert(w1.lists(cmd.input, id));
    assert(w1.terminals@[ot].1.connections@.to_set().contains(id));
    assert(w1.lists(cmd.output, id));
    assert forall|c: int|
        0 <= c < w1.connections@.len() implies w1.lists((#[trigger] w1.connections@[c]).1.input.terminal_id, w1.connections@[c].0)
            && w1.lists(w1.connections@[c].1.output.terminal_id, w1.connections@[c].0) by {
        let x = w1.connections@[c];
        assert(w1.connections@.contains(x));
        if x != (id, n) {
            assert(w0.connections@.contains(x));
            let c0 = choose|c0: int| 0 <= c0 < w0.connections@.len() && w0.connections@[c0] == x;
            assert(w0.lists(w0.connections@[c0].1.input.terminal_id, w0.connections@[c0].0));
            assert(w0.lists(w0.connections@[c0].1.output.terminal_id, w0.connections@[c0].0));
            let ti = choose|t: int|
                0 <= t < w0.terminals@.len() && #[trigger] w0.terminals@[t].0 == x.1.input.terminal_id
                    && w0.terminals@[t].1.connections@.contains(x.0);
            let to = choose|t: int|
                0 <= t < w0.terminals@.len() && #[trigger] w0.terminals@[t].0 == x.1.output.terminal_id
                    && w0.terminals@[t].1.connections@.contains(x.0);
            assert(cmd.terminal_after(w0, id, ti, w1.terminals@[ti]));
            assert(cmd.terminal_after(w0, id, to, w1.terminals@[to]));
            if ti == it {
                assert(cmd.removed(w0).contains(x.0));
            }
            if to == it {
                assert(cmd.removed(w0).contains(x.0));
            }
            assert(w0.terminals@[ti].1.connections@.to_set().contains(x.0));
            assert(w0.terminals@[to].1.connections@.to_set().contains(x.0));
            assert(w1.terminals@[ti].1.connections@.to_set().contains(x.0));
            assert(w1.terminals@[to].1.connections@.to_set().contains(x.0));
            assert(w1.lists(x.1.input.terminal_id, x.0));
            assert(w1.lists(x.1.output.terminal_id, x.0));
        }
    }
}

/// After the command, each terminal enters only connections that are present and end there.
#[verifier::spinoff_prover]
proof fn lemma_apply_listed_connections_end_there(cmd: &AddConnectionCmd, w0: &GraphWorld, id: u64, w1: &GraphWorld)
    requires
        w0.wf(),
        w0.refs_in_sync(),
        cmd.input != cmd.output,
        w0.has_terminal(cmd.input),
        w0.has_terminal(cmd.output),
        w0.fresh(id),
        forall|r: u64| cmd.removed(w0).contains(r) ==> #[trigger] w0.connection_present(r),
        w1.terminals@.len() == w0.terminals@.len(),
        forall|k: int| 0 <= k < w0.terminals@.len() ==> cmd.terminal_after(w0, id, k, #[trigger] w1.terminals@[k]),
        forall|x: (u64, Connection)|
            #[trigger] w1.connections@.contains(x) <==> (w0.connections@.contains(x) && !cmd.removed(w0).contains(x.0))
                || x == (id, cmd.new_connection(w0)),
    ensures
        forall|t: int, k: int|
            0 <= t < w1.terminals@.len() && 0 <= k < w1.terminals@[t].1.connections@.len()
                ==> w1.ends_at(#[trigger] w1.terminals@[t].1.connections@[k], w1.terminals@[t].0),
{
    let n = cmd.new_connection(w0);
    let it = choose|t: int| 0 <= t < w0.terminals@.len() && #[trigger] w0.terminals@[t].0 == cmd.input;
    lemma_removed_facts(cmd, w0, id, it);
    assert(w1.connections@.contains((id, n)));
    let cn = choose|c: int| 0 <= c < w1.connections@.len() && w1.connections@[c] == (id, n);
    assert forall|t: int, k: int|
        0 <= t < w1.terminals@.len() && 0 <= k < w1.terminals@[t].1.connections@.len() implies w1.ends_at(
            #[trigger] w1.terminals@[t].1.connections@[k],
            w1.terminals@[t].0,
        ) by {
        let e = w1.terminals@[t].0;
        let x = w1.terminals@[t].1.connections@[k];
        assert(cmd.terminal_after(w0, id, t, w1.terminals@[t]));
        assert(w1.terminals@[t].1.connections@.to_set().contains(x));
        if x == id {
            assert(w1.connections@[cn].0 == id);
            if e != cmd.input {
                assert(e == cmd.output);
            }
        } else {
            assert(e != cmd.input);
            assert(w0.terminals@[t].1.connections@.to_set().contains(x));
            let k0 = choose|k0: int| 0 <= k0 < w0.terminals@[t].1.connections@.len() && w0.terminals@[t].1.connections@[k0] == x;
            assert(w0.ends_at(w0.terminals@[t].1.connections@[k0], w0.terminals@[t].0));
            let c0 = choose|c: int|
                0 <= c < w0.connections@.len() && #[trigger] w0.connections@[c].0 == x && (
                w0.connections@[c].1.input.terminal_id == e || w0.connections@[c].1.output.terminal_id == e);
            assert(!cmd.removed(w0).contains(x));
            assert(w0.connections@.contains(w0.connections@[c0]));
            assert(w1.connections@.contains(w0.connections@[c0]));
            let c1 = choose|c1: int| 0 <= c1 < w1.connections@.len() && w1.connections@[c1] == w0.connections@[c0];
            assert(w1.connections@[c1].0 == x);
        }
    }
}

/// The command keeps the references between connections and terminals in agreement.
proof fn lemma_apply_keeps_refs_in_sync(cmd: &AddConnectionCmd, w0: &GraphWorld, id: u64, w1: &GraphWorld)
    requires
        w0.wf(),
        w0.refs_in_sync(),
        cmd.input != cmd.output,
        w0.has_terminal(cmd.input),
        w0.has_terminal(cmd.output),
        w0.fresh(id),
        forall|r: u64| cmd.removed(w0).contains(r) ==> #[trigger] w0.connection_present(r),
        w1.terminals@.len() == w0.terminals@.len(),
        forall|k: int| 0 <= k < w0.terminals@.len() ==> cmd.terminal_after(w0, id, k, #[trigger] w1.terminals@[k]),
        forall|x: (u64, Connection)|
            #[trigger] w1.connections@.contains(x) <==> (w0.connections@.contains(x) && !cmd.removed(w0).contains(x.0))
                || x == (id, cmd.new_connection(w0)),
    ensures
        w1.refs_in_sync(),
{
    lemma_apply_connections_listed(cmd, w0, id, w1);
    lemma_apply_listed_connections_end_there(cmd, w0, id, w1);
}

impl GraphWorld {
    /// The node entry with entity `e`, where there is one.
    pub open spec fn node_entry(&self, e: u64) -> NodeEntry {
        self.nodes@[choose|i: int| 0 <= i < self.nodes@.len() && #[trigger] self.nodes@[i].entity == e]
    }

    /// The connection with entity `e`, where there is one.
    pub open spec fn connection_with(&self, e: u64) -> Connection {
        self.connections@[choose|c: int| 0 <= c < self.connections@.len() && #[trigger] self.connections@[c].0 == e].1
    }

    /// The input terminal `name` of node `dst` can be read: where the node has such an input,
    /// its terminal is present with at most one connection; where it has one, the connection,
    /// the node and the terminal at its output end are present, and that terminal has no
    /// other connection.
    pub open spec fn input_readable(&self, dst: u64, name: Seq<char>) -> bool {
        match find_terminal_named(self.node_entry(dst).node.inputs@, name) {
            None => true,
            Some(tid) => {
                let t = self.terminal(tid);
                &&& self.has_terminal(tid)
                &&& t.connections@.len() <= 1
                &&& t.connections@.len() == 1 ==> {
                    let c = self.connection_with(t.connections@[0]);
                    &&& self.connection_present(t.connections@[0])
                    &&& self.has_node(c.output.node_id)
                    &&& self.has_terminal(c.output.terminal_id)
                    &&& self.terminal(c.output.terminal_id).connections@.len() <= 1
                }
            },
        }
    }

    /// Where the value of the input terminal `name` of node `dst` comes from: nothing where
    /// the node has no such input or nothing is connected to it; else the node and the name
    /// of the output terminal at the other end of its connection.
    pub open spec fn input_source_of(&self, dst: u64, name: Seq<char>) -> Option<(u64, &'static str)> {
        match find_terminal_named(self.node_entry(dst).node.inputs@, name) {
            None => None,
            Some(tid) => {
                let t = self.terminal(tid);
                if t.connections@.len() == 0 {
                    None
                } else {
                    let c = self.connection_with(t.connections@[0]);
                    Some((c.output.node_id, c.output.terminal_name))
                }
            },
        }
    }

    /// Where the value of the input terminal `terminal_name` of node `dst_node` comes from.
    pub fn input_source(&self, dst_node: u64, terminal_name: &'static str) -> (res: Option<(u64, &'static str)>)
        requires
            self.wf(),
            self.has_node(dst_node),
            self.input_readable(dst_node, terminal_name@),
        ensures
            res == self.input_source_of(dst_node, terminal_name@),
    {
        let i = self.find_node(dst_node).unwrap();
        proof {
            let j = choose|j: int| 0 <= j < self.nodes@.len() && #[trigger] self.nodes@[j].entity == dst_node;
            if j != i as int {
                if j < i {
                    assert(self.nodes@[j].entity != self.nodes@[i as int].entity);
                } else {
                    assert(self.nodes@[i as int].entity != self.nodes@[j].entity);
                }
            }
            assert(self.node_entry(dst_node) == self.nodes@[i as int]);
        }
        let dst_terminal_id = match self.nodes[i].node.get_input_terminal(terminal_name) {
            Some(t) => t,
            None => {
                return None;
            },
        };
        let t = self.find_terminal(dst_terminal_id).unwrap();
        proof {
            lemma_terminal_at(self, t as int);
        }
        let dst_terminal = &self.terminals[t].1;
        if dst_terminal.is_connected() {
            let connection_id = dst_terminal.connections[0];
            let c = self.find_connection(connection_id).unwrap();
            proof {
                let c2 = choose|c2: int| 0 <= c2 < self.connections@.len() && #[trigger] self.connections@[c2].0 == connection_id;
                if c2 != c as int {
                    if c2 < c {
                        assert(self.connections@[c2].0 != self.connections@[c as int].0);
                    } else {
                        assert(self.connections@[c as int].0 != self.connections@[c2].0);
                    }
                }
            }
            let connection = self.connections[c].1;
            Some((connection.output.node_id, connection.output.terminal_name))
        } else {
            None
        }
    }

    /// The id of the node with entity `node_id`.
    pub fn get_node_index(&self, node_id: u64) -> (res: GraphNodeId)
        requires
            self.wf(),
            self.has_node(node_id),
        ensures
            res == self.node_entry(node_id).node.index,
    {
        let i = self.find_node(node_id).unwrap();
        proof {
            let j = choose|j: int| 0 <= j < self.nodes@.len() && #[trigger] self.nodes@[j].entity == node_id;
            if j != i as int {
                if j < i {
                    assert(self.nodes@[j].entity != self.nodes@[i as int].entity);
                } else {
                    assert(self.nodes@[i as int].entity != self.nodes@[j].entity);
                }
            }
        }
        self.nodes[i].node.index
    }
}

/// What the layout of a node's terminals reads of a field of its operator: its name, the path
/// of its type, and whether it is marked as an input or as an output.
#[derive(Clone, Copy, Debug)]
pub struct OperatorField {
    pub name: &'static str,
    pub type_path: &'static str,
    pub input: bool,
    pub output: bool,
}

/// A terminal that a node gets for a field of its operator.
#[derive(Clone, Copy, Debug)]
pub struct TerminalSlot {
    pub name: &'static str,
    pub data_type: ConnectionDataType,
    /// Whether it is an input terminal; else it is an output terminal.
    pub input: bool,
}

/// The data type of a terminal for a field with the given type path: a color where the path
/// mentions `color`, a vector for the plain vector types, else a scalar.
pub open spec fn data_type_of(type_path: Seq<char>) -> ConnectionDataType {
    if text_contains(type_path, "color"@) {
        ConnectionDataType::Color
    } else if type_path == "Vec2"@ || type_path == "Vec3"@ || type_path == "Vec4"@ {
        ConnectionDataType::Vector
    } else {
        ConnectionDataType::Scalar
    }
}

/// The terminals for the fields, in their order: an input for each field marked as an input,
/// else an output for each field marked as an output.
pub open spec fn slots_of(fields: Seq<OperatorField>) -> Seq<TerminalSlot>
    decreases fields.len(),
{
    if fields.len() == 0 {
        Seq::empty()
    } else {
        let rest = slots_of(fields.drop_last());
        let f = fields.last();
        if f.input {
            rest.push(TerminalSlot { name: f.name, data_type: data_type_of(f.type_path@), input: true })
        } else if f.output {
            rest.push(TerminalSlot { name: f.name, data_type: data_type_of(f.type_path@), input: false })
        } else {
            rest
        }
    }
}

/// The data type of a terminal for a field with the given type path.
pub fn connection_data_type(type_path: &str) -> (res: ConnectionDataType)
    ensures
        res == data_type_of(type_path@),
{
    if str_contains(type_path, "color") {
        ConnectionDataType::Color
    } else if str_eq(type_path, "Vec2") || str_eq(type_path, "Vec3") || str_eq(type_path, "Vec4") {
        ConnectionDataType::Vector
    } else {
        ConnectionDataType::Scalar
    }
}

/// The terminals that a node gets for the fields of its operator, in field order.
pub fn terminal_slots(fields: &Vec<OperatorField>) -> (res: Vec<TerminalSlot>)
    ensures
        res@ == slots_of(fields@),
{
    let mut res: Vec<TerminalSlot> = Vec::new();
    let mut i: usize = 0;
    while i < fields.len()
        invariant
            i <= fields@.len(),
            res@ == slots_of(fields@.take(i as int)),
        decreases fields@.len() - i,
    {
        let f = fields[i];
        proof {
            assert(fields@.take(i + 1).drop_last() =~= fields@.take(i as int));
            assert(fields@.take(i + 1).last() == f);
        }
        if f.input {
            res.push(TerminalSlot { name: f.name, data_type: connection_data_type(f.type_path), input: true });
        } else if f.output {
            res.push(TerminalSlot { name: f.name, data_type: connection_data_type(f.type_path), input: false });
        }
        i += 1;
    }
    proof {
        assert(fields@.take(i as int) =~= fields@);
    }
    res
}

} // verus!
