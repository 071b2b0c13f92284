use crate::entity_set::{entity_set_items, node_map_items, EntitySet, NodeMap};
use crate::graph::{Connection, GraphNode, GraphNodeId};
use vstd::prelude::*;

verus! {

/// Represents a single mutation within an [`UndoAction`].
#[derive(Debug)]
pub enum UndoMutation {
    AddNode(GraphNodeId, u64),
    RemoveNode(GraphNodeId, GraphNode),
    AddConnection(Connection),
    RemoveConnection(Connection),
}

/// Represents a user-level action which can be undone or redone.
#[derive(Debug)]
pub struct UndoAction {
    pub label: &'static str,
    pub mutations: Vec<UndoMutation>,
}

impl UndoAction {
    /// An action with the given label and no mutations yet.
    pub fn new(label: &'static str) -> (res: Self)
        ensures
            res.label == label,
            res.mutations@ == Seq::<UndoMutation>::empty(),
    {
        UndoAction { label, mutations: Vec::new() }
    }
}

/// The mathematical value of a graph: its node entities by node id, the last node id issued,
/// its connection entities, and its undo and redo stacks.
pub struct GraphView {
    pub nodes: Map<usize, u64>,
    pub next_id: nat,
    pub connections: Set<u64>,
    pub undo_stack: Seq<UndoAction>,
    pub redo_stack: Seq<UndoAction>,
}

impl GraphView {
    /// Every node id in use has been issued, so that the next one issued is new; the set of
    /// connections is finite.
    pub open spec fn wf(self) -> bool {
        &&& forall|k: usize| #[trigger] self.nodes.dom().contains(k) ==> 1 <= k <= self.next_id
        &&& self.connections.finite()
    }
}

/// A Vortex node graph.
pub struct Graph {
    nodes: NodeMap,
    next_id: usize,
    connections: EntitySet,
    undo_stack: Vec<UndoAction>,
    redo_stack: Vec<UndoAction>,
}

impl View for Graph {
    type V = GraphView;

    closed spec fn view(&self) -> GraphView {
        GraphView {
            nodes: node_map_items(self.nodes),
            next_id: self.next_id as nat,
            connections: entity_set_items(self.connections),
            undo_stack: self.undo_stack@,
            redo_stack: self.redo_stack@,
        }
    }
}

impl Default for Graph {
    /// An empty graph that has issued no node id.
    fn default() -> (res: Self)
        ensures
            res@.nodes.dom() == Set::<usize>::empty(),
            res@.next_id == 0,
            res@.connections == Set::<u64>::empty(),
            res@.undo_stack == Seq::<UndoAction>::empty(),
            res@.redo_stack == Seq::<UndoAction>::empty(),
            res@.wf(),
    {
        Graph {
            nodes: NodeMap::new(),
            next_id: 0,
            connections: EntitySet::with_capacity(0),
            undo_stack: Vec::new(),
            redo_stack: Vec::new(),
        }
    }
}

impl Graph {
    /// Create a new node for the node entity `entity`: issue the next node id, enter the node
    /// under it, and record the addition in the action.
    pub fn create_node(&mut self, entity: u64, action: &mut UndoAction) -> (res: GraphNodeId)
        requires
            old(self)@.next_id < usize::MAX,
        ensures
            res.0 == old(self)@.next_id + 1,
            final(self)@ == (GraphView {
                nodes: old(self)@.nodes.insert(res.0, entity),
                next_id: res.0 as nat,
                ..old(self)@
            }),
            final(action).label == old(action).label,
            final(action).mutations@ == old(action).mutations@.push(UndoMutation::AddNode(res, entity)),
            old(self)@.wf() ==> !old(self)@.nodes.dom().contains(res.0) && final(self)@.wf(),
    {
        self.next_id = self.next_id + 1;
        let id = GraphNodeId(self.next_id);
        action.mutations.push(UndoMutation::AddNode(id, entity));
        self.nodes.insert(id.0, entity);
        id
    }

    /// Remove a node from the graph, returning its entity, which the caller despawns and
    /// records in the undo action; nothing where the graph has no such node.
    pub fn delete_node(&mut self, node_id: GraphNodeId) -> (res: Option<u64>)
        ensures
            final(self)@ == (GraphView { nodes: old(self)@.nodes.remove(node_id.0), ..old(self)@ }),
            res == (if old(self)@.nodes.dom().contains(node_id.0) {
                Some(old(self)@.nodes[node_id.0])
            } else {
                None
            }),
            old(self)@.wf() ==> final(self)@.wf(),
    {
        self.nodes.remove(node_id.0)
    }

    /// The entity of the node with the given id, if the graph has one.
    pub fn node_entity(&self, node_id: GraphNodeId) -> (res: Option<u64>)
        ensures
            res == (if self@.nodes.dom().contains(node_id.0) {
                Some(self@.nodes[node_id.0])
            } else {
                None
            }),
    {
        self.nodes.get(node_id.0)
    }

    /// Add the connection with entity `entity` to the graph, recording it in the action.
    pub fn add_connection(&mut self, entity: u64, connection: Connection, action: &mut UndoAction)
        ensures
            final(self)@ == (GraphView { connections: old(self)@.connections.insert(entity), ..old(self)@ }),
            final(action).label == old(action).label,
            final(action).mutations@ == old(action).mutations@.push(UndoMutation::AddConnection(connection)),
            old(self)@.wf() ==> final(self)@.wf(),
    {
        action.mutations.push(UndoMutation::AddConnection(connection));
        self.connections.insert(entity);
    }

    /// Remove the connection with entity `entity`, whose value is `connection`, from the
    /// graph, recording it in the action.
    pub fn remove_connection(&mut self, entity: u64, connection: Connection, action: &mut UndoAction)
        ensures
            final(self)@ == (GraphView { connections: old(self)@.connections.remove(entity), ..old(self)@ }),
            final(action).label == old(action).label,
            final(action).mutations@ == old(action).mutations@.push(UndoMutation::RemoveConnection(connection)),
            old(self)@.wf() ==> final(self)@.wf(),
    {
        self.connections.remove(entity);
        action.mutations.push(UndoMutation::RemoveConnection(connection));
    }

    /// Whether the connection with entity `entity` belongs to the graph.
    pub fn has_connection(&self, entity: u64) -> (res: bool)
        ensures
            res == self@.connections.contains(entity),
    {
        self.connections.contains(entity)
    }

    /// The connections of the graph, each once.
    pub fn connection_entities(&self) -> (res: Vec<u64>)
        ensures
            res@.no_duplicates(),
            res@.to_set() == self@.connections,
    {
        self.connections.to_vec()
    }

    /// The actions that can be undone, the latest last.
    pub fn undo_stack(&self) -> (res: &Vec<UndoAction>)
        ensures
            res@ == self@.undo_stack,
    {
        &self.undo_stack
    }

    /// The actions that can be redone.
    pub fn redo_stack(&self) -> (res: &Vec<UndoAction>)
        ensures
            res@ == self@.redo_stack,
    {
        &self.redo_stack
    }

    /// Takes the removed connections out of the graph's connections and enters `id`.
    pub(crate) fn replace_connections(&mut self, removed: &Vec<u64>, id: u64)
        ensures
            final(self)@ == (GraphView {
                connections: old(self)@.connections.difference(removed@.to_set()).insert(id),
                ..old(self)@
            }),
    {
        let ghost start = self@.connections;
        let mut i: usize = 0;
        proof {
            assert(removed@.take(0).to_set() =~= Set::<u64>::empty());
            assert(start.difference(removed@.take(0).to_set()) =~= start);
        }
        while i < removed.len()
            invariant
                i <= removed@.len(),
                self@ == (GraphView { connections: start.difference(removed@.take(i as int).to_set()), ..old(self)@ }),
            decreases removed@.len() - i,
        {
            self.connections.remove(removed[i]);
            proof {
                assert(removed@.take(i + 1) == removed@.take(i as int).push(removed@[i as int]));
                removed@.take(i as int).lemma_push_to_set_commute(removed@[i as int]);
                assert(start.difference(removed@.take(i + 1).to_set()) =~= start.difference(
                    removed@.take(i as int).to_set(),
                ).remove(removed@[i as int]));
            }
            i += 1;
        }
        proof {
            assert(removed@.take(i as int) == removed@);
        }
        self.connections.insert(id);
    }

    /// Add a new undo action to the undo stack. Also clears the redo stack.
    pub fn add_undo_action(&mut self, action: UndoAction)
        ensures
            final(self)@ == (GraphView {
                undo_stack: old(self)@.undo_stack.push(action),
                redo_stack: Seq::<UndoAction>::empty(),
                ..old(self)@
            }),
    {
        self.redo_stack.clear();
        self.undo_stack.push(action);
    }
}

} // verus!
