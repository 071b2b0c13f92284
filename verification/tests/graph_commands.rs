use vortex_gen::graph_state::{Graph, UndoAction, UndoMutation};
use vortex_gen::graph::{
    connection_data_type, terminal_slots, AddConnectionCmd, Connection, ConnectionDataType,
    DeleteSelectedCmd, GraphNode, GraphNodeId, GraphWorld, InputTerminalId, MarkModifiedCmd,
    NodeEntry, NodeOutputState, OperatorField, OutputTerminalId, Terminal,
};

fn node(entity: u64, index: usize, inputs: Vec<(&'static str, u64)>, outputs: Vec<(&'static str, u64)>, modified: bool, selected: bool) -> NodeEntry {
    NodeEntry {
        entity,
        node: GraphNode { index: GraphNodeId(index), position: (0, 0), size: (0, 0), inputs, outputs },
        modified,
        selected,
    }
}

fn terminal(entity: u64, node_id: u64, name: &'static str, connections: Vec<u64>) -> (u64, Terminal) {
    (entity, Terminal { node_id, name, data_type: ConnectionDataType::Color, connections })
}

fn connection(entity: u64, from: (u64, &'static str, u64), to: (u64, &'static str, u64)) -> (u64, Connection) {
    (
        entity,
        Connection {
            output: OutputTerminalId { node_id: from.0, terminal_name: from.1, terminal_id: from.2 },
            input: InputTerminalId { node_id: to.0, terminal_name: to.1, terminal_id: to.2 },
        },
    )
}

/// A chain A -> B -> C -> D -> E, where D is already marked modified and B is selected.
fn chain() -> GraphWorld {
    GraphWorld {
        nodes: vec![
            node(1, 1, vec![], vec![("out", 11)], false, false),
            node(2, 2, vec![("input", 21)], vec![("out", 22)], false, true),
            node(3, 3, vec![("input", 31)], vec![("out", 32)], false, false),
            node(4, 4, vec![("input", 41)], vec![("out", 42)], true, false),
            node(5, 5, vec![("input", 51)], vec![], false, false),
        ],
        terminals: vec![
            terminal(11, 1, "out", vec![100]),
            terminal(21, 2, "input", vec![100]),
            terminal(22, 2, "out", vec![101]),
            terminal(31, 3, "input", vec![101]),
            terminal(32, 3, "out", vec![102]),
            terminal(41, 4, "input", vec![102]),
            terminal(42, 4, "out", vec![103]),
            terminal(51, 5, "input", vec![103]),
        ],
        connections: vec![
            connection(100, (1, "out", 11), (2, "input", 21)),
            connection(101, (2, "out", 22), (3, "input", 31)),
            connection(102, (3, "out", 32), (4, "input", 41)),
            connection(103, (4, "out", 42), (5, "input", 51)),
        ],
    }
}

fn sorted(mut v: Vec<u64>) -> Vec<u64> {
    v.sort();
    v
}

#[test]
fn mark_modified_stops_at_modified_nodes() {
    let world = chain();
    let marked = MarkModifiedCmd { start: 1 }.nodes_to_mark(&world);
    assert_eq!(sorted(marked), vec![1, 2, 3]);
}

#[test]
fn mark_modified_from_a_modified_node_marks_nothing() {
    let world = chain();
    assert!(MarkModifiedCmd { start: 4 }.nodes_to_mark(&world).is_empty());
}

#[test]
fn mark_modified_from_a_missing_node_marks_nothing() {
    let world = chain();
    assert!(MarkModifiedCmd { start: 99 }.nodes_to_mark(&world).is_empty());
}

#[test]
fn mark_modified_from_a_sink_marks_only_it() {
    let world = chain();
    assert_eq!(MarkModifiedCmd { start: 5 }.nodes_to_mark(&world), vec![5]);
}

#[test]
fn mark_modified_follows_a_fan_out_once_per_node() {
    let mut world = chain();
    // A also feeds C directly.
    world.terminals[0].1.connections.push(104);
    world.terminals[3].1.connections.push(104);
    world.connections.push(connection(104, (1, "out", 11), (3, "input", 31)));
    world.nodes[3].modified = false;
    let marked = MarkModifiedCmd { start: 1 }.nodes_to_mark(&world);
    assert_eq!(sorted(marked), vec![1, 2, 3, 4, 5]);
}

#[test]
fn try_mark_modified_gives_the_same_nodes_when_outputs_are_present() {
    let world = chain();
    let marked = MarkModifiedCmd { start: 1 }.try_nodes_to_mark(&world).unwrap();
    assert_eq!(sorted(marked), vec![1, 2, 3]);
}

#[test]
fn try_mark_modified_refuses_a_downstream_node_with_a_missing_terminal() {
    let mut world = chain();
    // C's output terminal is gone.
    world.terminals.remove(4);
    assert_eq!(MarkModifiedCmd { start: 1 }.try_nodes_to_mark(&world), None);
    // Nodes past D are never visited, so a missing terminal there is no obstacle.
    let mut world = chain();
    world.terminals.remove(6);
    assert_eq!(sorted(MarkModifiedCmd { start: 1 }.try_nodes_to_mark(&world).unwrap()), vec![1, 2, 3]);
}

#[test]
fn try_mark_modified_refuses_a_missing_connection() {
    let mut world = chain();
    world.connections.remove(1);
    assert_eq!(MarkModifiedCmd { start: 2 }.try_nodes_to_mark(&world), None);
}

#[test]
fn delete_selected_removes_the_node_and_its_connections() {
    let world = chain();
    let cmd = DeleteSelectedCmd;
    assert_eq!(cmd.nodes_to_delete(&world), vec![(2, GraphNodeId(2))]);
    assert_eq!(sorted(cmd.connections_to_remove(&world)), vec![100, 101]);
}

#[test]
fn delete_with_nothing_selected_removes_nothing() {
    let mut world = chain();
    world.nodes[1].selected = false;
    let cmd = DeleteSelectedCmd;
    assert!(cmd.nodes_to_delete(&world).is_empty());
    assert!(cmd.connections_to_remove(&world).is_empty());
}

#[test]
fn add_connection_replaces_the_input_connection() {
    let mut world = chain();
    let cmd = AddConnectionCmd { input: 31, output: 11, replace: None };
    let conn = cmd.connection(&world);
    assert_eq!(conn.output.node_id, 1);
    assert_eq!(conn.output.terminal_name, "out");
    assert_eq!(conn.input.node_id, 3);
    assert_eq!(conn.input.terminal_name, "input");
    let mut graph = Graph::default();
    let mut action = UndoAction::new("Setup");
    for (e, c) in world.connections.iter() {
        graph.add_connection(*e, *c, &mut action);
    }
    graph.add_undo_action(action);
    let (removed, mark) = cmd.apply(&mut world, &mut graph, 200);
    assert_eq!(removed, vec![101]);
    assert_eq!(mark.start, 3);
    // The input terminal has exactly one connection, the new one.
    assert_eq!(world.terminals[3].1.connections, vec![200]);
    // The output terminal keeps its connection and gains the new one.
    assert_eq!(sorted(world.terminals[0].1.connections.clone()), vec![100, 200]);
    // The far end of the removed connection forgets it.
    assert!(world.terminals[2].1.connections.is_empty());
    let ids: Vec<u64> = world.connections.iter().map(|c| c.0).collect();
    assert_eq!(sorted(ids), vec![100, 102, 103, 200]);
    assert_eq!(world.connections.last().unwrap().1, conn);
    // The graph forgets the removed connection, knows the new one, and records the action.
    let mut known = graph.connection_entities();
    known.sort();
    assert_eq!(known, vec![100, 102, 103, 200]);
    assert_eq!(graph.undo_stack().len(), 2);
    let last = graph.undo_stack().last().unwrap();
    assert_eq!(last.label, "Add Connection");
    assert_eq!(last.mutations.len(), 1);
    assert!(matches!(last.mutations[0], UndoMutation::AddConnection(c) if c == conn));
    assert!(graph.redo_stack().is_empty());
}

#[test]
fn add_connection_removes_the_replaced_connection() {
    let mut world = chain();
    let cmd = AddConnectionCmd { input: 51, output: 32, replace: Some(102) };
    let mut graph = Graph::default();
    let (removed, mark) = cmd.apply(&mut world, &mut graph, 300);
    assert_eq!(sorted(removed), vec![102, 103]);
    assert_eq!(mark.start, 5);
    assert_eq!(world.terminals[7].1.connections, vec![300]);
    assert_eq!(world.terminals[4].1.connections, vec![300]);
    assert!(world.terminals[5].1.connections.is_empty());
    assert!(world.terminals[6].1.connections.is_empty());
    let ids: Vec<u64> = world.connections.iter().map(|c| c.0).collect();
    assert_eq!(sorted(ids), vec![100, 101, 300]);
    assert_eq!(graph.connection_entities(), vec![300]);
}

#[test]
fn terminals_are_found_by_name() {
    let world = chain();
    assert_eq!(world.nodes[1].node.get_input_terminal("input"), Some(21));
    assert_eq!(world.nodes[1].node.get_output_terminal("out"), Some(22));
    assert_eq!(world.nodes[1].node.get_input_terminal("out"), None);
    assert!(world.terminals[0].1.is_connected());
    assert!(!terminal(60, 6, "x", vec![]).1.is_connected());
}

#[test]
fn node_output_state_defaults_to_modified() {
    assert_eq!(NodeOutputState::default(), NodeOutputState::Modified);
}

#[test]
fn input_source_follows_the_connection() {
    let world = chain();
    assert_eq!(world.input_source(3, "input"), Some((2, "out")));
    assert_eq!(world.input_source(2, "input"), Some((1, "out")));
}

#[test]
fn input_source_of_an_unconnected_or_missing_input_is_none() {
    let mut world = chain();
    assert_eq!(world.input_source(1, "input"), None);
    world.terminals[1].1.connections.clear();
    assert_eq!(world.input_source(2, "input"), None);
}

#[test]
fn node_index_is_found_by_entity() {
    let world = chain();
    assert_eq!(world.get_node_index(4), GraphNodeId(4));
}

#[test]
fn terminal_data_types_follow_the_type_path() {
    assert_eq!(connection_data_type("bevy_color::linear_rgba::LinearRgba"), ConnectionDataType::Color);
    assert_eq!(connection_data_type("Vec2"), ConnectionDataType::Vector);
    assert_eq!(connection_data_type("Vec4"), ConnectionDataType::Vector);
    assert_eq!(connection_data_type("glam::Vec3"), ConnectionDataType::Scalar);
    assert_eq!(connection_data_type("f32"), ConnectionDataType::Scalar);
    assert_eq!(connection_data_type(""), ConnectionDataType::Scalar);
}

#[test]
fn terminal_slots_follow_the_field_marks() {
    let fields = vec![
        OperatorField { name: "output", type_path: "bevy_color::linear_rgba::LinearRgba", input: false, output: true },
        OperatorField { name: "input_a", type_path: "bevy_color::linear_rgba::LinearRgba", input: true, output: false },
        OperatorField { name: "factor", type_path: "f32", input: true, output: false },
        OperatorField { name: "octaves", type_path: "i32", input: false, output: false },
        OperatorField { name: "uv", type_path: "Vec2", input: true, output: true },
    ];
    let slots = terminal_slots(&fields);
    let got: Vec<(&str, ConnectionDataType, bool)> = slots.iter().map(|s| (s.name, s.data_type, s.input)).collect();
    assert_eq!(
        got,
        vec![
            ("output", ConnectionDataType::Color, false),
            ("input_a", ConnectionDataType::Color, true),
            ("factor", ConnectionDataType::Scalar, true),
            ("uv", ConnectionDataType::Vector, true),
        ]
    );
}

#[test]
fn graph_issues_fresh_node_ids() {
    let mut graph = Graph::default();
    let mut action = UndoAction::new("Add Nodes");
    let a = graph.create_node(10, &mut action);
    let b = graph.create_node(20, &mut action);
    let c = graph.create_node(30, &mut action);
    assert_eq!((a, b, c), (GraphNodeId(1), GraphNodeId(2), GraphNodeId(3)));
    assert_eq!(graph.delete_node(b), Some(20));
    assert_eq!(graph.delete_node(b), None);
    let d = graph.create_node(40, &mut action);
    assert_eq!(d, GraphNodeId(4));
    assert_eq!(graph.node_entity(a), Some(10));
    assert_eq!(graph.node_entity(b), None);
    assert_eq!(graph.node_entity(d), Some(40));
    assert_eq!(action.mutations.len(), 4);
    assert!(matches!(action.mutations[3], UndoMutation::AddNode(GraphNodeId(4), 40)));
}

#[test]
fn adding_an_undo_action_clears_the_redo_stack() {
    let mut graph = Graph::default();
    graph.add_undo_action(UndoAction::new("First"));
    graph.add_undo_action(UndoAction::new("Second"));
    assert_eq!(graph.undo_stack().len(), 2);
    assert_eq!(graph.undo_stack()[1].label, "Second");
    assert!(graph.redo_stack().is_empty());
}

#[test]
fn graph_connections_are_added_and_removed() {
    let world = chain();
    let mut graph = Graph::default();
    let mut action = UndoAction::new("Connect");
    graph.add_connection(world.connections[0].0, world.connections[0].1, &mut action);
    assert!(graph.has_connection(100));
    graph.remove_connection(world.connections[0].0, world.connections[0].1, &mut action);
    assert!(!graph.has_connection(100));
    assert_eq!(action.mutations.len(), 2);
    assert!(matches!(action.mutations[1], UndoMutation::RemoveConnection(c) if c == world.connections[0].1));
}
