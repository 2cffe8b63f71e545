//! End-to-end behavior of the presenter: refresh cycles, diffing, echo
//! suppression and failure isolation.

use graph_presenter::graph::ControllerCommand;
use graph_presenter::graph::Graph;
use graph_presenter::ids::Connection;
use graph_presenter::ids::Endpoint;
use graph_presenter::ids::Position;
use graph_presenter::plan::ViewCommand;
use graph_presenter::graph::PresenterError;
use graph_presenter::ids::ViewEndpoint;
use graph_presenter::snapshot::FetchError;
use graph_presenter::snapshot::NodeSnapshot;

fn node(id: u64, expression: &str, position: Option<Position>) -> NodeSnapshot {
    NodeSnapshot {
        id,
        expression: expression.to_owned(),
        subexpressions: vec![id],
        position,
        visualization: None,
    }
}

fn connection(from: u64, to: u64) -> Connection {
    Connection {
        source: Endpoint { node: from, port: vec![0] },
        target: Endpoint { node: to, port: vec![1] },
    }
}

#[test]
fn refresh_reaches_snapshot() {
    let mut graph = Graph::new();
    let nodes = vec![node(1, "a = 1", None), node(2, "b = a + 1", None)];
    let conns = vec![connection(1, 2)];
    let plan = graph.refresh_cycle(Ok(nodes), Ok(conns)).unwrap();
    assert_eq!(plan.nodes_to_add, 2);
    assert!(plan.removed_nodes.is_empty());
    assert!(plan.removed_connections.is_empty());
    // The store now shows both nodes and the connection.
    assert_eq!(graph.state.nodes.len(), 2);
    assert_eq!(graph.state.connections.len(), 1);
    // A shrunken snapshot removes exactly the vanished node.
    let v1 = graph.node_added_in_view(100).unwrap();
    let v2 = graph.node_added_in_view(200).unwrap();
    assert_eq!(v1.ast_id, 1);
    assert_eq!(v2.ast_id, 2);
    let plan = graph
        .refresh_cycle(Ok(vec![node(2, "b = a + 1", None)]), Ok(vec![]))
        .unwrap();
    assert_eq!(plan.removed_nodes, vec![100]);
    assert_eq!(plan.removed_connections, Vec::<u64>::new());
    assert_eq!(plan.nodes_to_add, 0);
    assert_eq!(graph.state.nodes.len(), 1);
    assert_eq!(graph.state.connections.len(), 0);
}

#[test]
fn second_refresh_plans_nothing() {
    let mut graph = Graph::new();
    let nodes = vec![node(1, "a = 1", Some(Position { x: 5, y: 7 })), node(2, "b = 2", None)];
    let conns = vec![connection(1, 2)];
    let plan = graph
        .refresh_cycle(Ok(nodes.clone()), Ok(conns.clone()))
        .unwrap();
    assert!(!plan.commands().is_empty());
    let plan = graph.refresh_cycle(Ok(nodes), Ok(conns)).unwrap();
    assert!(plan.commands().is_empty());
}

#[test]
fn echo_suppressed_after_view_move() {
    let mut graph = Graph::new();
    let nodes = vec![node(1, "a = 1", None)];
    graph.refresh_cycle(Ok(nodes), Ok(vec![])).unwrap();
    graph.node_added_in_view(100).unwrap();
    // The user drags the node; the edit goes to the controller.
    let cmd = graph.node_position_changed(100, Position { x: 30, y: -40 });
    assert!(matches!(
        cmd,
        Ok(ControllerCommand::SetNodePosition(1, Position { x: 30, y: -40 }))
    ));
    // Moving an unknown view node is rejected at the boundary.
    assert_eq!(
        graph
            .node_position_changed(777, Position { x: 0, y: 0 })
            .unwrap_err(),
        PresenterError::NotFound
    );
    // The controller's notification round-trips the same position back:
    // no position command is produced for the view.
    let plan = graph
        .refresh_cycle(
            Ok(vec![node(1, "a = 1", Some(Position { x: 30, y: -40 }))]),
            Ok(vec![]),
        )
        .unwrap();
    assert!(plan.position_updates.is_empty());
    assert!(plan.commands().is_empty());
    // A genuinely different controller position still reaches the view.
    let plan = graph
        .refresh_cycle(
            Ok(vec![node(1, "a = 1", Some(Position { x: 8, y: 9 }))]),
            Ok(vec![]),
        )
        .unwrap();
    assert_eq!(plan.position_updates, vec![(100, Position { x: 8, y: 9 })]);
}

#[test]
fn diff_against_new_snapshot() {
    let mut graph = Graph::new();
    // Store holds {A, B, C} with views.
    let abc = vec![node(10, "a", None), node(20, "b", None), node(30, "c", None)];
    graph.refresh_cycle(Ok(abc), Ok(vec![])).unwrap();
    graph.node_added_in_view(1).unwrap();
    graph.node_added_in_view(2).unwrap();
    graph.node_added_in_view(3).unwrap();
    // New snapshot is {B, C, D}, with a connection naming D.
    let bcd = vec![node(20, "b", None), node(30, "c", None), node(40, "d", None)];
    let conns = vec![connection(20, 40)];
    let plan = graph
        .refresh_cycle(Ok(bcd.clone()), Ok(conns.clone()))
        .unwrap();
    // Remove-set = {A}; add-count = 1.
    assert_eq!(plan.removed_nodes, vec![1]);
    assert_eq!(plan.nodes_to_add, 1);
    // D has no view yet, so no connection command names it in this cycle;
    // the node-creation command is there.
    let commands = plan.commands();
    assert!(plan.added_connections.is_empty());
    assert!(commands.iter().any(|c| matches!(c, ViewCommand::AddNode)));
    assert!(!commands.iter().any(|c| matches!(c, ViewCommand::AddConnection(_, _))));
    // The view creates D; only then may a connection command name it, so
    // D's creation command precedes any connection command naming D.
    let info = graph.node_added_in_view(4).unwrap();
    assert_eq!(info.ast_id, 40);
    let edges = graph.connections_for_new_node(40);
    assert_eq!(edges.len(), 1);
    assert_eq!(edges[0].0.node, 2);
    assert_eq!(edges[0].1.node, 4);
    // With everything applied, the next cycle plans nothing further.
    let plan = graph.refresh_cycle(Ok(bcd), Ok(conns)).unwrap();
    assert!(plan.added_connections.is_empty());
    assert!(plan.commands().is_empty());
}

#[test]
fn commands_keep_stage_order() {
    let mut graph = Graph::new();
    let abc = vec![
        node(10, "a", Some(Position { x: 0, y: 0 })),
        node(20, "b", None),
        node(30, "c", None),
    ];
    graph.refresh_cycle(Ok(abc), Ok(vec![])).unwrap();
    graph.node_added_in_view(1).unwrap();
    graph.node_added_in_view(2).unwrap();
    graph.node_added_in_view(3).unwrap();
    let bcd = vec![
        node(20, "b2", None),
        node(30, "c", Some(Position { x: 4, y: 4 })),
        node(40, "d", None),
    ];
    let plan = graph
        .refresh_cycle(Ok(bcd), Ok(vec![connection(20, 30)]))
        .unwrap();
    let commands = plan.commands();
    let stage = |c: &ViewCommand| -> u32 {
        match c {
            ViewCommand::RemoveNode(_) => 0,
            ViewCommand::SetNodeExpression(_, _) => 1,
            ViewCommand::SetNodePosition(_, _) => 2,
            ViewCommand::SetNodeVisualization(_, _) => 3,
            ViewCommand::EnableVisualization(_) => 3,
            ViewCommand::DisableVisualization(_) => 3,
            ViewCommand::AddNode => 4,
            ViewCommand::RemoveConnection(_) => 5,
            ViewCommand::AddConnection(_, _) => 6,
        }
    };
    for pair in commands.windows(2) {
        assert!(stage(&pair[0]) <= stage(&pair[1]));
    }
    assert!(commands.iter().any(|c| matches!(c, ViewCommand::RemoveNode(1))));
    assert!(commands.iter().any(|c| matches!(c, ViewCommand::AddNode)));
    assert!(commands.iter().any(|c| matches!(c, ViewCommand::AddConnection(_, _))));
}

#[test]
fn fetch_failure_aborts_cycle() {
    let mut graph = Graph::new();
    let nodes = vec![node(1, "a = 1", None), node(2, "b = 2", None)];
    graph.refresh_cycle(Ok(nodes.clone()), Ok(vec![])).unwrap();
    graph.node_added_in_view(100).unwrap();
    graph.node_added_in_view(200).unwrap();
    // Fetching connections fails mid-cycle: no commands at all, and the
    // previously displayed state stays authoritative.
    let shrunk = vec![node(1, "a = 1", None)];
    let r = graph.refresh_cycle(Ok(shrunk), Err(FetchError::Connections));
    assert_eq!(r.unwrap_err(), FetchError::Connections);
    assert_eq!(graph.state.nodes.len(), 2);
    assert_eq!(graph.view_id_of_ast_node(2), Some(200));
    // The next successful cycle still reconciles from the intact state.
    let plan = graph.refresh_cycle(Ok(nodes), Ok(vec![])).unwrap();
    assert!(plan.commands().is_empty());
}

#[test]
fn explicit_view_assignment() {
    let mut graph = Graph::new();
    graph
        .refresh_cycle(Ok(vec![node(7, "x", None)]), Ok(vec![]))
        .unwrap();
    assert_eq!(graph.view_id_of_ast_node(7), None);
    graph.assign_node_view_explicitly(55, 7);
    assert_eq!(graph.view_id_of_ast_node(7), Some(55));
    assert_eq!(graph.ast_node_of_view(55), Some(7));
    // Re-assigning the same view to another node detaches the old owner.
    graph.assign_node_view_explicitly(55, 8);
    assert_eq!(graph.view_id_of_ast_node(7), None);
    assert_eq!(graph.ast_node_of_view(55), Some(8));
}

#[test]
fn view_originated_removal_and_connections() {
    let mut graph = Graph::new();
    let nodes = vec![node(1, "a", None), node(2, "b", None)];
    graph.refresh_cycle(Ok(nodes), Ok(vec![])).unwrap();
    graph.node_added_in_view(100).unwrap();
    graph.node_added_in_view(200).unwrap();
    // The user draws an edge between view nodes: the store resolves the
    // endpoints, learns the connection and tells the controller.
    let src = ViewEndpoint { node: 100, port: vec![0] };
    let tgt = ViewEndpoint { node: 200, port: vec![1] };
    let cmd = graph.new_connection_created(900, &src, &tgt).unwrap();
    match cmd {
        Some(ControllerCommand::Connect(c)) => {
            assert_eq!(c.source.node, 1);
            assert_eq!(c.target.node, 2);
        },
        other => panic!("expected a connect, got {other:?}"),
    }
    // The drawn edge is recorded in the store, with its view id attached.
    assert_eq!(graph.state.connections.len(), 1);
    assert_eq!(graph.state.connections[0].view, Some(900));
    assert_eq!(graph.state.connections[0].ast.source.node, 1);
    // Drawing the same edge again is an echo: nothing is forwarded and the
    // store keeps the one entry.
    assert!(graph.new_connection_created(900, &src, &tgt).unwrap().is_none());
    assert_eq!(graph.state.connections.len(), 1);
    // An endpoint with no resolvable node is inconsistent state.
    let bad = ViewEndpoint { node: 777, port: vec![0] };
    assert_eq!(
        graph.new_connection_created(901, &bad, &tgt).unwrap_err(),
        PresenterError::Invalid
    );
    // Removing the edge hands the disconnect back; an unknown edge is not
    // found.
    let cmd = graph.connection_removed(900);
    assert!(matches!(cmd, Ok(ControllerCommand::Disconnect(_))));
    assert_eq!(graph.connection_removed(900).unwrap_err(), PresenterError::NotFound);
    // Removing a node in the view forwards the removal.
    let cmd = graph.node_removed(200);
    assert!(matches!(cmd, Ok(ControllerCommand::RemoveNode(2))));
    assert_eq!(graph.ast_node_of_view(200), None);
    assert_eq!(graph.node_removed(200).unwrap_err(), PresenterError::NotFound);
}

#[test]
fn expression_refresh_set_if_changed() {
    let mut graph = Graph::new();
    let nodes = vec![node(1, "a", None)];
    graph.refresh_cycle(Ok(nodes), Ok(vec![])).unwrap();
    graph.node_added_in_view(100).unwrap();
    // First observed type emits a view event; the same value again does not.
    let t = Some("Number".to_owned());
    let r = graph.refresh_expression_type(1, &t);
    assert_eq!(r, Some((100, 1, Some("Number".to_owned()))));
    assert_eq!(graph.refresh_expression_type(1, &t), None);
    let r = graph.refresh_expression_type(1, &None);
    assert_eq!(r, Some((100, 1, None)));
    // Method pointers behave the same way.
    let mp = Some("Main.add".to_owned());
    assert_eq!(graph.refresh_expression_method_pointer(1, &mp), Some((1, mp.clone())));
    assert_eq!(graph.refresh_expression_method_pointer(1, &mp), None);
    // Errors attach to the node owning the expression.
    let payload = Some("dataflow error".to_owned());
    assert_eq!(graph.refresh_node_error(1, &payload), Some((100, payload.clone())));
    assert_eq!(graph.refresh_node_error(1, &payload), None);
    assert_eq!(graph.expressions_of_node(100), vec![1]);
}

#[test]
fn node_fetch_failure_aborts_cycle() {
    let mut graph = Graph::new();
    graph
        .refresh_cycle(Ok(vec![node(1, "a", None)]), Ok(vec![]))
        .unwrap();
    let r = graph.refresh_cycle(Err(FetchError::Nodes), Ok(vec![]));
    assert_eq!(r.unwrap_err(), FetchError::Nodes);
    assert_eq!(graph.state.nodes.len(), 1);
}

#[test]
fn visualization_echo_suppressed() {
    let mut graph = Graph::new();
    graph
        .refresh_cycle(Ok(vec![node(1, "a", None)]), Ok(vec![]))
        .unwrap();
    graph.node_added_in_view(100).unwrap();
    // The user enables a visualization; the metadata change is forwarded.
    let path = Some("histogram".to_owned());
    let cmd = graph.node_visualization_changed(100, &path);
    assert!(matches!(
        cmd,
        Ok(ControllerCommand::SetVisualizationMetadata(1, Some(_)))
    ));
    // The controller's notification reports the same path back: no further
    // visualization command reaches the view.
    let mut n = node(1, "a", None);
    n.visualization = path;
    let plan = graph.refresh_cycle(Ok(vec![n]), Ok(vec![])).unwrap();
    assert!(plan.visualization_updates.is_empty());
    assert!(plan.commands().is_empty());
}

#[test]
fn collapse_resolves_known_views() {
    let mut graph = Graph::new();
    graph
        .refresh_cycle(Ok(vec![node(1, "a", None), node(2, "b", None)]), Ok(vec![]))
        .unwrap();
    graph.node_added_in_view(100).unwrap();
    graph.node_added_in_view(200).unwrap();
    // An unknown view id among the collapsed selection is skipped.
    let cmd = graph.nodes_collapsed(&vec![100, 999, 200]);
    match cmd {
        ControllerCommand::Collapse(ids) => assert_eq!(ids, vec![1, 2]),
        other => panic!("expected a collapse, got {other:?}"),
    }
}

#[test]
fn type_reset_and_changed_method_pointers() {
    let mut graph = Graph::new();
    let mut n = node(1, "a + b", None);
    n.subexpressions = vec![11, 12];
    graph.refresh_cycle(Ok(vec![n]), Ok(vec![])).unwrap();
    graph.node_added_in_view(100).unwrap();
    // A reset re-emits every subexpression type, changed or not.
    let types = vec![(11, Some("Number".to_owned())), (12, None)];
    let events = graph.reset_types_of_node(100, &types);
    assert_eq!(
        events,
        vec![(100, 11, Some("Number".to_owned())), (100, 12, None)]
    );
    let events = graph.reset_types_of_node(100, &types);
    assert_eq!(events.len(), 2);
    // The reset updated the caches: a targeted refresh with the same value
    // has nothing to emit.
    assert_eq!(graph.refresh_expression_type(11, &Some("Number".to_owned())), None);
    // Method pointers emit only on change.
    let pointers = vec![(11, Some("Main.plus".to_owned())), (12, None)];
    let events = graph.method_pointers_of_node(&pointers);
    assert_eq!(events, vec![(11, Some("Main.plus".to_owned()))]);
    let events = graph.method_pointers_of_node(&pointers);
    assert!(events.is_empty());
}

#[test]
fn file_drop_gated_by_flag() {
    let graph = Graph::new();
    // Enabled: the event becomes an upload request at the landing position.
    let r = graph.file_dropped("data.csv", 2048, Position { x: 5, y: -9 }, true).unwrap();
    assert_eq!(r.name, "data.csv");
    assert_eq!(r.size, 2048);
    assert_eq!(r.position, Position { x: 5, y: -9 });
    // Disabled: the drop is ignored.
    assert!(graph.file_dropped("data.csv", 2048, Position { x: 5, y: -9 }, false).is_none());
}

#[test]
fn initial_wave_covers_visualization() {
    let mut graph = Graph::new();
    let mut n = node(1, "a", Some(Position { x: 2, y: 3 }));
    n.visualization = Some("scatter".to_owned());
    graph.refresh_cycle(Ok(vec![n]), Ok(vec![])).unwrap();
    let info = graph.node_added_in_view(100).unwrap();
    let initial = info.initial_commands();
    // Exactly one command per cached attribute, in the fixed order.
    assert_eq!(initial.len(), 4);
    assert!(matches!(
        &initial[0],
        ViewCommand::SetNodeExpression(100, e) if e == "a"
    ));
    assert!(matches!(
        initial[1],
        ViewCommand::SetNodePosition(100, Position { x: 2, y: 3 })
    ));
    assert!(matches!(
        &initial[2],
        ViewCommand::SetNodeVisualization(100, Some(p)) if p == "scatter"
    ));
    assert!(matches!(initial[3], ViewCommand::EnableVisualization(100)));
}

