//! The placement heuristic and the notification dispatcher.

use graph_presenter::default_node_position;
use graph_presenter::dispatch::Notification;
use graph_presenter::dispatch::TriggerQueue;
use graph_presenter::ids::Position;
use graph_presenter::placement::plan_default_positions;
use graph_presenter::snapshot::NodeSnapshot;

fn node(id: u64, position: Option<Position>) -> NodeSnapshot {
    NodeSnapshot {
        id,
        expression: String::new(),
        subexpressions: vec![],
        position,
        visualization: None,
    }
}

#[test]
fn stacking_below_bottommost() {
    // Two positioned nodes at y = 200 and y = 50, gap 10, node height 40:
    // three unplaced nodes get y = 0, -50 and -100, one gap-plus-height step
    // per node below the bottommost.
    let nodes = vec![
        node(1, Some(Position { x: 100, y: 200 })),
        node(2, Some(Position { x: 25, y: 50 })),
        node(3, None),
        node(4, None),
        node(5, None),
    ];
    let placed = plan_default_positions(&nodes, 10, 40);
    assert_eq!(
        placed,
        vec![
            (3, Position { x: 25, y: 0 }),
            (4, Position { x: 25, y: -50 }),
            (5, Position { x: 25, y: -100 }),
        ]
    );
}

#[test]
fn fallback_to_default_position() {
    // With no positioned node the default node position is the base.
    let base = default_node_position();
    assert_eq!(base, Position { x: -100, y: 200 });
    let nodes = vec![node(1, None), node(2, None)];
    let placed = plan_default_positions(&nodes, 10, 40);
    assert_eq!(
        placed,
        vec![(1, Position { x: -100, y: 150 }), (2, Position { x: -100, y: 100 })]
    );
}

#[test]
fn bottommost_tie_keeps_first() {
    // Among positioned nodes sharing the bottommost y, the first in snapshot
    // order provides the base.
    let nodes = vec![
        node(1, Some(Position { x: 3, y: 50 })),
        node(2, Some(Position { x: 9, y: 50 })),
        node(3, None),
    ];
    let placed = plan_default_positions(&nodes, 10, 40);
    assert_eq!(placed, vec![(3, Position { x: 3, y: 0 })]);
}

#[test]
fn positioned_nodes_get_nothing() {
    let nodes = vec![node(1, Some(Position { x: 0, y: 0 }))];
    assert!(plan_default_positions(&nodes, 10, 40).is_empty());
}

#[test]
fn coarse_triggers_coalesce() {
    let mut queue = TriggerQueue::new();
    assert!(!queue.take_full_refresh());
    queue.push(&Notification::Invalidate);
    queue.push(&Notification::PortsUpdate);
    queue.push(&Notification::EnteredNode(4));
    queue.push(&Notification::SteppedOutOfNode(4));
    // Any number of pending full refreshes collapse into a single one.
    assert!(queue.take_full_refresh());
    assert!(!queue.take_full_refresh());
}

#[test]
fn targeted_triggers_accumulate() {
    let mut queue = TriggerQueue::new();
    queue.push(&Notification::ComputedValueInfo(vec![1, 2]));
    queue.push(&Notification::ComputedValueInfo(vec![3]));
    // Targeted triggers accumulate their affected-id sets and do not ask for
    // a full refresh.
    assert!(!queue.take_full_refresh());
    assert_eq!(queue.take_expressions(), vec![1, 2, 3]);
    assert_eq!(queue.take_expressions(), Vec::<u64>::new());
}
