use levelgen::{
    ConnectionType, Edge, LayoutDirection, LevelError, NodeId, PlatformGraph, PlatformNode,
    PlatformType, SmartTerrain, TILE_SIZE,
};

fn jump(direction: LayoutDirection) -> ConnectionType {
    ConnectionType::Jump { direction }
}

#[test]
fn test_simple_graph() {
    let mut graph = PlatformGraph::new(NodeId(0), NodeId(2));

    let node1 = PlatformNode::new();
    let node2 = PlatformNode::new();
    let node3 = PlatformNode::new();

    let id1 = graph.add_node(node1);
    let id2 = graph.add_node(node2);
    let id3 = graph.add_node(node3);

    graph.get_node_mut(id1).unwrap().add_edge(id2, jump(LayoutDirection::Right));
    graph.get_node_mut(id2).unwrap().add_edge(id3, jump(LayoutDirection::Right));

    assert!(graph.validate().is_ok());
}

#[test]
fn test_unreachable_goal() {
    let mut graph = PlatformGraph::new(NodeId(0), NodeId(1));

    // Two nodes and no edge between them.
    let node1 = PlatformNode::new();
    let node2 = PlatformNode::new();

    graph.add_node(node1);
    graph.add_node(node2);

    assert!(graph.validate().is_err());
}

#[test]
fn unreachable_goal_is_named() {
    let mut graph = PlatformGraph::new(NodeId(0), NodeId(1));
    graph.add_node(PlatformNode::new());
    graph.add_node(PlatformNode::new());
    assert_eq!(graph.validate(), Err(LevelError::UnreachableGoal { goal: NodeId(1) }));
}

#[test]
fn goal_out_of_range_is_unreachable() {
    let mut graph = PlatformGraph::new(NodeId(0), NodeId(7));
    graph.add_node(PlatformNode::new());
    assert_eq!(graph.validate(), Err(LevelError::UnreachableGoal { goal: NodeId(7) }));
}

#[test]
fn start_that_is_goal_validates() {
    let mut graph = PlatformGraph::new(NodeId(0), NodeId(0));
    graph.add_node(PlatformNode::new());
    assert!(graph.validate().is_ok());
}

#[test]
fn add_node_returns_consecutive_ids() {
    let mut graph = PlatformGraph::new(NodeId(0), NodeId(0));
    assert_eq!(graph.add_node(PlatformNode::new()), NodeId(0));
    assert_eq!(graph.add_node(PlatformNode::new()), NodeId(1));
    assert_eq!(graph.nodes.len(), 2);
}

#[test]
fn get_node_fails_out_of_range() {
    let mut graph = PlatformGraph::new(NodeId(0), NodeId(0));
    graph.add_node(PlatformNode::with_type(PlatformType::Grounded));
    assert_eq!(graph.get_node(NodeId(0)).unwrap().platform_type, PlatformType::Grounded);
    assert!(graph.get_node(NodeId(1)).is_none());
    assert!(graph.get_node_mut(NodeId(1)).is_none());
    graph.get_node_mut(NodeId(0)).unwrap().platform_type = PlatformType::Goal;
    assert_eq!(graph.nodes[0].platform_type, PlatformType::Goal);
}

#[test]
fn add_edge_and_terrain_append() {
    let mut node = PlatformNode::new();
    node.add_edge(NodeId(3), jump(LayoutDirection::LeftUp));
    node.add_edge(NodeId(1), ConnectionType::Fall { direction: LayoutDirection::LeftDown });
    node.add_terrain(SmartTerrain::SnowSource);
    node.add_terrain(SmartTerrain::WaterSource);
    assert_eq!(
        node.edges,
        vec![
            Edge { to: NodeId(3), connection_type: jump(LayoutDirection::LeftUp) },
            Edge {
                to: NodeId(1),
                connection_type: ConnectionType::Fall { direction: LayoutDirection::LeftDown },
            },
        ]
    );
    assert_eq!(node.terrain_objects, vec![SmartTerrain::SnowSource, SmartTerrain::WaterSource]);
    assert!(node.has_water_source());
    assert!(!node.has_goal_container());
}

#[test]
fn direction_of_every_connection_type() {
    assert_eq!(jump(LayoutDirection::RightUp).direction(), LayoutDirection::RightUp);
    assert_eq!(
        ConnectionType::Fall { direction: LayoutDirection::RightDown }.direction(),
        LayoutDirection::RightDown
    );
    assert_eq!(
        ConnectionType::MovingPlatform {
            platform_entity: Some(17),
            required: true,
            direction: LayoutDirection::Left,
        }
        .direction(),
        LayoutDirection::Left
    );
    assert_eq!(LayoutDirection::default(), LayoutDirection::Right);
    assert_eq!(PlatformType::default(), PlatformType::Floating);
}

#[test]
fn footprint_follows_role_and_water() {
    let plain = PlatformNode::new();
    assert_eq!(plain.calculate_width(), 4 * TILE_SIZE);
    assert_eq!(plain.calculate_height(), 1);

    let grounded = PlatformNode::with_type(PlatformType::Grounded);
    assert_eq!(grounded.calculate_width(), 128);
    assert_eq!(grounded.calculate_height(), 1);

    let start = PlatformNode::with_type(PlatformType::Start);
    assert_eq!(start.calculate_width(), 288);
    assert_eq!(start.calculate_height(), 2);

    let goal = PlatformNode::with_type(PlatformType::Goal);
    assert_eq!(goal.calculate_width(), 9 * TILE_SIZE);
    assert_eq!(goal.calculate_height(), 2);

    let mut wet = PlatformNode::new();
    wet.add_terrain(SmartTerrain::SnowMeltFire { extinguished: false });
    assert_eq!(wet.calculate_width(), 128);
    wet.add_terrain(SmartTerrain::WaterSource);
    assert_eq!(wet.calculate_width(), 288);
    assert_eq!(wet.calculate_height(), 2);
}

#[test]
fn reachable_from_walks_depth_first() {
    // 0 -> 1, 0 -> 2, 2 -> 3, 3 -> 0; node 4 stands apart.
    let mut graph = PlatformGraph::new(NodeId(0), NodeId(3));
    for _ in 0..5 {
        graph.add_node(PlatformNode::new());
    }
    graph.nodes[0].add_edge(NodeId(1), jump(LayoutDirection::Right));
    graph.nodes[0].add_edge(NodeId(2), jump(LayoutDirection::Right));
    graph.nodes[2].add_edge(NodeId(3), jump(LayoutDirection::Right));
    graph.nodes[3].add_edge(NodeId(0), jump(LayoutDirection::Left));

    // The edge pushed last is followed first.
    assert_eq!(
        graph.reachable_from(NodeId(0)),
        vec![NodeId(0), NodeId(2), NodeId(3), NodeId(1)]
    );
    assert_eq!(graph.reachable_from(NodeId(1)), vec![NodeId(1)]);
    assert_eq!(graph.reachable_from(NodeId(4)), vec![NodeId(4)]);
    assert_eq!(
        graph.reachable_from(NodeId(3)),
        vec![NodeId(3), NodeId(0), NodeId(2), NodeId(1)]
    );
}

#[test]
fn reachable_from_lists_nothing_twice() {
    // Two edges to the same node, and a loop on itself.
    let mut graph = PlatformGraph::new(NodeId(0), NodeId(1));
    graph.add_node(PlatformNode::new());
    graph.add_node(PlatformNode::new());
    graph.nodes[0].add_edge(NodeId(1), jump(LayoutDirection::Right));
    graph.nodes[0].add_edge(NodeId(1), jump(LayoutDirection::RightUp));
    graph.nodes[0].add_edge(NodeId(0), jump(LayoutDirection::Left));
    graph.nodes[1].add_edge(NodeId(0), jump(LayoutDirection::Left));
    assert_eq!(graph.reachable_from(NodeId(0)), vec![NodeId(0), NodeId(1)]);
}

#[test]
fn well_formed_graphs_mention_only_their_own_nodes() {
    let mut graph = PlatformGraph::new(NodeId(0), NodeId(1));
    // Without nodes, start and goal name nothing.
    assert!(!graph.is_well_formed());
    graph.add_node(PlatformNode::new());
    assert!(!graph.is_well_formed());
    graph.add_node(PlatformNode::new());
    assert!(graph.is_well_formed());

    graph.nodes[0].add_edge(NodeId(1), jump(LayoutDirection::Right));
    graph.nodes[1].add_edge(NodeId(0), jump(LayoutDirection::Left));
    assert!(graph.is_well_formed());

    // An edge that leads nowhere spoils it, wherever it stands.
    graph.nodes[1].add_edge(NodeId(2), jump(LayoutDirection::Right));
    assert!(!graph.is_well_formed());
    graph.add_node(PlatformNode::new());
    assert!(graph.is_well_formed());

    graph.goal = NodeId(3);
    assert!(!graph.is_well_formed());
}
