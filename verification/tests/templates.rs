use levelgen::{
    create_branching_template, create_cul_de_sac_template, create_ground_and_floating_template,
    create_linear_template, create_zigzag_template, merge_graphs, ConnectionType, Edge,
    LayoutDirection, NodeId, PlatformGraph, PlatformType,
};
use rand::rngs::StdRng;
use rand::{Rng, SeedableRng};

fn jump(to: usize, direction: LayoutDirection) -> Edge {
    Edge { to: NodeId(to), connection_type: ConnectionType::Jump { direction } }
}

fn roles(graph: &PlatformGraph) -> Vec<PlatformType> {
    graph.nodes.iter().map(|node| node.platform_type).collect()
}

#[test]
fn test_linear_template() {
    // Without a seed: five platforms, nothing random.
    let graph = create_linear_template(None);
    assert!(graph.validate().is_ok());
    assert_eq!(graph.nodes.len(), 5);

    // With a seed.
    for seed in [12345, 54321, 99999] {
        let graph = create_linear_template(Some(seed));
        assert!(graph.validate().is_ok(), "Graph validation failed for seed {}", seed);
        // Platform count should be between 5 and 8
        assert!(graph.nodes.len() >= 5 && graph.nodes.len() <= 8);

        // Generate layout and verify all platforms are at y >= 0
        let layouts = graph.generate_layout(seed);
        for layout in layouts.values() {
            assert!(layout.grid_y >= 0, "Platform below y=0 at grid_y={}", layout.grid_y);
        }
    }

    // Other seeds.
    let graph1 = create_linear_template(Some(111));
    let graph2 = create_linear_template(Some(222));

    let layout1 = graph1.generate_layout(111);
    let layout2 = graph2.generate_layout(222);

    // Both should have valid layouts
    assert!(layout1.len() >= 5 && layout1.len() <= 8);
    assert!(layout2.len() >= 5 && layout2.len() <= 8);
}

#[test]
fn test_branching_template() {
    let graph = create_branching_template();
    assert!(graph.validate().is_ok());
    assert_eq!(graph.nodes.len(), 7);
}

#[test]
fn test_cul_de_sac_template() {
    let graph = create_cul_de_sac_template();
    assert!(graph.validate().is_ok());
    assert_eq!(graph.nodes.len(), 6);
}

#[test]
fn test_zigzag_template() {
    let graph = create_zigzag_template();
    assert!(graph.validate().is_ok());
    assert_eq!(graph.nodes.len(), 8);
}

#[test]
fn test_ground_and_floating_template() {
    let graph = create_ground_and_floating_template();
    assert!(graph.validate().is_ok());
    assert_eq!(graph.nodes.len(), 8);
}

#[test]
fn test_merge_two_graphs() {
    let graph1 = create_linear_template(None); // 5 nodes
    let graph2 = create_linear_template(None); // 5 nodes

    let merged = merge_graphs(vec![graph1, graph2]);

    // Should have 10 nodes total (5 + 5)
    assert_eq!(merged.nodes.len(), 10);

    // Merged graph should still be valid
    assert!(merged.validate().is_ok());

    // Start should be from first graph (NodeId(0))
    assert_eq!(merged.start, NodeId(0));

    // Goal should be from second graph (NodeId(4) there, NodeId(9) here)
    assert_eq!(merged.goal, NodeId(9));

    // The connection point (old goal of graph1 and old start of graph2)
    // should both be regular platforms now
    let old_goal_node = merged.get_node(NodeId(4)).unwrap();
    assert_eq!(old_goal_node.platform_type, PlatformType::Floating);

    let old_start_node = merged.get_node(NodeId(5)).unwrap();
    assert_eq!(old_start_node.platform_type, PlatformType::Floating);
}

#[test]
fn test_merge_three_graphs() {
    let graph1 = create_linear_template(None); // 5 nodes
    let graph2 = create_linear_template(None); // 5 nodes
    let graph3 = create_linear_template(None); // 5 nodes

    let merged = merge_graphs(vec![graph1, graph2, graph3]);

    // Should have 15 nodes total (5 + 5 + 5)
    assert_eq!(merged.nodes.len(), 15);

    // Merged graph should still be valid
    assert!(merged.validate().is_ok());

    // Start should be from first graph
    assert_eq!(merged.start, NodeId(0));

    // Goal should be from third graph (NodeId(4) there, NodeId(14) here)
    assert_eq!(merged.goal, NodeId(14));
}

#[test]
fn test_merge_single_graph() {
    let graph = create_linear_template(None);
    let len_before = graph.nodes.len();

    let merged = merge_graphs(vec![graph]);

    // Should be unchanged
    assert_eq!(merged.nodes.len(), len_before);
    assert!(merged.validate().is_ok());
}

#[test]
fn unseeded_linear_template_is_straight() {
    let graph = create_linear_template(None);
    assert_eq!(graph.start, NodeId(0));
    assert_eq!(graph.goal, NodeId(4));
    assert_eq!(
        roles(&graph),
        vec![
            PlatformType::Start,
            PlatformType::Floating,
            PlatformType::Floating,
            PlatformType::Floating,
            PlatformType::Goal,
        ]
    );
    assert_eq!(graph.nodes[0].edges, vec![jump(1, LayoutDirection::Right)]);
    for i in 1..4 {
        assert_eq!(
            graph.nodes[i].edges,
            vec![jump(i - 1, LayoutDirection::Left), jump(i + 1, LayoutDirection::Right)]
        );
    }
    assert_eq!(graph.nodes[4].edges, vec![jump(3, LayoutDirection::Left)]);
}

#[test]
fn seeded_linear_template_follows_the_stream() {
    for seed in [0u64, 1, 42, 111, 12345, 54321, 99999, u64::MAX] {
        let graph = create_linear_template(Some(seed));

        let mut count_rng = StdRng::seed_from_u64(seed);
        let count: usize = count_rng.random_range(5..=8);
        assert_eq!(graph.nodes.len(), count, "count for seed {}", seed);
        assert_eq!(graph.goal, NodeId(count - 1));
        assert_eq!(graph.nodes[0].platform_type, PlatformType::Start);
        assert_eq!(graph.nodes[count - 1].platform_type, PlatformType::Goal);

        let mut rng = StdRng::seed_from_u64(seed);
        for i in 0..count - 1 {
            let forward = if rng.random_bool(0.5) {
                LayoutDirection::RightUp
            } else {
                LayoutDirection::Right
            };
            let backward = if forward == LayoutDirection::RightUp {
                LayoutDirection::LeftDown
            } else {
                LayoutDirection::Left
            };
            assert_eq!(*graph.nodes[i].edges.last().unwrap(), jump(i + 1, forward));
            assert_eq!(graph.nodes[i + 1].edges[0], jump(i, backward));
        }
    }
}

#[test]
fn linear_template_is_the_same_for_the_same_seed() {
    for seed in [7u64, 8, 9] {
        let a = create_linear_template(Some(seed));
        let b = create_linear_template(Some(seed));
        assert_eq!(a.nodes.len(), b.nodes.len());
        for i in 0..a.nodes.len() {
            assert_eq!(a.nodes[i].edges, b.nodes[i].edges);
            assert_eq!(a.nodes[i].platform_type, b.nodes[i].platform_type);
        }
    }
}

#[test]
fn branching_template_has_every_edge_both_ways() {
    let graph = create_branching_template();
    assert_eq!(graph.start, NodeId(0));
    assert_eq!(graph.goal, NodeId(6));
    assert_eq!(
        graph.nodes[0].edges,
        vec![jump(1, LayoutDirection::RightUp), jump(3, LayoutDirection::RightDown)]
    );
    assert_eq!(
        graph.nodes[5].edges,
        vec![
            jump(6, LayoutDirection::Right),
            jump(2, LayoutDirection::Left),
            jump(4, LayoutDirection::LeftDown),
        ]
    );
    for (from, node) in graph.nodes.iter().enumerate() {
        for edge in &node.edges {
            assert!(
                graph.nodes[edge.to.0].edges.iter().any(|back| back.to == NodeId(from)),
                "no edge back from {} to {}",
                edge.to.0,
                from
            );
        }
    }
}

#[test]
fn cul_de_sac_template_has_two_dead_ends() {
    let graph = create_cul_de_sac_template();
    assert_eq!(graph.goal, NodeId(4));
    assert_eq!(graph.nodes[2].edges, vec![jump(1, LayoutDirection::LeftDown)]);
    assert_eq!(graph.nodes[5].edges, vec![jump(3, LayoutDirection::LeftDown)]);
    assert!(graph.nodes[4].edges.is_empty());
    assert_eq!(
        graph.nodes[1].edges,
        vec![
            jump(3, LayoutDirection::Right),
            jump(2, LayoutDirection::RightUp),
            jump(0, LayoutDirection::Left),
        ]
    );
    // The dead ends can be reached all the same.
    let reachable = graph.reachable_from(graph.start);
    assert_eq!(reachable.len(), 6);
}

#[test]
fn zigzag_template_alternates() {
    let graph = create_zigzag_template();
    assert_eq!(graph.goal, NodeId(7));
    for i in 0..7 {
        let (forward, backward) = if i % 2 == 0 {
            (LayoutDirection::RightUp, LayoutDirection::LeftDown)
        } else {
            (LayoutDirection::RightDown, LayoutDirection::LeftUp)
        };
        assert_eq!(*graph.nodes[i].edges.last().unwrap(), jump(i + 1, forward));
        assert_eq!(graph.nodes[i + 1].edges[0], jump(i, backward));
    }
}

#[test]
fn ground_and_floating_template_mixes_roles() {
    let graph = create_ground_and_floating_template();
    assert_eq!(
        roles(&graph),
        vec![
            PlatformType::Start,
            PlatformType::Grounded,
            PlatformType::Grounded,
            PlatformType::Floating,
            PlatformType::Floating,
            PlatformType::Floating,
            PlatformType::Grounded,
            PlatformType::Goal,
        ]
    );
    assert_eq!(
        graph.nodes[2].edges,
        vec![jump(1, LayoutDirection::Left), jump(3, LayoutDirection::RightUp)]
    );
    assert_eq!(
        graph.nodes[6].edges,
        vec![jump(5, LayoutDirection::LeftUp), jump(7, LayoutDirection::Right)]
    );
}

#[test]
fn every_template_reaches_its_goal() {
    let graphs = vec![
        create_linear_template(None),
        create_linear_template(Some(3)),
        create_branching_template(),
        create_cul_de_sac_template(),
        create_zigzag_template(),
        create_ground_and_floating_template(),
    ];
    for graph in &graphs {
        assert!(graph.reachable_from(graph.start).contains(&graph.goal));
    }
    let merged = merge_graphs(graphs);
    assert!(merged.reachable_from(merged.start).contains(&merged.goal));
    assert_eq!(merged.reachable_from(merged.start).len(), merged.nodes.len());
}

#[test]
fn merge_moves_ids_and_joins_the_parts() {
    let merged = merge_graphs(vec![create_cul_de_sac_template(), create_branching_template()]);
    assert_eq!(merged.nodes.len(), 13);
    assert_eq!(merged.start, NodeId(0));
    assert_eq!(merged.goal, NodeId(12));
    // The old goal leads on to the new start, and back.
    assert_eq!(merged.nodes[4].edges, vec![jump(6, LayoutDirection::Right)]);
    assert_eq!(merged.nodes[4].platform_type, PlatformType::Floating);
    assert_eq!(
        merged.nodes[6].edges,
        vec![
            jump(7, LayoutDirection::RightUp),
            jump(9, LayoutDirection::RightDown),
            jump(4, LayoutDirection::Left),
        ]
    );
    assert_eq!(merged.nodes[6].platform_type, PlatformType::Floating);
    // Edges inside the second part follow its nodes.
    assert_eq!(
        merged.nodes[7].edges,
        vec![jump(8, LayoutDirection::Right), jump(6, LayoutDirection::LeftDown)]
    );
    assert_eq!(merged.nodes[12].platform_type, PlatformType::Goal);
    assert_eq!(merged.nodes[0].platform_type, PlatformType::Start);
}

#[test]
fn merge_counts_every_node() {
    // n graphs of k nodes: n * k nodes, goal at (n - 1) * k + local goal.
    for n in 1..5usize {
        let graphs: Vec<PlatformGraph> = (0..n).map(|_| create_zigzag_template()).collect();
        let merged = merge_graphs(graphs);
        assert_eq!(merged.nodes.len(), n * 8);
        assert_eq!(merged.goal, NodeId((n - 1) * 8 + 7));
    }
}

#[test]
fn merge_moves_edges_that_lead_nowhere_too() {
    // The second part has an edge to a platform that it lacks; merging
    // moves it like any other and leaves the chain just as ill formed.
    let mut loose = create_linear_template(None);
    loose.nodes[2].add_edge(NodeId(40), ConnectionType::Fall { direction: LayoutDirection::RightDown });
    assert!(!loose.is_well_formed());
    let merged = merge_graphs(vec![create_linear_template(None), loose]);
    assert_eq!(merged.nodes.len(), 10);
    assert_eq!(merged.goal, NodeId(9));
    assert_eq!(
        merged.nodes[7].edges,
        vec![
            jump(6, LayoutDirection::Left),
            jump(8, LayoutDirection::Right),
            Edge {
                to: NodeId(45),
                connection_type: ConnectionType::Fall { direction: LayoutDirection::RightDown },
            },
        ]
    );
    assert!(!merged.is_well_formed());

    // A single graph comes back as it is, whatever it holds.
    let alone = merge_graphs(vec![PlatformGraph::new(NodeId(3), NodeId(1))]);
    assert_eq!(alone.nodes.len(), 0);
    assert_eq!((alone.start, alone.goal), (NodeId(3), NodeId(1)));
}
