use levelgen::{
    create_branching_template, create_linear_template, create_zigzag_template, merge_graphs,
    BucketContent, CausalityChain, CausalityGenerator, CausalityNode, Cause, ConnectionType,
    Difficulty, Effect, GeneratorConfig, LayoutDirection, LevelError, NodeId, PlatformGraph,
    PlatformNode, Season, SmartTerrain,
};
use rand::rngs::StdRng;
use rand::{Rng, SeedableRng};

fn config(difficulty: Difficulty, seed: u64) -> GeneratorConfig {
    GeneratorConfig { difficulty, seed, season: Season::Summer, completed_year: false }
}

fn create_simple_graph() -> PlatformGraph {
    let mut graph = PlatformGraph::new(NodeId(0), NodeId(2));

    let node1 = PlatformNode::new();
    let node2 = PlatformNode::new();
    let node3 = PlatformNode::new();

    let id1 = graph.add_node(node1);
    let id2 = graph.add_node(node2);
    let id3 = graph.add_node(node3);

    graph
        .get_node_mut(id1)
        .unwrap()
        .add_edge(id2, ConnectionType::Jump { direction: LayoutDirection::Right });
    graph
        .get_node_mut(id2)
        .unwrap()
        .add_edge(id3, ConnectionType::Jump { direction: LayoutDirection::Right });

    graph
}

#[test]
fn test_generate_simple_chain() {
    let graph = create_simple_graph();
    let config = GeneratorConfig {
        difficulty: Difficulty::Easy,
        seed: 42,
        season: Season::Summer,
        completed_year: false,
    };

    let mut generator = CausalityGenerator::new(config);
    let chain = generator.generate_chain(&graph);

    assert!(chain.is_ok());
    let chain = chain.unwrap();
    assert!(chain.validate().is_ok());
    println!("Generated chain with {} nodes", chain.nodes.len());
}

#[test]
fn test_apply_chain_to_graph() {
    let mut graph = create_simple_graph();
    let config = GeneratorConfig {
        difficulty: Difficulty::Easy,
        seed: 42,
        season: Season::Summer,
        completed_year: false,
    };

    let mut generator = CausalityGenerator::new(config);
    let chain = generator.generate_chain(&graph).unwrap();

    let result = generator.apply_chain_to_graph(&chain, &mut graph);
    assert!(result.is_ok());

    // Check that terrain was placed
    let has_terrain = graph.nodes.iter().any(|n| !n.terrain_objects.is_empty());
    assert!(has_terrain, "No terrain objects were placed");
}

#[test]
fn test_example_generates() {
    // Every stage in turn on the unseeded linear shape.
    let mut graph = create_linear_template(None);
    assert!(graph.validate().is_ok());
    let mut generator = CausalityGenerator::new(config(Difficulty::Easy, 42));
    let chain = generator.generate_chain(&graph).unwrap();
    assert!(chain.validate().is_ok());
    for (i, node) in chain.forward_order().iter().enumerate() {
        println!("  {}. {:?} at {:?}", i + 1, node.effect, node.location);
    }
    assert!(generator.apply_chain_to_graph(&chain, &mut graph).is_ok());
    let layouts = graph.generate_layout(42);
    assert_eq!(layouts.len(), graph.nodes.len());
}

#[test]
fn difficulty_tables() {
    assert_eq!(Difficulty::Easy.chain_length_range(), (2, 4));
    assert_eq!(Difficulty::Medium.chain_length_range(), (4, 7));
    assert_eq!(Difficulty::Hard.chain_length_range(), (7, 12));
    assert_eq!(Difficulty::Easy.max_fires(), 1);
    assert_eq!(Difficulty::Medium.max_fires(), 2);
    assert_eq!(Difficulty::Hard.max_fires(), 4);
}

#[test]
fn seasons_follow_each_other() {
    assert_eq!(Season::Summer.next(), Season::Autumn);
    assert_eq!(Season::Autumn.next(), Season::Winter);
    assert_eq!(Season::Winter.next(), Season::Spring);
    assert_eq!(Season::Spring.next(), Season::Summer);
    assert_eq!(Season::default(), Season::Summer);
}

/// The chain as the stream of draws dictates it, drawn here directly.
fn expected_chain(graph: &PlatformGraph, difficulty: Difficulty, seed: u64) -> Vec<(Effect, SmartTerrain, NodeId)> {
    let mut rng = StdRng::seed_from_u64(seed);
    let sites: Vec<NodeId> =
        graph.reachable_from(graph.start).into_iter().filter(|&n| n != graph.goal).collect();
    let goal = graph.goal;
    let container = SmartTerrain::GoalContainer { fill_count: 0, target: 2 };
    let mut steps = vec![(Effect::ContainerFilled(1), container, goal)];
    for round in 0..2 {
        let use_fire = rng.random_bool(0.3);
        if use_fire && difficulty != Difficulty::Easy {
            let snow = sites[rng.random_range(0..sites.len())];
            let mut fire = sites[rng.random_range(0..sites.len())];
            while fire == snow {
                fire = sites[rng.random_range(0..sites.len())];
            }
            steps.push((Effect::SnowBucket, SmartTerrain::SnowSource, snow));
            steps.push((
                Effect::WaterBucket,
                SmartTerrain::SnowMeltFire { extinguished: false },
                fire,
            ));
        } else {
            let site = sites[rng.random_range(0..sites.len())];
            steps.push((Effect::WaterBucket, SmartTerrain::WaterSource, site));
        }
        if round == 0 {
            steps.push((Effect::ContainerFilled(0), container, goal));
        }
    }
    steps
}

fn summary(chain: &CausalityChain) -> Vec<(Effect, SmartTerrain, NodeId)> {
    chain.nodes.iter().map(|n| (n.effect, n.terrain, n.location)).collect()
}

#[test]
fn chain_follows_the_stream_of_draws() {
    let graphs = vec![
        create_linear_template(Some(5)),
        create_branching_template(),
        merge_graphs(vec![create_zigzag_template(), create_branching_template()]),
    ];
    let mut fires = 0;
    for graph in &graphs {
        for difficulty in [Difficulty::Easy, Difficulty::Medium, Difficulty::Hard] {
            for seed in 0..40u64 {
                let mut generator = CausalityGenerator::new(config(difficulty, seed));
                let chain = generator.generate_chain(graph).unwrap();
                assert_eq!(
                    summary(&chain),
                    expected_chain(graph, difficulty, seed),
                    "seed {} at {:?}",
                    seed,
                    difficulty
                );
                assert!(chain.validate().is_ok());
                assert_eq!(chain.goal, Effect::ContainerFilled(1));
                fires += chain
                    .nodes
                    .iter()
                    .filter(|n| matches!(n.terrain, SmartTerrain::SnowMeltFire { .. }))
                    .count();
            }
        }
    }
    // The fire mechanic does come up.
    assert!(fires > 0);
}

#[test]
fn easy_chains_hold_no_fire() {
    let graph = create_linear_template(None);
    for seed in 0..200u64 {
        let mut generator = CausalityGenerator::new(config(Difficulty::Easy, seed));
        let chain = generator.generate_chain(&graph).unwrap();
        assert_eq!(chain.nodes.len(), 4);
        assert!(chain
            .nodes
            .iter()
            .all(|n| !matches!(n.terrain, SmartTerrain::SnowMeltFire { .. })));
    }
}

#[test]
fn fire_never_stands_where_the_snow_is() {
    let graph = create_linear_template(None);
    for seed in 0..300u64 {
        let mut generator = CausalityGenerator::new(config(Difficulty::Hard, seed));
        let chain = generator.generate_chain(&graph).unwrap();
        for i in 0..chain.nodes.len() {
            if matches!(chain.nodes[i].terrain, SmartTerrain::SnowMeltFire { .. }) {
                assert_eq!(chain.nodes[i - 1].terrain, SmartTerrain::SnowSource);
                assert!(chain.nodes[i - 1].location != chain.nodes[i].location);
                assert_eq!(
                    chain.nodes[i].cause,
                    Cause::BucketAt {
                        content: BucketContent::Snow,
                        location: chain.nodes[i].location,
                    }
                );
            }
            assert!(chain.nodes[i].location.0 < graph.nodes.len());
        }
    }
}

#[test]
fn chain_is_the_same_for_the_same_config() {
    let graph = create_branching_template();
    for seed in [1u64, 2, 3] {
        let a = CausalityGenerator::new(config(Difficulty::Hard, seed)).generate_chain(&graph);
        let b = CausalityGenerator::new(config(Difficulty::Hard, seed)).generate_chain(&graph);
        assert_eq!(summary(&a.unwrap()), summary(&b.unwrap()));
    }
}

#[test]
fn no_site_fails_generation() {
    // The start is the goal: no platform is left for the water.
    let mut graph = PlatformGraph::new(NodeId(0), NodeId(0));
    graph.add_node(PlatformNode::new());
    let mut generator = CausalityGenerator::new(config(Difficulty::Easy, 1));
    assert_eq!(
        generator.generate_chain(&graph).err(),
        Some(LevelError::InsufficientSites { needed: 1, available: 0 })
    );
}

#[test]
fn one_site_is_too_few_for_fire() {
    // Start and goal only: one site.
    let mut graph = PlatformGraph::new(NodeId(0), NodeId(1));
    graph.add_node(PlatformNode::new());
    graph.add_node(PlatformNode::new());
    graph.nodes[0].add_edge(NodeId(1), ConnectionType::Jump { direction: LayoutDirection::Right });
    let mut failed = 0;
    for seed in 0..100u64 {
        let mut generator = CausalityGenerator::new(config(Difficulty::Hard, seed));
        match generator.generate_chain(&graph) {
            Ok(chain) => {
                assert!(chain.nodes.iter().all(|n| n.location.0 <= 1));
            }
            Err(error) => {
                assert_eq!(error, LevelError::InsufficientSites { needed: 2, available: 1 });
                failed += 1;
            }
        }
        // On easy difficulty the one site is always enough.
        let mut easy = CausalityGenerator::new(config(Difficulty::Easy, seed));
        assert!(easy.generate_chain(&graph).is_ok());
    }
    assert!(failed > 0);
}

#[test]
fn linear_level_holds_one_goal_container() {
    let mut graph = create_linear_template(Some(42));
    let mut generator = CausalityGenerator::new(config(Difficulty::Easy, 42));
    let chain = generator.generate_chain(&graph).unwrap();
    assert!(chain.validate().is_ok());
    assert!(generator.apply_chain_to_graph(&chain, &mut graph).is_ok());
    let goal = graph.goal;
    let containers = graph.nodes[goal.0]
        .terrain_objects
        .iter()
        .filter(|t| matches!(t, SmartTerrain::GoalContainer { .. }))
        .count();
    assert_eq!(containers, 1);
    for (i, node) in graph.nodes.iter().enumerate() {
        if i != goal.0 {
            assert!(node
                .terrain_objects
                .iter()
                .all(|t| !matches!(t, SmartTerrain::GoalContainer { .. })));
        }
    }
}

#[test]
fn water_platforms_are_wide_after_application() {
    for seed in 0..50u64 {
        let mut graph = create_branching_template();
        let mut generator = CausalityGenerator::new(config(Difficulty::Medium, seed));
        let chain = generator.generate_chain(&graph).unwrap();
        generator.apply_chain_to_graph(&chain, &mut graph).unwrap();
        let mut wet = 0;
        for node in &graph.nodes {
            if node.terrain_objects.contains(&SmartTerrain::WaterSource) {
                assert!(node.calculate_width() >= 9 * 32);
                assert!(node.calculate_height() >= 2);
                wet += 1;
            }
        }
        let sources = chain
            .nodes
            .iter()
            .any(|n| n.terrain == SmartTerrain::WaterSource);
        assert_eq!(wet > 0, sources);
    }
}

#[test]
fn application_keeps_stored_order_and_skips_second_container() {
    let mut graph = create_simple_graph();
    graph.nodes[1].add_terrain(SmartTerrain::Switch { activated: false, activates: NodeId(0) });
    let place = |terrain: SmartTerrain, location: usize| CausalityNode {
        effect: Effect::WaterBucket,
        cause: Cause::Player,
        terrain,
        location: NodeId(location),
    };
    let mut chain = CausalityChain::new(Effect::WaterBucket);
    chain.add_node(place(SmartTerrain::GoalContainer { fill_count: 0, target: 2 }, 1));
    chain.add_node(place(SmartTerrain::WaterSource, 0));
    chain.add_node(place(SmartTerrain::GoalContainer { fill_count: 1, target: 3 }, 1));
    chain.add_node(place(SmartTerrain::SnowSource, 1));
    let generator = CausalityGenerator::new(config(Difficulty::Easy, 0));
    assert_eq!(generator.apply_chain_to_graph(&chain, &mut graph), Ok(()));
    assert_eq!(graph.nodes[0].terrain_objects, vec![SmartTerrain::WaterSource]);
    assert_eq!(
        graph.nodes[1].terrain_objects,
        vec![
            SmartTerrain::Switch { activated: false, activates: NodeId(0) },
            SmartTerrain::GoalContainer { fill_count: 0, target: 2 },
            SmartTerrain::SnowSource,
        ]
    );
    assert!(graph.nodes[2].terrain_objects.is_empty());
    // Edges and roles stay as they were.
    assert_eq!(graph.nodes[0].edges.len(), 1);
    assert_eq!(graph.start, NodeId(0));
    assert_eq!(graph.goal, NodeId(2));
}

#[test]
fn missing_node_fails_application_and_changes_nothing() {
    let mut graph = create_simple_graph();
    let place = |terrain: SmartTerrain, location: usize| CausalityNode {
        effect: Effect::WaterBucket,
        cause: Cause::Player,
        terrain,
        location: NodeId(location),
    };
    let mut chain = CausalityChain::new(Effect::WaterBucket);
    chain.add_node(place(SmartTerrain::WaterSource, 0));
    chain.add_node(place(SmartTerrain::SnowSource, 9));
    chain.add_node(place(SmartTerrain::SnowSource, 5));
    let generator = CausalityGenerator::new(config(Difficulty::Easy, 0));
    assert_eq!(
        generator.apply_chain_to_graph(&chain, &mut graph),
        Err(LevelError::MissingNode { id: NodeId(9) })
    );
    assert!(graph.nodes.iter().all(|n| n.terrain_objects.is_empty()));
}
