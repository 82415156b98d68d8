use levelgen::{
    attempt_seed, create_ground_and_floating_template, create_linear_template,
    create_zigzag_template, difficulty_for, fallback_level, generate_level, level_seed,
    select_graph, update_player_spawn_point, CausalityGenerator, Difficulty, Edge,
    GeneratorConfig, PlatformGraph, PlatformLayout, PlatformType, PlayerSpawnPoint, Season,
    SmartTerrain,
};
use rand::rngs::StdRng;
use rand::{Rng, SeedableRng};
use std::collections::HashMap;

fn config(difficulty: Difficulty, seed: u64) -> GeneratorConfig {
    GeneratorConfig { difficulty, seed, season: Season::Autumn, completed_year: false }
}

fn shape(graph: &PlatformGraph) -> Vec<(PlatformType, Vec<Edge>, Vec<SmartTerrain>)> {
    graph
        .nodes
        .iter()
        .map(|n| (n.platform_type, n.edges.clone(), n.terrain_objects.clone()))
        .collect()
}

#[test]
fn difficulty_rises_through_the_year() {
    assert_eq!(difficulty_for(Season::Summer, false), Difficulty::Easy);
    assert_eq!(difficulty_for(Season::Autumn, false), Difficulty::Medium);
    assert_eq!(difficulty_for(Season::Winter, false), Difficulty::Medium);
    assert_eq!(difficulty_for(Season::Spring, false), Difficulty::Hard);
    for season in [Season::Summer, Season::Autumn, Season::Winter, Season::Spring] {
        assert_eq!(difficulty_for(season, true), Difficulty::Hard);
    }
}

#[test]
fn seeds_of_levels_and_attempts() {
    assert_eq!(level_seed(Season::Summer, 1), 1);
    assert_eq!(level_seed(Season::Autumn, 7), 1007);
    assert_eq!(level_seed(Season::Winter, 0), 2000);
    assert_eq!(level_seed(Season::Spring, 255), 3255);
    assert_eq!(attempt_seed(1007, 0), 1007);
    assert_eq!(attempt_seed(1007, 3), 31007);
    assert_eq!(attempt_seed(u64::MAX, 1), 9999);
    assert_eq!(attempt_seed(5, u32::MAX), 5 + (u32::MAX as u64) * 10000);
}

#[test]
fn first_level_is_linear() {
    for seed in [1u64, 2, 3] {
        let graph = select_graph(Difficulty::Easy, seed, true);
        assert_eq!(shape(&graph), shape(&create_linear_template(Some(seed))));
    }
}

#[test]
fn easy_levels_are_drawn_from_three_shapes() {
    let mut seen = [false; 3];
    for seed in 0..60u64 {
        let graph = select_graph(Difficulty::Easy, seed, false);
        let choice: usize = StdRng::seed_from_u64(seed).random_range(0..3);
        let expected = match choice {
            0 => create_linear_template(Some(seed)),
            1 => create_zigzag_template(),
            _ => create_ground_and_floating_template(),
        };
        assert_eq!(shape(&graph), shape(&expected));
        seen[choice] = true;
    }
    assert_eq!(seen, [true; 3]);
}

#[test]
fn harder_levels_chain_shapes() {
    for seed in 0..40u64 {
        let medium = select_graph(Difficulty::Medium, seed, false);
        let hard = select_graph(Difficulty::Hard, seed, false);
        assert!(medium.nodes.len() >= 10 && medium.nodes.len() <= 16);
        assert!(hard.nodes.len() >= 15 && hard.nodes.len() <= 24);
        for graph in [&medium, &hard] {
            assert!(graph.validate().is_ok());
            let starts =
                graph.nodes.iter().filter(|n| n.platform_type == PlatformType::Start).count();
            let goals =
                graph.nodes.iter().filter(|n| n.platform_type == PlatformType::Goal).count();
            assert_eq!((starts, goals), (1, 1));
            assert_eq!(graph.nodes[graph.start.0].platform_type, PlatformType::Start);
            assert_eq!(graph.nodes[graph.goal.0].platform_type, PlatformType::Goal);
        }
        // The first part of a hard level is the first part of the medium one.
        let mut rng = StdRng::seed_from_u64(seed);
        let first: usize = rng.random_range(0..5);
        if first == 0 {
            let part = create_linear_template(Some(seed.wrapping_add(1)));
            assert_eq!(medium.nodes[1].edges, part.nodes[1].edges);
            assert_eq!(hard.nodes[1].edges, part.nodes[1].edges);
        }
    }
}

#[test]
fn generated_level_is_whole() {
    for difficulty in [Difficulty::Easy, Difficulty::Medium, Difficulty::Hard] {
        for seed in 0..40u64 {
            let level = generate_level(config(difficulty, seed), false).unwrap();
            let graph = &level.graph;
            assert!(graph.validate().is_ok());
            assert_eq!(level.layouts.len(), graph.nodes.len());
            assert!(level.layouts.values().all(|l| l.grid_y >= 0));
            let containers: usize = graph
                .nodes
                .iter()
                .map(|n| {
                    n.terrain_objects
                        .iter()
                        .filter(|t| matches!(t, SmartTerrain::GoalContainer { .. }))
                        .count()
                })
                .sum();
            assert_eq!(containers, 1);
            assert!(graph.nodes[graph.goal.0].has_goal_container());
            let start = level.layouts[&graph.start.0];
            assert_eq!((level.spawn_point.x, level.spawn_point.y), (256, 192));
            assert_eq!((start.grid_x, start.grid_y, start.height_tiles), (2, 0, 2));
        }
    }
}

#[test]
fn generated_level_is_made_of_its_stages() {
    for seed in [11u64, 12, 13] {
        let settings = config(Difficulty::Medium, seed);
        let level = generate_level(settings, false).unwrap();

        let mut graph = select_graph(Difficulty::Medium, seed, false);
        let mut generator = CausalityGenerator::new(settings);
        let chain = generator.generate_chain(&graph).unwrap();
        assert!(chain.validate().is_ok());
        generator.apply_chain_to_graph(&chain, &mut graph).unwrap();
        assert_eq!(shape(&level.graph), shape(&graph));
        assert_eq!(level.layouts, graph.generate_layout(seed));
    }
}

#[test]
fn generation_is_deterministic() {
    for difficulty in [Difficulty::Easy, Difficulty::Hard] {
        for seed in [0u64, 99, 4242] {
            let a = generate_level(config(difficulty, seed), false).unwrap();
            let b = generate_level(config(difficulty, seed), false).unwrap();
            assert_eq!(shape(&a.graph), shape(&b.graph));
            assert_eq!(a.graph.start, b.graph.start);
            assert_eq!(a.graph.goal, b.graph.goal);
            assert_eq!(a.layouts, b.layouts);
            assert_eq!(a.spawn_point, b.spawn_point);
        }
    }
}

#[test]
fn fallback_is_the_bare_linear_shape() {
    let level = fallback_level(1001);
    assert_eq!(shape(&level.graph), shape(&create_linear_template(Some(1001))));
    assert!(level.graph.nodes.iter().all(|n| n.terrain_objects.is_empty()));
    assert_eq!(level.layouts, level.graph.generate_layout(1001));
    assert_eq!(level.spawn_point, PlayerSpawnPoint { x: 256, y: 192, z: 0 });
}

#[test]
fn spawn_point_follows_the_start_platform() {
    let graph = create_linear_template(None);
    let mut layouts = HashMap::new();
    let mut spawn = PlayerSpawnPoint::default();
    assert_eq!(spawn, PlayerSpawnPoint { x: 160, y: 128, z: 0 });

    // No place for the start: the spawn point stays.
    layouts.insert(3, PlatformLayout { grid_x: 9, grid_y: 9, width_tiles: 4, height_tiles: 1 });
    update_player_spawn_point(&graph, &layouts, &mut spawn);
    assert_eq!(spawn, PlayerSpawnPoint { x: 160, y: 128, z: 0 });

    layouts.insert(0, PlatformLayout { grid_x: -3, grid_y: 5, width_tiles: 9, height_tiles: 2 });
    update_player_spawn_point(&graph, &layouts, &mut spawn);
    assert_eq!(spawn, PlayerSpawnPoint { x: 96, y: 352, z: 0 });
}
