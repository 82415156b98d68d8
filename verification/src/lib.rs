//! Procedural level generation for a 2D puzzle-platformer: platform
//! topologies that are solvable by construction, and their placement on a
//! tile grid under the player's jump limits.
//!
//! A level is made in stages, each a function of its arguments alone:
//! a topology is selected or merged from the [`templates`]; the
//! [`generator`] builds a chain of puzzle steps backwards from the goal
//! and sets its terrain on the topology; the [`layout`] gives every
//! platform that can be reached a place on the grid. [`level`] runs the
//! stages once; retrying with another seed is left to the caller.

pub mod causality;
pub mod error;
pub mod generator;
pub mod graph;
pub mod layout;
pub mod level;
pub mod merge;
pub mod reach;
pub mod rng;
pub mod templates;

pub use causality::{BucketContent, CausalityChain, CausalityNode, Cause, Effect};
pub use error::LevelError;
pub use generator::{CausalityGenerator, Difficulty, GeneratorConfig, Season};
pub use graph::{
    ConnectionType, Edge, LayoutDirection, NodeId, PlatformGraph, PlatformNode, PlatformType,
    SmartTerrain, GROUND_LEVEL, TILE_SIZE, WALL_HEIGHT,
};
pub use layout::PlatformLayout;
pub use level::{
    attempt_seed, difficulty_for, fallback_level, generate_level, level_seed, select_graph,
    update_player_spawn_point, GeneratedLevel, PlayerSpawnPoint,
};
pub use merge::merge_graphs;
pub use templates::{
    create_branching_template, create_cul_de_sac_template, create_ground_and_floating_template,
    create_linear_template, create_zigzag_template,
};
