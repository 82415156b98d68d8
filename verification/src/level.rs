//! One attempt at a whole level: a topology for the difficulty, its puzzle,
//! and its layout. Retrying with another seed is left to the caller, who
//! is given the seed of each attempt and the level to fall back on.

use crate::error::LevelError;
use crate::generator::{
    applied, built_chain, lemma_applied_keeps_edges, lemma_chain_never_fails,
    lemma_nothing_missing, lemma_sites, lemma_two_sites, sites, CausalityGenerator, Difficulty,
    GeneratorConfig, Season,
};
use crate::graph::{GraphView, PlatformGraph, TILE_SIZE};
use crate::layout::{PlatformLayout, MAX_LAYOUT_NODES};
use crate::merge::{
    lemma_merge_all, lemma_well_formed_graphs_merge, merge_all, merge_graphs, total_nodes, views_of,
};
use crate::rng::{RngTrace, SeededRng};
use crate::templates::{
    branching_template, create_branching_template, create_cul_de_sac_template,
    create_ground_and_floating_template, create_linear_template, create_zigzag_template,
    cul_de_sac_template, ground_and_floating_template, linear_template, starts_with_two_sites,
    zigzag_template,
};
use std::collections::HashMap;
use vstd::prelude::*;

verus! {

broadcast use vstd::std_specs::hash::group_hash_axioms;

/// How far the seed moves from one attempt to the next.
pub const ATTEMPT_SEED_STEP: u64 = 10000;

/// How many shapes an easy level is drawn from.
pub const EASY_POOL: usize = 3;

/// How many shapes the parts of a harder level are drawn from.
pub const FULL_POOL: usize = 5;

/// Where the player enters the level, in world units.
#[derive(Debug, Clone, Copy, PartialEq, Eq, Structural)]
pub struct PlayerSpawnPoint {
    pub x: i64,
    pub y: i64,
    pub z: i64,
}

impl Default for PlayerSpawnPoint {
    fn default() -> (point: Self)
        ensures
            point.x == 5 * TILE_SIZE,
            point.y == 4 * TILE_SIZE,
            point.z == 0,
    {
        PlayerSpawnPoint { x: 5 * (TILE_SIZE as i64), y: 4 * (TILE_SIZE as i64), z: 0 }
    }
}

/// The spawn point above a start platform placed at `start`: six tiles in
/// from its left edge and four tiles above its top.
pub open spec fn spawn_above(start: PlatformLayout) -> PlayerSpawnPoint {
    PlayerSpawnPoint {
        x: ((start.grid_x + 6) * TILE_SIZE) as i64,
        y: (TILE_SIZE * (start.grid_y + start.height_tiles) + 4 * TILE_SIZE) as i64,
        z: 0,
    }
}

/// Moves the spawn point above the start platform, if the layout places
/// it; otherwise leaves the spawn point where it is.
pub fn update_player_spawn_point(
    graph: &PlatformGraph,
    layouts: &HashMap<usize, PlatformLayout>,
    spawn_point: &mut PlayerSpawnPoint,
)
    ensures
        layouts@.contains_key(graph.start.0) ==> *final(spawn_point) == spawn_above(
            layouts@[graph.start.0],
        ),
        !layouts@.contains_key(graph.start.0) ==> *final(spawn_point) == *old(spawn_point),
{
    match layouts.get(&graph.start.0) {
        Some(start_layout) => {
            let spawn_x: i64 = (start_layout.grid_x as i64 + 6) * (TILE_SIZE as i64);
            let spawn_y: i64 = start_layout.top_world() + 4 * (TILE_SIZE as i64);
            spawn_point.x = spawn_x;
            spawn_point.y = spawn_y;
            spawn_point.z = 0;
        },
        None => {},
    }
}

/// The difficulty of a season: hard once the player has been through the
/// year, and otherwise rising from summer to spring.
pub open spec fn season_difficulty(season: Season, completed_year: bool) -> Difficulty {
    if completed_year {
        Difficulty::Hard
    } else {
        match season {
            Season::Summer => Difficulty::Easy,
            Season::Autumn => Difficulty::Medium,
            Season::Winter => Difficulty::Medium,
            Season::Spring => Difficulty::Hard,
        }
    }
}

/// The difficulty of a season.
pub fn difficulty_for(season: Season, completed_year: bool) -> (difficulty: Difficulty)
    ensures
        difficulty == season_difficulty(season, completed_year),
{
    if completed_year {
        Difficulty::Hard
    } else {
        match season {
            Season::Summer => Difficulty::Easy,
            Season::Autumn => Difficulty::Medium,
            Season::Winter => Difficulty::Medium,
            Season::Spring => Difficulty::Hard,
        }
    }
}

/// The place of a season in the year, counted from summer.
pub open spec fn season_index(season: Season) -> int {
    match season {
        Season::Summer => 0,
        Season::Autumn => 1,
        Season::Winter => 2,
        Season::Spring => 3,
    }
}

/// The seed that a season and a level number stand for.
pub fn level_seed(season: Season, level: u8) -> (seed: u64)
    ensures
        seed == season_index(season) * 1000 + level,
{
    let index: u64 = match season {
        Season::Summer => 0,
        Season::Autumn => 1,
        Season::Winter => 2,
        Season::Spring => 3,
    };
    index * 1000 + level as u64
}

/// The seed of attempt `attempt` at a level with seed `seed`: each
/// attempt moves the seed on by a fixed step, wrapping around at the end
/// of the range.
pub open spec fn spec_attempt_seed(seed: u64, attempt: u32) -> u64 {
    ((seed + attempt * ATTEMPT_SEED_STEP) % 0x1_0000_0000_0000_0000) as u64
}

/// The seed of attempt `attempt` at a level with seed `seed`.
pub fn attempt_seed(seed: u64, attempt: u32) -> (moved: u64)
    ensures
        moved == spec_attempt_seed(seed, attempt),
{
    let step: u64 = (attempt as u64) * ATTEMPT_SEED_STEP;
    seed.wrapping_add(step)
}

/// `seed` moved on by `by`, wrapping around at the end of the range.
pub open spec fn seed_plus(seed: u64, by: u64) -> u64 {
    ((seed + by) % 0x1_0000_0000_0000_0000) as u64
}

/// Shape `choice` of the pool that easy levels are drawn from.
pub open spec fn easy_shape(choice: usize, seed: u64) -> GraphView {
    if choice == 0 {
        linear_template(Some(seed))
    } else if choice == 1 {
        zigzag_template()
    } else {
        ground_and_floating_template()
    }
}

/// Shape `choice` of the pool that the parts of harder levels are drawn
/// from.
pub open spec fn pool_shape(choice: usize, seed: u64) -> GraphView {
    if choice == 0 {
        linear_template(Some(seed))
    } else if choice == 1 {
        branching_template()
    } else if choice == 2 {
        cul_de_sac_template()
    } else if choice == 3 {
        zigzag_template()
    } else {
        ground_and_floating_template()
    }
}

/// The parts of a harder level: `count` shapes, each drawn from the full
/// pool by a generator made from `seed`, part `i` built with the seed
/// moved on by `i + 1`.
pub open spec fn drawn_parts(seed: u64, count: nat) -> Seq<GraphView>
    decreases count,
{
    if count == 0 {
        Seq::empty()
    } else {
        let earlier = drawn_parts(seed, (count - 1) as nat);
        earlier.push(
            pool_shape(
                after_draws(seed, (count - 1) as nat).index(0, FULL_POOL),
                seed_plus(seed, count as u64),
            ),
        )
    }
}

/// A generator made from `seed` after `draws` draws from the full pool.
pub open spec fn after_draws(seed: u64, draws: nat) -> RngTrace
    decreases draws,
{
    if draws == 0 {
        RngTrace::fresh(seed)
    } else {
        after_draws(seed, (draws - 1) as nat).after_index(0, FULL_POOL)
    }
}

/// How many shapes a level of the given difficulty is made of.
pub open spec fn part_count(difficulty: Difficulty) -> nat {
    match difficulty {
        Difficulty::Easy => 1,
        Difficulty::Medium => 2,
        Difficulty::Hard => 3,
    }
}

/// The topology of a level before its puzzle is set on it. The very first
/// level is always the linear shape; other easy levels are one shape drawn
/// from the easy pool; medium levels chain two shapes and hard levels
/// three, each drawn from the full pool.
pub open spec fn selected_graph(difficulty: Difficulty, seed: u64, first_level: bool) -> GraphView {
    match difficulty {
        Difficulty::Easy => if first_level {
            linear_template(Some(seed))
        } else {
            easy_shape(RngTrace::fresh(seed).index(0, EASY_POOL), seed)
        },
        _ => merge_all(drawn_parts(seed, part_count(difficulty))),
    }
}

/// Builds shape `choice` of the full pool.
fn create_pool_shape(choice: usize, seed: u64) -> (graph: PlatformGraph)
    ensures
        graph@ == pool_shape(choice, seed),
        graph@.well_formed(),
        graph@.goal_reachable(),
        starts_with_two_sites(graph@),
        5 <= graph.nodes.len() <= 8,
{
    if choice == 0 {
        create_linear_template(Some(seed))
    } else if choice == 1 {
        create_branching_template()
    } else if choice == 2 {
        create_cul_de_sac_template()
    } else if choice == 3 {
        create_zigzag_template()
    } else {
        create_ground_and_floating_template()
    }
}

/// No more nodes than `bound` for each graph.
proof fn lemma_total_bounded(graphs: Seq<GraphView>, bound: nat)
    requires
        forall|i: int| 0 <= i < graphs.len() ==> (#[trigger] graphs[i]).nodes.len() <= bound,
    ensures
        total_nodes(graphs) <= graphs.len() * bound,
    decreases graphs.len(),
{
    if graphs.len() > 0 {
        let front = graphs.drop_last();
        assert forall|i: int| 0 <= i < front.len() implies (#[trigger] front[i]).nodes.len()
            <= bound by {
            assert(front[i] == graphs[i]);
        }
        lemma_total_bounded(front, bound);
        assert(graphs.len() * bound == front.len() * bound + bound) by (nonlinear_arith)
            requires
                graphs.len() == front.len() + 1,
        ;
    } else {
        assert(graphs.len() * bound == 0) by (nonlinear_arith)
            requires
                graphs.len() == 0,
        ;
    }
}

/// Builds the topology of a level of the given difficulty from `seed`:
/// one shape for an easy level, two chained shapes for a medium one, three
/// for a hard one. The goal of the topology can be reached from its start.
pub fn select_graph(difficulty: Difficulty, seed: u64, first_level: bool) -> (graph: PlatformGraph)
    ensures
        graph@ == selected_graph(difficulty, seed, first_level),
        graph@.well_formed(),
        graph@.goal_reachable(),
        starts_with_two_sites(graph@),
        5 <= graph.nodes.len() <= 24,
{
    let count: usize = match difficulty {
        Difficulty::Easy => {
            if first_level {
                return create_linear_template(Some(seed));
            }
            let mut rng = SeededRng::from_seed(seed);
            let choice = rng.index(0, EASY_POOL);
            if choice == 0 {
                return create_linear_template(Some(seed));
            } else if choice == 1 {
                return create_zigzag_template();
            } else {
                return create_ground_and_floating_template();
            }
        },
        Difficulty::Medium => 2,
        Difficulty::Hard => 3,
    };
    let mut rng = SeededRng::from_seed(seed);
    let mut parts: Vec<PlatformGraph> = Vec::new();
    let mut made: usize = 0;
    while made < count
        invariant
            2 <= count <= 3,
            made <= count,
            parts.len() == made,
            rng@ == after_draws(seed, made as nat),
            views_of(parts@) == drawn_parts(seed, made as nat),
            forall|i: int|
                0 <= i < made ==> {
                    &&& (#[trigger] views_of(parts@)[i]).well_formed()
                    &&& views_of(parts@)[i].goal_reachable()
                    &&& starts_with_two_sites(views_of(parts@)[i])
                    &&& 5 <= views_of(parts@)[i].nodes.len() <= 8
                },
        decreases count - made,
    {
        let ghost before = views_of(parts@);
        let choice = rng.index(0, FULL_POOL);
        let part = create_pool_shape(choice, seed.wrapping_add((made + 1) as u64));
        parts.push(part);
        proof {
            assert(views_of(parts@) =~= before.push(part@));
        }
        made += 1;
    }
    proof {
        lemma_total_bounded(views_of(parts@), 8);
        assert(views_of(parts@).len() * 8 <= 24) by (nonlinear_arith)
            requires
                views_of(parts@).len() <= 3,
        ;
        lemma_first_part_counts(views_of(parts@));
        lemma_first_part_counts(views_of(parts@).drop_last());
        lemma_merge_all(views_of(parts@));
        lemma_well_formed_graphs_merge(views_of(parts@));
        assert(views_of(parts@).drop_last()[0] == views_of(parts@)[0]);
    }
    merge_graphs(parts)
}

/// A list of graphs has at least as many nodes as its first graph.
proof fn lemma_first_part_counts(graphs: Seq<GraphView>)
    requires
        graphs.len() > 0,
    ensures
        total_nodes(graphs) >= graphs[0].nodes.len(),
    decreases graphs.len(),
{
    if graphs.len() > 1 {
        lemma_first_part_counts(graphs.drop_last());
        assert(graphs.drop_last()[0] == graphs[0]);
    } else {
        assert(graphs.last() == graphs[0]);
    }
}

/// A finished level: its topology with the puzzle set on it, the place of
/// every platform that can be reached, and where the player enters.
pub struct GeneratedLevel {
    pub graph: PlatformGraph,
    pub layouts: HashMap<usize, PlatformLayout>,
    pub spawn_point: PlayerSpawnPoint,
}

/// What a level is made of, given the topology it starts from and the
/// chain whose terrain is set on it.
pub open spec fn level_matches(level: GeneratedLevel, g: GraphView, seed: u64) -> bool {
    &&& level.graph@ == g
    &&& level.layouts@ == g.layout(seed)
    &&& level.layouts@.contains_key(g.start.0)
    &&& level.spawn_point == spawn_above(level.layouts@[g.start.0])
}

/// Lays a finished topology out and finds the spawn point.
fn lay_out(graph: PlatformGraph, seed: u64) -> (level: GeneratedLevel)
    requires
        graph@.well_formed(),
        graph@.goal_reachable(),
        graph.nodes.len() <= MAX_LAYOUT_NODES,
    ensures
        level_matches(level, graph@, seed),
        level.layouts@.contains_key(graph.goal.0),
        forall|id: usize| #[trigger]
            level.layouts@.contains_key(id) ==> level.layouts@[id].grid_y >= 0,
{
    let layouts = graph.generate_layout(seed);
    let mut spawn_point = PlayerSpawnPoint::default();
    proof {
        crate::reach::lemma_reaches_self(graph@, graph.start.0 as int);
    }
    update_player_spawn_point(&graph, &layouts, &mut spawn_point);
    GeneratedLevel { graph, layouts, spawn_point }
}

/// What one attempt at a level returns: the topology selected for the
/// difficulty and the seed, with the terrain of the chain built on it,
/// laid out with the same seed; or the reason why no chain could be built.
pub open spec fn level_generated(
    config: GeneratorConfig,
    first_level: bool,
    result: Result<GeneratedLevel, LevelError>,
) -> bool {
    match built_chain(
        selected_graph(config.difficulty, config.seed, first_level),
        config.difficulty,
        RngTrace::fresh(config.seed),
    ) {
        Ok((chain, rng)) => result is Ok && level_matches(
            result->Ok_0,
            applied(selected_graph(config.difficulty, config.seed, first_level), chain),
            config.seed,
        ),
        Err(error) => result == Err::<GeneratedLevel, LevelError>(error),
    }
}

/// Generation is deterministic: two attempts made with the same
/// configuration end alike, and where they succeed their levels have the
/// same topology, the same terrain on it, the same place for every
/// platform and the same spawn point.
pub proof fn lemma_generation_is_deterministic(
    config: GeneratorConfig,
    first_level: bool,
    first: Result<GeneratedLevel, LevelError>,
    second: Result<GeneratedLevel, LevelError>,
)
    requires
        level_generated(config, first_level, first),
        level_generated(config, first_level, second),
    ensures
        first is Ok <==> second is Ok,
        first is Err ==> first->Err_0 == second->Err_0,
        first is Ok ==> {
            &&& first->Ok_0.graph@ == second->Ok_0.graph@
            &&& first->Ok_0.layouts@ == second->Ok_0.layouts@
            &&& first->Ok_0.spawn_point == second->Ok_0.spawn_point
        },
{
}

/// Makes one attempt at a level: selects the topology for the difficulty,
/// builds the chain of puzzle steps, validates it, sets its terrain on the
/// topology, lays the platforms out and finds the spawn point, all from
/// the seed of `config`. The attempt fails only where the chain cannot be
/// built; the error says why. The same arguments always give the same
/// level.
pub fn generate_level(config: GeneratorConfig, first_level: bool) -> (result: Result<
    GeneratedLevel,
    LevelError,
>)
    ensures
        level_generated(config, first_level, result),
        result is Ok,
        result matches Ok(level) ==> {
            &&& level.graph@.well_formed()
            &&& level.graph@.goal_reachable()
            &&& level.layouts@.contains_key(level.graph.goal.0)
            &&& forall|id: usize| #[trigger]
                level.layouts@.contains_key(id) ==> level.layouts@[id].grid_y >= 0
        },
{
    let mut graph = select_graph(config.difficulty, config.seed, first_level);
    let ghost selected = graph@;
    proof {
        lemma_sites_of_selected(selected);
        lemma_chain_never_fails(selected, config.difficulty, RngTrace::fresh(config.seed));
    }
    let mut generator = CausalityGenerator::new(config);
    let chain = match generator.generate_chain(&graph) {
        Ok(chain) => chain,
        Err(error) => {
            return Err(error);
        },
    };
    proof {
        assert forall|i: int| 0 <= i < chain@.nodes.len() implies (
        #[trigger] chain@.nodes[i]).location.0 < selected.nodes.len() by {
            lemma_sites(selected, chain@.nodes[i].location);
        }
        lemma_nothing_missing(chain@, 0, selected.nodes.len());
        lemma_applied_keeps_edges(selected, chain@);
    }
    match chain.validate() {
        Ok(()) => {},
        Err(error) => {
            return Err(error);
        },
    }
    match generator.apply_chain_to_graph(&chain, &mut graph) {
        Ok(()) => {},
        Err(error) => {
            return Err(error);
        },
    }
    Ok(lay_out(graph, config.seed))
}

/// The level to fall back on when every attempt has failed: the linear
/// shape for the seed, without a puzzle, laid out with the same seed.
pub fn fallback_level(seed: u64) -> (level: GeneratedLevel)
    ensures
        level_matches(level, linear_template(Some(seed)), seed),
        level.graph@.well_formed(),
        level.graph@.goal_reachable(),
        level.layouts@.contains_key(level.graph.goal.0),
        forall|id: usize| #[trigger]
            level.layouts@.contains_key(id) ==> level.layouts@[id].grid_y >= 0,
{
    let graph = create_linear_template(Some(seed));
    lay_out(graph, seed)
}

/// A well-formed graph that offers two sites at its start has two sites,
/// and no more sites than platforms.
proof fn lemma_sites_of_selected(g: GraphView)
    requires
        g.well_formed(),
        starts_with_two_sites(g),
        g.nodes.len() <= usize::MAX,
    ensures
        2 <= sites(g).len() <= usize::MAX,
{
    crate::reach::lemma_reaches_self(g, 0);
    crate::reach::lemma_reaches_step(g, 0, 0, 1);
    lemma_two_sites(g, crate::graph::NodeId(0), crate::graph::NodeId(1));
    crate::generator::lemma_sites_bounded(g);
}

} // verus!
