//! Building the puzzle of a level backwards from its goal, and setting its
//! terrain on the platforms.

use crate::causality::{
    BucketContent, CausalityChain, CausalityNode, Cause, CauseView, ChainView, Effect, StepView,
};
use crate::error::LevelError;
use crate::graph::{
    holds_goal_container, holds_water, GraphView, NodeId, NodeView, PlatformGraph, SmartTerrain,
};
use crate::rng::{RngTrace, SeededRng};
use vstd::prelude::*;

verus! {

broadcast use vstd::std_specs::hash::group_hash_axioms;

/// The season in which a level is played.
#[derive(Debug, Clone, Copy, PartialEq, Eq, Hash, Structural)]
pub enum Season {
    Summer,
    Autumn,
    Winter,
    Spring,
}

impl Default for Season {
    fn default() -> (season: Self)
        ensures
            season == Season::Summer,
    {
        Season::Summer
    }
}

impl Season {
    /// The season that follows this one.
    pub open spec fn spec_next(self) -> Season {
        match self {
            Season::Summer => Season::Autumn,
            Season::Autumn => Season::Winter,
            Season::Winter => Season::Spring,
            Season::Spring => Season::Summer,
        }
    }

    /// The season that follows this one.
    pub fn next(&self) -> (following: Season)
        ensures
            following == self.spec_next(),
    {
        match self {
            Season::Summer => Season::Autumn,
            Season::Autumn => Season::Winter,
            Season::Winter => Season::Spring,
            Season::Spring => Season::Summer,
        }
    }
}

/// How demanding a level is to be.
#[derive(Debug, Clone, Copy, PartialEq, Eq, Structural)]
pub enum Difficulty {
    Easy,
    Medium,
    Hard,
}

impl Difficulty {
    /// The shortest and the longest chain aimed at.
    pub fn chain_length_range(&self) -> (range: (usize, usize))
        ensures
            range == match *self {
                Difficulty::Easy => (2usize, 4usize),
                Difficulty::Medium => (4usize, 7usize),
                Difficulty::Hard => (7usize, 12usize),
            },
            range.0 <= range.1,
    {
        match self {
            Difficulty::Easy => (2, 4),
            Difficulty::Medium => (4, 7),
            Difficulty::Hard => (7, 12),
        }
    }

    /// The most fires that a level may hold.
    pub fn max_fires(&self) -> (fires: usize)
        ensures
            fires == match *self {
                Difficulty::Easy => 1usize,
                Difficulty::Medium => 2usize,
                Difficulty::Hard => 4usize,
            },
    {
        match self {
            Difficulty::Easy => 1,
            Difficulty::Medium => 2,
            Difficulty::Hard => 4,
        }
    }
}

/// Everything that decides what is generated.
#[derive(Debug, Clone, Copy, PartialEq, Eq, Structural)]
pub struct GeneratorConfig {
    /// How demanding the level is to be.
    pub difficulty: Difficulty,
    /// The seed of every random choice.
    pub seed: u64,
    /// The season in which the level is played.
    pub season: Season,
    /// Whether the player has been through every season before.
    pub completed_year: bool,
}

/// Odds of the fire mechanic, out of `FIRE_ODDS_OUT_OF`.
pub const FIRE_ODDS: u32 = 3;

/// What `FIRE_ODDS` is counted out of.
pub const FIRE_ODDS_OUT_OF: u32 = 10;

/// How often a site for the fire is drawn anew while it falls on the site
/// of the snow, before the next site in order is taken instead.
pub const MAX_FIRE_REDRAWS: usize = 64;

/// The step that fills the goal container for the time with the given
/// index.
pub open spec fn fill_step(index: usize, goal: NodeId) -> StepView {
    StepView {
        effect: Effect::ContainerFilled(index),
        cause: CauseView::BucketAt { content: BucketContent::Water, location: goal },
        terrain: SmartTerrain::GoalContainer { fill_count: 0, target: 2 },
        location: goal,
    }
}

/// The step that takes water from a source at `site`.
pub open spec fn water_step(site: NodeId) -> StepView {
    StepView {
        effect: Effect::WaterBucket,
        cause: CauseView::Player,
        terrain: SmartTerrain::WaterSource,
        location: site,
    }
}

/// The step that takes snow from a source at `site`.
pub open spec fn snow_step(site: NodeId) -> StepView {
    StepView {
        effect: Effect::SnowBucket,
        cause: CauseView::Player,
        terrain: SmartTerrain::SnowSource,
        location: site,
    }
}

/// The step that melts snow to water at a fire at `site`.
pub open spec fn melt_step(site: NodeId) -> StepView {
    StepView {
        effect: Effect::WaterBucket,
        cause: CauseView::BucketAt { content: BucketContent::Snow, location: site },
        terrain: SmartTerrain::SnowMeltFire { extinguished: false },
        location: site,
    }
}

/// `ids` without every occurrence of `excluded`, in the same order.
pub open spec fn without(ids: Seq<NodeId>, excluded: NodeId) -> Seq<NodeId>
    decreases ids.len(),
{
    if ids.len() == 0 {
        Seq::empty()
    } else {
        let earlier = without(ids.drop_last(), excluded);
        if ids.last() == excluded {
            earlier
        } else {
            earlier.push(ids.last())
        }
    }
}

/// The platforms on which terrain for fetching water may be placed: those
/// that can be reached from the start, but for the goal, in the order in
/// which a depth-first walk from the start meets them.
pub open spec fn sites(g: GraphView) -> Seq<NodeId> {
    without(g.dfs_order(g.start), g.goal)
}

/// What a chain under construction has come to: the chain and the
/// generator on success, or the failure.
pub type Built = Result<(ChainView, RngTrace), LevelError>;

/// Adds a water source at a site drawn from all sites.
pub open spec fn with_water_source(g: GraphView, chain: ChainView, rng: RngTrace) -> Built {
    let sites = sites(g);
    if sites.len() == 0 {
        Err(LevelError::InsufficientSites { needed: 1, available: 0 })
    } else {
        let count = sites.len() as usize;
        Ok((chain.push(water_step(sites[rng.index(0, count) as int])), rng.after_index(0, count)))
    }
}

/// The site of the fire, and the generator after it has been found: the
/// site at the first index drawn that is not `snow`, or, after `redraws`
/// further draws have all fallen on `snow`, the site after it in order.
pub open spec fn fire_site(sites: Seq<NodeId>, snow: usize, drawn: usize, redraws: nat, rng: RngTrace) -> (
    NodeId,
    RngTrace,
)
    decreases redraws,
{
    let count = sites.len() as usize;
    if sites[drawn as int] != sites[snow as int] {
        (sites[drawn as int], rng)
    } else if redraws == 0 {
        (sites[(snow + 1) % (count as int)], rng)
    } else {
        fire_site(sites, snow, rng.index(0, count), (redraws - 1) as nat, rng.after_index(0, count))
    }
}

/// Adds a snow source and a fire that melts the snow, at two different
/// sites drawn from all sites.
pub open spec fn with_fire_conversion(g: GraphView, chain: ChainView, rng: RngTrace) -> Built {
    let sites = sites(g);
    if sites.len() < 2 {
        Err(LevelError::InsufficientSites { needed: 2, available: sites.len() as usize })
    } else {
        let count = sites.len() as usize;
        let snow = rng.index(0, count);
        let rng = rng.after_index(0, count);
        let drawn = rng.index(0, count);
        let rng = rng.after_index(0, count);
        let (fire, rng) = fire_site(sites, snow, drawn, MAX_FIRE_REDRAWS as nat, rng);
        Ok((chain.push(snow_step(sites[snow as int])).push(melt_step(fire)), rng))
    }
}

/// Adds a way to fetch water: with odds of three in ten, and never on easy
/// difficulty, snow that is melted at a fire; otherwise a water source.
pub open spec fn with_water(
    g: GraphView,
    difficulty: Difficulty,
    chain: ChainView,
    rng: RngTrace,
) -> Built {
    let use_fire = rng.ratio(FIRE_ODDS, FIRE_ODDS_OUT_OF);
    let rng = rng.after_ratio(FIRE_ODDS, FIRE_ODDS_OUT_OF);
    if use_fire && difficulty != Difficulty::Easy {
        with_fire_conversion(g, chain, rng)
    } else {
        with_water_source(g, chain, rng)
    }
}

/// The chain for the goal container that is filled twice, built backwards:
/// the second fill, a way to fetch water for it, the first fill, and a way
/// to fetch water for that.
pub open spec fn built_chain(g: GraphView, difficulty: Difficulty, rng: RngTrace) -> Built {
    let chain = ChainView { nodes: Seq::empty(), goal: Effect::ContainerFilled(1) }.push(
        fill_step(1, g.goal),
    );
    match with_water(g, difficulty, chain, rng) {
        Err(error) => Err(error),
        Ok((chain, rng)) => with_water(g, difficulty, chain.push(fill_step(0, g.goal)), rng),
    }
}

/// A step whose cause needs no earlier effect.
pub open spec fn free_step(step: StepView) -> bool {
    step.cause is Player || step.cause is BucketAt
}

/// A chain in which no step needs an earlier effect, and whose first
/// stored step achieves the goal.
pub open spec fn plainly_valid(chain: ChainView) -> bool {
    &&& chain.nodes.len() > 0
    &&& chain.nodes[0].effect == chain.goal
    &&& forall|i: int| 0 <= i < chain.nodes.len() ==> free_step(#[trigger] chain.nodes[i])
}

/// A chain whose steps need no earlier effect, and whose first stored step
/// achieves the goal, can be played through.
pub proof fn lemma_plainly_valid(chain: ChainView)
    requires
        plainly_valid(chain),
    ensures
        chain.is_valid(),
{
    let count = chain.nodes.len() as int;
    assert forall|k: int| 0 <= k < count implies #[trigger] chain.step_ready(k) by {
        assert(chain.forward()[k] == chain.nodes[count - 1 - k]);
        assert(free_step(chain.nodes[count - 1 - k]));
    }
    assert(chain.forward()[count - 1] == chain.nodes[0]);
    assert(chain.effect_at(count - 1) == chain.goal);
}

/// Stored step `i` is no fire, or it follows a snow source that stands on
/// another platform.
pub open spec fn melts_apart(chain: ChainView, i: int) -> bool {
    chain.nodes[i].terrain is SnowMeltFire ==> i > 0 && chain.nodes[i - 1].terrain
        is SnowSource && chain.nodes[i - 1].location != chain.nodes[i].location
}

/// Every fire of the chain melts snow that is fetched on another platform.
pub open spec fn fires_apart(chain: ChainView) -> bool {
    forall|i: int| 0 <= i < chain.nodes.len() ==> #[trigger] melts_apart(chain, i)
}

/// Every step of the chain stands on the goal or on a site.
pub open spec fn placed_on_sites(g: GraphView, chain: ChainView) -> bool {
    forall|i: int|
        0 <= i < chain.nodes.len() ==> (#[trigger] chain.nodes[i]).location == g.goal || sites(
            g,
        ).contains(chain.nodes[i].location)
}

/// Builds chains of puzzle steps for given topologies.
pub struct CausalityGenerator {
    config: GeneratorConfig,
    rng: SeededRng,
}

impl CausalityGenerator {
    /// The configuration that the generator was made with.
    pub closed spec fn config(&self) -> GeneratorConfig {
        self.config
    }

    /// The generator's random stream.
    pub closed spec fn stream(&self) -> RngTrace {
        self.rng@
    }

    /// A generator whose random stream is made from the seed of `config`.
    pub fn new(config: GeneratorConfig) -> (generator: Self)
        ensures
            generator.config() == config,
            generator.stream() == RngTrace::fresh(config.seed),
    {
        CausalityGenerator { rng: SeededRng::from_seed(config.seed), config }
    }

    /// The sites of `graph`.
    fn available_sites(graph: &PlatformGraph) -> (available: Vec<NodeId>)
        requires
            graph@.edges_in_range(),
            graph.start.0 < graph.nodes.len(),
        ensures
            available@ == sites(graph@),
    {
        let reachable = graph.reachable_from(graph.start);
        let mut available: Vec<NodeId> = Vec::new();
        let mut i: usize = 0;
        while i < reachable.len()
            invariant
                i <= reachable.len(),
                available@ == without(reachable@.subrange(0, i as int), graph.goal),
            decreases reachable.len() - i,
        {
            proof {
                assert(reachable@.subrange(0, i + 1).drop_last() =~= reachable@.subrange(
                    0,
                    i as int,
                ));
                assert(reachable@.subrange(0, i + 1).last() == reachable@[i as int]);
            }
            if reachable[i] != graph.goal {
                available.push(reachable[i]);
            }
            i += 1;
        }
        assert(reachable@.subrange(0, i as int) =~= reachable@);
        available
    }

    /// Builds the chain for the goal container that is filled twice, from
    /// the goal back: the second fill at the goal, a way to fetch water
    /// for it, the first fill at the goal, a way to fetch water for that.
    /// Fails if the graph has too few sites. A chain that is returned can
    /// always be played through.
    pub fn generate_chain(&mut self, graph: &PlatformGraph) -> (result: Result<
        CausalityChain,
        LevelError,
    >)
        requires
            graph@.edges_in_range(),
            graph.start.0 < graph.nodes.len(),
        ensures
            final(self).config() == old(self).config(),
            match built_chain(graph@, old(self).config().difficulty, old(self).stream()) {
                Ok((chain, rng)) => result is Ok && result->Ok_0@ == chain && final(self).stream()
                    == rng,
                Err(error) => result == Err::<CausalityChain, LevelError>(error),
            },
            result matches Ok(chain) ==> chain@.is_valid() && placed_on_sites(graph@, chain@)
                && fires_apart(chain@),
    {
        let mut chain = CausalityChain::new(Effect::ContainerFilled(1));
        let goal_node = graph.goal;

        // The second fill of the container.
        chain.add_node(
            CausalityNode {
                effect: Effect::ContainerFilled(1),
                cause: Cause::BucketAt { content: BucketContent::Water, location: goal_node },
                terrain: SmartTerrain::GoalContainer { fill_count: 0, target: 2 },
                location: goal_node,
            },
        );
        assert(plainly_valid(chain@));
        assert(fires_apart(chain@)) by {
            assert(melts_apart(chain@, 0));
        }
        // Water for the second fill.
        match self.add_water_source_step(&mut chain, graph) {
            Err(error) => {
                return Err(error);
            },
            Ok(()) => {},
        }
        // The first fill of the container.
        let ghost before = chain@;
        chain.add_node(
            CausalityNode {
                effect: Effect::ContainerFilled(0),
                cause: Cause::BucketAt { content: BucketContent::Water, location: goal_node },
                terrain: SmartTerrain::GoalContainer { fill_count: 0, target: 2 },
                location: goal_node,
            },
        );
        proof {
            lemma_step_added(graph@, before, fill_step(0, goal_node));
        }
        // Water for the first fill.
        match self.add_water_source_step(&mut chain, graph) {
            Err(error) => {
                return Err(error);
            },
            Ok(()) => {},
        }
        proof {
            lemma_plainly_valid(chain@);
        }
        Ok(chain)
    }

    /// Adds a way to fetch water: snow melted at a fire, or a water source.
    fn add_water_source_step(&mut self, chain: &mut CausalityChain, graph: &PlatformGraph) -> (result:
        Result<(), LevelError>)
        requires
            graph@.edges_in_range(),
            graph.start.0 < graph.nodes.len(),
            plainly_valid(old(chain)@),
            placed_on_sites(graph@, old(chain)@),
            fires_apart(old(chain)@),
        ensures
            final(self).config() == old(self).config(),
            match with_water(
                graph@,
                old(self).config().difficulty,
                old(chain)@,
                old(self).stream(),
            ) {
                Ok((after, rng)) => result is Ok && final(chain)@ == after && final(self).stream()
                    == rng,
                Err(error) => result == Err::<(), LevelError>(error),
            },
            result is Ok ==> plainly_valid(final(chain)@) && placed_on_sites(
                graph@,
                final(chain)@,
            ) && fires_apart(final(chain)@),
    {
        let use_fire = self.rng.ratio(FIRE_ODDS, FIRE_ODDS_OUT_OF);
        if use_fire && self.config.difficulty != Difficulty::Easy {
            self.add_fire_conversion_step(chain, graph)
        } else {
            self.add_simple_water_source(chain, graph)
        }
    }

    /// Adds a water source that the player takes water from directly.
    fn add_simple_water_source(&mut self, chain: &mut CausalityChain, graph: &PlatformGraph) -> (result:
        Result<(), LevelError>)
        requires
            graph@.edges_in_range(),
            graph.start.0 < graph.nodes.len(),
            plainly_valid(old(chain)@),
            placed_on_sites(graph@, old(chain)@),
            fires_apart(old(chain)@),
        ensures
            final(self).config() == old(self).config(),
            match with_water_source(graph@, old(chain)@, old(self).stream()) {
                Ok((after, rng)) => result is Ok && final(chain)@ == after && final(self).stream()
                    == rng,
                Err(error) => result == Err::<(), LevelError>(error),
            },
            result is Ok ==> plainly_valid(final(chain)@) && placed_on_sites(
                graph@,
                final(chain)@,
            ) && fires_apart(final(chain)@),
    {
        let available_nodes = Self::available_sites(graph);
        if available_nodes.len() == 0 {
            return Err(LevelError::InsufficientSites { needed: 1, available: 0 });
        }
        let node = available_nodes[self.rng.index(0, available_nodes.len())];
        let ghost before = chain@;
        chain.add_node(
            CausalityNode {
                effect: Effect::WaterBucket,
                cause: Cause::Player,
                terrain: SmartTerrain::WaterSource,
                location: node,
            },
        );
        proof {
            lemma_step_added(graph@, before, water_step(node));
        }
        Ok(())
    }

    /// Adds a snow source and, on another platform, a fire that melts the
    /// snow to water.
    fn add_fire_conversion_step(&mut self, chain: &mut CausalityChain, graph: &PlatformGraph) -> (result:
        Result<(), LevelError>)
        requires
            graph@.edges_in_range(),
            graph.start.0 < graph.nodes.len(),
            plainly_valid(old(chain)@),
            placed_on_sites(graph@, old(chain)@),
            fires_apart(old(chain)@),
        ensures
            final(self).config() == old(self).config(),
            match with_fire_conversion(graph@, old(chain)@, old(self).stream()) {
                Ok((after, rng)) => result is Ok && final(chain)@ == after && final(self).stream()
                    == rng,
                Err(error) => result == Err::<(), LevelError>(error),
            },
            result is Ok ==> plainly_valid(final(chain)@) && placed_on_sites(
                graph@,
                final(chain)@,
            ) && fires_apart(final(chain)@),
    {
        let available_nodes = Self::available_sites(graph);
        let count = available_nodes.len();
        if count < 2 {
            return Err(LevelError::InsufficientSites { needed: 2, available: count });
        }
        let snow_index = self.rng.index(0, count);
        let snow_node = available_nodes[snow_index];
        let mut fire_node = available_nodes[self.rng.index(0, count)];

        // The fire must not stand where the snow is.
        let mut redraws: usize = MAX_FIRE_REDRAWS;
        let ghost sites = available_nodes@;
        let ghost mut drawn: usize = old(self).stream().after_index(0, count).index(0, count);
        while fire_node == snow_node && redraws > 0
            invariant
                count == available_nodes.len(),
                count >= 2,
                sites == available_nodes@,
                snow_index < count,
                snow_node == sites[snow_index as int],
                drawn < count,
                fire_node == sites[drawn as int],
                redraws <= MAX_FIRE_REDRAWS,
                self.config() == old(self).config(),
                fire_site(sites, snow_index, drawn, redraws as nat, self.stream()) == fire_site(
                    sites,
                    snow_index,
                    old(self).stream().after_index(0, count).index(0, count),
                    MAX_FIRE_REDRAWS as nat,
                    old(self).stream().after_index(0, count).after_index(0, count),
                ),
            decreases redraws,
        {
            let index = self.rng.index(0, count);
            fire_node = available_nodes[index];
            proof {
                drawn = index;
            }
            redraws -= 1;
        }
        proof {
            lemma_sites_distinct(graph@);
        }
        if fire_node == snow_node {
            let next = (snow_index + 1) % count;
            assert(next != snow_index) by {
                if snow_index + 1 < count {
                    vstd::arithmetic::div_mod::lemma_small_mod(
                        (snow_index + 1) as nat,
                        count as nat,
                    );
                } else {
                    vstd::arithmetic::div_mod::lemma_mod_self_0(count as int);
                }
            }
            fire_node = available_nodes[next];
            assert(sites[next as int] != sites[snow_index as int]);
        }
        assert(fire_node != snow_node);
        let ghost before = chain@;
        chain.add_node(
            CausalityNode {
                effect: Effect::SnowBucket,
                cause: Cause::Player,
                terrain: SmartTerrain::SnowSource,
                location: snow_node,
            },
        );
        let ghost between = chain@;
        chain.add_node(
            CausalityNode {
                effect: Effect::WaterBucket,
                cause: Cause::BucketAt { content: BucketContent::Snow, location: fire_node },
                terrain: SmartTerrain::SnowMeltFire { extinguished: false },
                location: fire_node,
            },
        );
        proof {
            lemma_step_added(graph@, before, snow_step(snow_node));
            lemma_step_added(graph@, between, melt_step(fire_node));
        }
        Ok(())
    }
}

/// Storing a step that needs no earlier effect, on the goal or on a site,
/// keeps a chain plainly valid and on the sites.
proof fn lemma_step_added(g: GraphView, chain: ChainView, step: StepView)
    requires
        plainly_valid(chain),
        placed_on_sites(g, chain),
        fires_apart(chain),
        free_step(step),
        step.location == g.goal || sites(g).contains(step.location),
        step.terrain is SnowMeltFire ==> chain.nodes.last().terrain is SnowSource
            && chain.nodes.last().location != step.location,
    ensures
        plainly_valid(chain.push(step)),
        placed_on_sites(g, chain.push(step)),
        fires_apart(chain.push(step)),
{
    let longer = chain.push(step);
    assert forall|i: int| 0 <= i < longer.nodes.len() implies #[trigger] melts_apart(longer, i) by {
        if i < chain.nodes.len() {
            assert(melts_apart(chain, i));
            assert(longer.nodes[i] == chain.nodes[i]);
            if i > 0 {
                assert(longer.nodes[i - 1] == chain.nodes[i - 1]);
            }
        } else {
            assert(longer.nodes[i - 1] == chain.nodes.last());
        }
    }
    assert forall|i: int| 0 <= i < longer.nodes.len() implies free_step(
        #[trigger] longer.nodes[i],
    ) by {
        if i < chain.nodes.len() {
            assert(longer.nodes[i] == chain.nodes[i]);
        }
    }
    assert forall|i: int| 0 <= i < longer.nodes.len() implies (
    #[trigger] longer.nodes[i]).location == g.goal || sites(g).contains(
        longer.nodes[i].location,
    ) by {
        if i < chain.nodes.len() {
            assert(longer.nodes[i] == chain.nodes[i]);
        }
    }
}

/// `have` after each element of `extra` has been added in order, except
/// that a goal container is left out where one stands already.
pub open spec fn with_terrain_list(have: Seq<SmartTerrain>, extra: Seq<SmartTerrain>) -> Seq<
    SmartTerrain,
>
    decreases extra.len(),
{
    if extra.len() == 0 {
        have
    } else {
        let terrain = extra.first();
        let next = if terrain.is_goal_container() && holds_goal_container(have) {
            have
        } else {
            have.push(terrain)
        };
        with_terrain_list(next, extra.drop_first())
    }
}

/// The first location from stored step `k` on that a graph of `count`
/// nodes does not have, if there is one.
pub open spec fn missing_from(chain: ChainView, k: int, count: nat) -> Option<NodeId>
    decreases chain.nodes.len() - k,
{
    if k >= chain.nodes.len() {
        None
    } else if chain.nodes[k].location.0 >= count {
        Some(chain.nodes[k].location)
    } else {
        missing_from(chain, k + 1, count)
    }
}

/// Node `i` of `g` with the terrain of `chain` set on it.
pub open spec fn applied_node(g: GraphView, chain: ChainView, i: int) -> NodeView {
    NodeView {
        terrain_objects: with_terrain_list(
            g.nodes[i].terrain_objects,
            chain.terrain_at(i as usize),
        ),
        ..g.nodes[i]
    }
}

/// `g` with the terrain of `chain` set on its platforms.
pub open spec fn applied(g: GraphView, chain: ChainView) -> GraphView {
    GraphView { nodes: Seq::new(g.nodes.len(), |i: int| applied_node(g, chain, i)), ..g }
}

/// How many goal containers a terrain list holds.
pub open spec fn goal_containers(terrain: Seq<SmartTerrain>) -> nat
    decreases terrain.len(),
{
    if terrain.len() == 0 {
        0
    } else {
        goal_containers(terrain.drop_last()) + if terrain.last().is_goal_container() {
            1nat
        } else {
            0nat
        }
    }
}

/// A list holds a goal container exactly when it counts at least one.
pub proof fn lemma_goal_containers_counted(terrain: Seq<SmartTerrain>)
    ensures
        holds_goal_container(terrain) <==> goal_containers(terrain) > 0,
    decreases terrain.len(),
{
    if terrain.len() > 0 {
        let front = terrain.drop_last();
        lemma_goal_containers_counted(front);
        if holds_goal_container(front) {
            let i = choose|i: int| 0 <= i < front.len() && (#[trigger] front[i]).is_goal_container();
            assert(terrain[i].is_goal_container());
        }
        if terrain.last().is_goal_container() {
            assert(terrain[terrain.len() - 1].is_goal_container());
        }
        if holds_goal_container(terrain) && !terrain.last().is_goal_container() {
            let i = choose|i: int|
                0 <= i < terrain.len() && (#[trigger] terrain[i]).is_goal_container();
            assert(front[i].is_goal_container());
        }
    }
}

/// Setting terrain never adds a goal container to a platform that holds
/// one, and adds no more than one to a platform that holds none.
pub proof fn lemma_goal_container_not_duplicated(have: Seq<SmartTerrain>, extra: Seq<SmartTerrain>)
    ensures
        goal_containers(have) > 0 ==> goal_containers(with_terrain_list(have, extra))
            == goal_containers(have),
        goal_containers(have) == 0 ==> goal_containers(with_terrain_list(have, extra)) <= 1,
    decreases extra.len(),
{
    if extra.len() > 0 {
        let terrain = extra.first();
        lemma_goal_containers_counted(have);
        if terrain.is_goal_container() && holds_goal_container(have) {
            lemma_goal_container_not_duplicated(have, extra.drop_first());
        } else {
            let next = have.push(terrain);
            assert(next.drop_last() =~= have);
            lemma_goal_container_not_duplicated(next, extra.drop_first());
        }
    }
}

/// Setting terrain keeps what stood on the platform before, in front.
pub proof fn lemma_terrain_kept(have: Seq<SmartTerrain>, extra: Seq<SmartTerrain>)
    ensures
        have.is_prefix_of(with_terrain_list(have, extra)),
    decreases extra.len(),
{
    if extra.len() > 0 {
        let terrain = extra.first();
        if terrain.is_goal_container() && holds_goal_container(have) {
            lemma_terrain_kept(have, extra.drop_first());
        } else {
            lemma_terrain_kept(have.push(terrain), extra.drop_first());
        }
    }
}

impl CausalityGenerator {
    /// Sets the terrain of every step of `chain` on the platform that the
    /// step names, in the order in which the steps are stored. A goal
    /// container is not set on a platform that holds one already. If the
    /// chain names a platform that the graph does not have, nothing is set
    /// and the error names the first such platform.
    pub fn apply_chain_to_graph(&self, chain: &CausalityChain, graph: &mut PlatformGraph) -> (result:
        Result<(), LevelError>)
        ensures
            match missing_from(chain@, 0, old(graph).nodes.len() as nat) {
                Some(id) => result == Err::<(), LevelError>(LevelError::MissingNode { id })
                    && final(graph)@ == old(graph)@,
                None => result is Ok && final(graph)@ == applied(old(graph)@, chain@),
            },
            forall|i: int|
                0 <= i < final(graph)@.nodes.len() && holds_water(
                    (#[trigger] final(graph)@.nodes[i]).terrain_objects,
                ) ==> final(graph)@.nodes[i].width_tiles() >= 9 && final(graph)@.nodes[i].height_tiles()
                    >= 2,
    {
        let count = graph.nodes.len();
        let mut checked: usize = 0;
        while checked < chain.nodes.len()
            invariant
                checked <= chain.nodes.len(),
                count == graph.nodes.len(),
                *graph == *old(graph),
                missing_from(chain@, checked as int, count as nat) == missing_from(
                    chain@,
                    0,
                    count as nat,
                ),
            decreases chain.nodes.len() - checked,
        {
            let location = chain.nodes[checked].location;
            assert(chain@.nodes[checked as int].location == location);
            if location.0 >= count {
                return Err(LevelError::MissingNode { id: location });
            }
            checked += 1;
        }

        let terrain_map = chain.terrain_by_location();
        let ghost before = graph@;
        let mut i: usize = 0;
        while i < count
            invariant
                i <= count,
                count == graph.nodes.len(),
                count == before.nodes.len(),
                graph.start == before.start,
                graph.goal == before.goal,
                forall|location: usize| #[trigger]
                    terrain_map@.contains_key(location) <==> chain@.uses(location),
                forall|location: usize| #[trigger]
                    terrain_map@.contains_key(location) ==> terrain_map@[location]@
                        == chain@.terrain_at(location),
                forall|j: int| 0 <= j < i ==> graph.nodes[j]@ == applied_node(before, chain@, j),
                forall|j: int| i <= j < count ==> graph.nodes[j]@ == #[trigger] before.nodes[j],
            decreases count - i,
        {
            let ghost nodes_before = graph.nodes@;
            match terrain_map.get(&i) {
                Some(terrain_objects) => {
                    let ghost list = terrain_objects@;
                    let ghost had = before.nodes[i as int].terrain_objects;
                    assert(list == chain@.terrain_at(i));
                    assert(list.skip(0) =~= list);
                    let mut m: usize = 0;
                    while m < terrain_objects.len()
                        invariant
                            i < count,
                            count == graph.nodes.len(),
                            m <= terrain_objects.len(),
                            list == terrain_objects@,
                            graph.start == before.start,
                            graph.goal == before.goal,
                            graph.nodes[i as int]@.edges == before.nodes[i as int].edges,
                            graph.nodes[i as int]@.platform_type == before.nodes[i as int].platform_type,
                            with_terrain_list(
                                graph.nodes[i as int]@.terrain_objects,
                                list.skip(m as int),
                            ) == with_terrain_list(had, list),
                            forall|j: int|
                                0 <= j < count && j != i ==> graph.nodes[j] == nodes_before[j],
                        decreases terrain_objects.len() - m,
                    {
                        let terrain = terrain_objects[m];
                        proof {
                            assert(list.skip(m as int).first() == terrain);
                            assert(list.skip(m as int).drop_first() =~= list.skip(m + 1));
                        }
                        match terrain {
                            SmartTerrain::GoalContainer { .. } => {
                                // One goal container is enough.
                                if !graph.nodes[i].has_goal_container() {
                                    graph.nodes[i].add_terrain(terrain);
                                }
                            },
                            _ => {
                                graph.nodes[i].add_terrain(terrain);
                            },
                        }
                        m += 1;
                    }
                    assert(list.skip(m as int) =~= Seq::empty());
                },
                None => {
                    proof {
                        assert(!chain@.uses(i));
                        crate::causality::lemma_unused_has_no_terrain(
                            chain@,
                            chain@.nodes.len() as int,
                            i,
                        );
                    }
                },
            }
            proof {
                assert forall|j: int| 0 <= j < i + 1 implies graph.nodes[j]@ == applied_node(
                    before,
                    chain@,
                    j,
                ) by {
                    if j < i {
                        assert(graph.nodes[j] == nodes_before[j]);
                    }
                }
                assert forall|j: int| i + 1 <= j < count implies graph.nodes[j]@
                    == #[trigger] before.nodes[j] by {
                    assert(graph.nodes[j] == nodes_before[j]);
                }
            }
            i += 1;
        }
        proof {
            assert(graph@.nodes =~= applied(before, chain@).nodes);
        }
        Ok(())
    }
}

/// Whatever is left after leaving `excluded` out was there before and is
/// not `excluded`.
pub proof fn lemma_without(ids: Seq<NodeId>, excluded: NodeId, id: NodeId)
    ensures
        without(ids, excluded).contains(id) <==> ids.contains(id) && id != excluded,
    decreases ids.len(),
{
    if ids.len() > 0 {
        let front = ids.drop_last();
        let kept = without(front, excluded);
        lemma_without(front, excluded, id);
        if without(ids, excluded).contains(id) {
            let i = choose|i: int|
                0 <= i < without(ids, excluded).len() && without(ids, excluded)[i] == id;
            if ids.last() != excluded && i == kept.len() {
                assert(ids[ids.len() - 1] == id);
            } else {
                assert(kept[i] == id);
                let j = choose|j: int| 0 <= j < front.len() && front[j] == id;
                assert(ids[j] == id);
            }
        }
        if ids.contains(id) && id != excluded {
            let j = choose|j: int| 0 <= j < ids.len() && ids[j] == id;
            if j < front.len() {
                assert(front[j] == id);
                let i = choose|i: int| 0 <= i < kept.len() && kept[i] == id;
                assert(without(ids, excluded)[i] == id);
            } else {
                assert(without(ids, excluded)[kept.len() as int] == id);
            }
        }
    }
}

/// The sites of a graph are exactly the platforms other than the goal
/// that can be reached from the start; all of them are platforms of the
/// graph.
pub proof fn lemma_sites(g: GraphView, id: NodeId)
    requires
        g.edges_in_range(),
        g.start.0 < g.nodes.len(),
    ensures
        sites(g).contains(id) <==> g.reaches(g.start.0 as int, id.0 as int) && id != g.goal,
        sites(g).contains(id) ==> id.0 < g.nodes.len(),
{
    crate::reach::lemma_dfs_order_is_reachable_set(g, g.start);
    lemma_without(g.dfs_order(g.start), g.goal, id);
    if g.reaches(g.start.0 as int, id.0 as int) {
        crate::reach::lemma_reachable_in_range(g, g.start.0 as int, id.0 as int);
    }
}

/// A chain whose steps all stand on platforms of the graph names no
/// missing platform.
pub proof fn lemma_nothing_missing(chain: ChainView, k: int, count: nat)
    requires
        0 <= k,
        forall|i: int| k <= i < chain.nodes.len() ==> (#[trigger] chain.nodes[i]).location.0 < count,
    ensures
        missing_from(chain, k, count) is None,
    decreases chain.nodes.len() - k,
{
    if k < chain.nodes.len() {
        assert(chain.nodes[k].location.0 < count);
        lemma_nothing_missing(chain, k + 1, count);
    }
}

/// Setting terrain changes no edge: the graph stays as well formed as it
/// was, and whatever could be reached can still be reached.
pub proof fn lemma_applied_keeps_edges(g: GraphView, chain: ChainView)
    ensures
        applied(g, chain).nodes.len() == g.nodes.len(),
        applied(g, chain).start == g.start,
        applied(g, chain).goal == g.goal,
        forall|i: int|
            0 <= i < g.nodes.len() ==> (#[trigger] applied(g, chain).nodes[i]).edges
                == g.nodes[i].edges,
        g.edges_in_range() ==> applied(g, chain).edges_in_range(),
        g.well_formed() ==> applied(g, chain).well_formed(),
        forall|a: int, b: int| #[trigger] g.reaches(a, b) ==> applied(g, chain).reaches(a, b),
{
    let h = applied(g, chain);
    assert forall|u: int, v: int| #[trigger] g.has_edge(u, v) implies h.has_edge(u + 0, v + 0) by {
        let k = choose|k: int|
            0 <= k < g.nodes[u].edges.len() && (#[trigger] g.nodes[u].edges[k]).to.0 == v;
        assert(h.nodes[u].edges[k] == g.nodes[u].edges[k]);
    }
    assert forall|a: int, b: int| #[trigger] g.reaches(a, b) implies h.reaches(a, b) by {
        crate::merge::lemma_walks_carry_over(g, h, 0, a, b);
    }
    if g.edges_in_range() {
        assert forall|u: int, k: int|
            0 <= u < h.nodes.len() && 0 <= k < h.nodes[u].edges.len() implies (
        #[trigger] h.nodes[u].edges[k]).to.0 < h.nodes.len() by {
            assert(h.nodes[u].edges[k] == g.nodes[u].edges[k]);
        }
    }
}

/// Two different platforms other than the goal that can be reached from
/// the start make two sites.
pub proof fn lemma_two_sites(g: GraphView, a: NodeId, b: NodeId)
    requires
        g.edges_in_range(),
        g.start.0 < g.nodes.len(),
        g.reaches(g.start.0 as int, a.0 as int),
        g.reaches(g.start.0 as int, b.0 as int),
        a != b,
        a != g.goal,
        b != g.goal,
    ensures
        sites(g).len() >= 2,
{
    lemma_sites(g, a);
    lemma_sites(g, b);
    let i = choose|i: int| 0 <= i < sites(g).len() && sites(g)[i] == a;
    let j = choose|j: int| 0 <= j < sites(g).len() && sites(g)[j] == b;
    assert(i != j);
}

/// With two sites, a way to fetch water can always be added.
pub proof fn lemma_water_never_fails(
    g: GraphView,
    difficulty: Difficulty,
    chain: ChainView,
    rng: RngTrace,
)
    requires
        2 <= sites(g).len() <= usize::MAX,
    ensures
        with_water(g, difficulty, chain, rng) is Ok,
{
}

/// With two sites, the chain can always be built.
pub proof fn lemma_chain_never_fails(g: GraphView, difficulty: Difficulty, rng: RngTrace)
    requires
        2 <= sites(g).len() <= usize::MAX,
    ensures
        built_chain(g, difficulty, rng) is Ok,
{
    let chain = ChainView { nodes: Seq::empty(), goal: Effect::ContainerFilled(1) }.push(
        fill_step(1, g.goal),
    );
    lemma_water_never_fails(g, difficulty, chain, rng);
    let (after, later) = with_water(g, difficulty, chain, rng)->Ok_0;
    lemma_water_never_fails(g, difficulty, after.push(fill_step(0, g.goal)), later);
}

/// `without` never makes a list longer.
proof fn lemma_without_shorter(ids: Seq<NodeId>, excluded: NodeId)
    ensures
        without(ids, excluded).len() <= ids.len(),
    decreases ids.len(),
{
    if ids.len() > 0 {
        lemma_without_shorter(ids.drop_last(), excluded);
    }
}

/// A graph has no more sites than platforms.
pub proof fn lemma_sites_bounded(g: GraphView)
    requires
        g.edges_in_range(),
        g.start.0 < g.nodes.len(),
    ensures
        sites(g).len() <= g.nodes.len(),
{
    let order = g.dfs_order(g.start);
    crate::reach::lemma_dfs_order_is_reachable_set(g, g.start);
    lemma_without_shorter(order, g.goal);
    assert forall|i: int| 0 <= i < order.len() implies 0 <= (#[trigger] order[i]).0
        < g.nodes.len() by {
        assert(order.contains(order[i]));
        crate::reach::lemma_reachable_in_range(g, g.start.0 as int, order[i].0 as int);
    }
    lemma_distinct_ids_bounded(order, g.nodes.len());
}

/// A list of different ids below `bound` has no more than `bound`
/// entries.
proof fn lemma_distinct_ids_bounded(ids: Seq<NodeId>, bound: nat)
    requires
        ids.no_duplicates(),
        forall|i: int| 0 <= i < ids.len() ==> (#[trigger] ids[i]).0 < bound,
    ensures
        ids.len() <= bound,
    decreases bound,
{
    if ids.len() > 0 {
        if bound == 0 {
            assert(ids[0].0 < bound);
        } else {
            let top = NodeId((bound - 1) as usize);
            let rest = without(ids, top);
            lemma_without_counts(ids, top);
            assert forall|i: int| 0 <= i < rest.len() implies (#[trigger] rest[i]).0 < bound - 1 by {
                lemma_without(ids, top, rest[i]);
                assert(rest.contains(rest[i]));
                let j = choose|j: int| 0 <= j < ids.len() && ids[j] == rest[i];
                assert(ids[j].0 < bound);
            }
            lemma_distinct_ids_bounded(rest, (bound - 1) as nat);
        }
    }
}

/// Leaving one id out of a list of different ids shortens it by one at
/// most, and keeps the ids different.
proof fn lemma_without_counts(ids: Seq<NodeId>, excluded: NodeId)
    requires
        ids.no_duplicates(),
    ensures
        without(ids, excluded).no_duplicates(),
        without(ids, excluded).len() + 1 >= ids.len(),
        !ids.contains(excluded) ==> without(ids, excluded) == ids,
    decreases ids.len(),
{
    if ids.len() > 0 {
        let front = ids.drop_last();
        let kept = without(front, excluded);
        assert forall|i: int, j: int| 0 <= i < j < front.len() implies front[i] != front[j] by {
            assert(front[i] == ids[i] && front[j] == ids[j]);
        }
        lemma_without_counts(front, excluded);
        if ids.last() == excluded {
            assert(!front.contains(excluded)) by {
                if front.contains(excluded) {
                    let i = choose|i: int| 0 <= i < front.len() && front[i] == excluded;
                    assert(ids[i] == ids[ids.len() - 1]);
                }
            }
        } else {
            assert(!kept.contains(ids.last())) by {
                lemma_without(front, excluded, ids.last());
                if front.contains(ids.last()) {
                    let i = choose|i: int| 0 <= i < front.len() && front[i] == ids.last();
                    assert(ids[i] == ids[ids.len() - 1]);
                }
            }
            if !ids.contains(excluded) {
                assert(!front.contains(excluded)) by {
                    if front.contains(excluded) {
                        let i = choose|i: int| 0 <= i < front.len() && front[i] == excluded;
                        assert(ids[i] == excluded);
                    }
                }
                assert(kept.push(ids.last()) =~= ids);
            }
        }
    }
}

/// No platform is a site twice.
pub proof fn lemma_sites_distinct(g: GraphView)
    requires
        g.edges_in_range(),
        g.start.0 < g.nodes.len(),
    ensures
        sites(g).no_duplicates(),
{
    crate::reach::lemma_dfs_order_is_reachable_set(g, g.start);
    lemma_without_counts(g.dfs_order(g.start), g.goal);
}

} // verus!
