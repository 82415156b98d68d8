//! Placement of a topology on the tile grid: a breadth-first walk from the
//! start that sets each newly met platform beside the one it was met from.

use crate::graph::{Edge, GraphView, LayoutDirection, NodeId, NodeView, PlatformGraph, TILE_SIZE};
use crate::reach::{lemma_closed_set_holds_reachable, lemma_reaches_self, lemma_reaches_step};
use crate::rng::{RngTrace, SeededRng};
use std::collections::HashMap;
use std::collections::VecDeque;
use vstd::prelude::*;

verus! {

broadcast use vstd::std_specs::hash::group_hash_axioms;

/// Smallest gap between neighbouring platforms, in tiles.
pub const MIN_HORIZONTAL_SPACING_TILES: i32 = 2;

/// Largest gap between neighbouring platforms, in tiles.
pub const MAX_HORIZONTAL_SPACING_TILES: i32 = 4;

/// Furthest that a platform is set below its neighbour, in tiles.
pub const MIN_HEIGHT_DELTA_TILES: i32 = -2;

/// Furthest that a platform is set above its neighbour, in tiles.
pub const MAX_HEIGHT_DELTA_TILES: i32 = 2;

/// Highest rise that the player can jump, in tiles.
pub const MAX_JUMP_HEIGHT_TILES: i32 = 3;

/// Furthest that the player can jump, in tiles.
pub const MAX_JUMP_DISTANCE_TILES: i32 = 6;

/// Grid column of the start platform.
pub const START_GRID_X: i32 = 2;

/// Grid row of the start platform.
pub const START_GRID_Y: i32 = 0;

/// The most nodes that a graph can have for its layout to stay within the
/// range of grid coordinates.
pub const MAX_LAYOUT_NODES: usize = 165_191_048;

/// Where a platform stands on the grid: the tile of its lower left corner
/// and its size in tiles.
#[derive(Debug, Clone, Copy, PartialEq, Eq, Structural)]
pub struct PlatformLayout {
    pub grid_x: i32,
    pub grid_y: i32,
    pub width_tiles: i32,
    pub height_tiles: i32,
}

impl PlatformLayout {
    /// Centre of the platform in world units.
    pub fn center_world(&self) -> (center: (i64, i64))
        ensures
            center.0 == TILE_SIZE * self.grid_x + (TILE_SIZE / 2) * self.width_tiles,
            center.1 == TILE_SIZE * self.grid_y + (TILE_SIZE / 2) * self.height_tiles,
    {
        let tile = TILE_SIZE as i64;
        (
            tile * (self.grid_x as i64) + (tile / 2) * (self.width_tiles as i64),
            tile * (self.grid_y as i64) + (tile / 2) * (self.height_tiles as i64),
        )
    }

    /// Left edge in world units.
    pub fn left_edge_world(&self) -> (x: i64)
        ensures
            x == TILE_SIZE * self.grid_x,
    {
        (TILE_SIZE as i64) * (self.grid_x as i64)
    }

    /// Right edge in world units.
    pub fn right_edge_world(&self) -> (x: i64)
        ensures
            x == TILE_SIZE * (self.grid_x + self.width_tiles),
    {
        (TILE_SIZE as i64) * (self.grid_x as i64 + self.width_tiles as i64)
    }

    /// Bottom edge in world units.
    pub fn bottom_world(&self) -> (y: i64)
        ensures
            y == TILE_SIZE * self.grid_y,
    {
        (TILE_SIZE as i64) * (self.grid_y as i64)
    }

    /// Top edge in world units.
    pub fn top_world(&self) -> (y: i64)
        ensures
            y == TILE_SIZE * (self.grid_y + self.height_tiles),
    {
        (TILE_SIZE as i64) * (self.grid_y as i64 + self.height_tiles as i64)
    }
}

/// Whether a platform met in this direction is set to the right.
pub open spec fn moves_right(direction: LayoutDirection) -> bool {
    direction == LayoutDirection::Right || direction == LayoutDirection::RightUp || direction
        == LayoutDirection::RightDown
}

/// Which way a direction leans: up (1), down (-1), or neither (0).
pub open spec fn vertical_bias(direction: LayoutDirection) -> int {
    match direction {
        LayoutDirection::Right => 0,
        LayoutDirection::Left => 0,
        LayoutDirection::RightUp => 1,
        LayoutDirection::LeftUp => 1,
        LayoutDirection::RightDown => -1,
        LayoutDirection::LeftDown => -1,
    }
}

/// The larger of two integers.
pub open spec fn larger(a: int, b: int) -> int {
    if a >= b {
        a
    } else {
        b
    }
}

/// Where a platform of the given size is set when it is met from `from`
/// in `direction`, and the generator after the two draws this takes.
///
/// The gap to `from` is drawn from two to four tiles. The height differs
/// from that of `from` by a draw from zero to two tiles in the direction
/// of the bias, or from minus two to two where there is none, and never
/// goes below row zero. Where that leaves the platform more than a jump
/// away, it is set one row above `from` instead.
pub open spec fn place_next(
    from: PlatformLayout,
    width: int,
    height: int,
    direction: LayoutDirection,
    rng: RngTrace,
) -> (PlatformLayout, RngTrace) {
    let gap = rng.span(MIN_HORIZONTAL_SPACING_TILES, MAX_HORIZONTAL_SPACING_TILES);
    let rng = rng.after_span(MIN_HORIZONTAL_SPACING_TILES, MAX_HORIZONTAL_SPACING_TILES);
    let x = if moves_right(direction) {
        from.grid_x + from.width_tiles + gap
    } else {
        from.grid_x - gap - width
    };
    let bias = vertical_bias(direction);
    let delta = if bias != 0 {
        rng.span(0, MAX_HEIGHT_DELTA_TILES) * bias
    } else {
        rng.span(MIN_HEIGHT_DELTA_TILES, MAX_HEIGHT_DELTA_TILES) as int
    };
    let rng = if bias != 0 {
        rng.after_span(0, MAX_HEIGHT_DELTA_TILES)
    } else {
        rng.after_span(MIN_HEIGHT_DELTA_TILES, MAX_HEIGHT_DELTA_TILES)
    };
    let drawn_y = larger(from.grid_y + delta, 0);
    let distance = larger(x - from.grid_x, from.grid_x - x);
    let rise = drawn_y - from.grid_y;
    let y = if distance > MAX_JUMP_DISTANCE_TILES || rise > MAX_JUMP_HEIGHT_TILES {
        larger(from.grid_y + (MAX_HEIGHT_DELTA_TILES - 1), 0)
    } else {
        drawn_y
    };
    (
        PlatformLayout {
            grid_x: x as i32,
            grid_y: y as i32,
            width_tiles: width as i32,
            height_tiles: height as i32,
        },
        rng,
    )
}

/// How far a layout has come: the platforms placed so far, those whose
/// edges are still to be followed, and the generator.
pub struct LayoutProgress {
    pub placed: Map<usize, PlatformLayout>,
    pub queue: Seq<NodeId>,
    pub rng: RngTrace,
}

/// How many of the first `n` node ids have no place yet.
pub open spec fn unplaced_count(placed: Map<usize, PlatformLayout>, n: nat) -> nat
    decreases n,
{
    if n == 0 {
        0
    } else {
        unplaced_count(placed, (n - 1) as nat) + if n - 1 <= usize::MAX && !placed.contains_key(
            (n - 1) as usize,
        ) {
            1nat
        } else {
            0nat
        }
    }
}

/// Follows `edges`, which leave the platform placed at `from`, one after
/// the other: a target that has no place yet is set next to `from` and
/// joins the queue; a target that has one is passed over.
pub open spec fn place_edges(
    g: GraphView,
    from: PlatformLayout,
    edges: Seq<Edge>,
    progress: LayoutProgress,
) -> LayoutProgress
    decreases edges.len(),
{
    if edges.len() == 0 {
        progress
    } else {
        let to = edges.first().to;
        let next = if to.0 >= g.nodes.len() || progress.placed.contains_key(to.0) {
            progress
        } else {
            let node = g.nodes[to.0 as int];
            let (layout, rng) = place_next(
                from,
                node.width_tiles(),
                node.height_tiles(),
                edges.first().connection_type.spec_direction(),
                progress.rng,
            );
            LayoutProgress {
                placed: progress.placed.insert(to.0, layout),
                queue: progress.queue.push(to),
                rng,
            }
        };
        place_edges(g, from, edges.drop_first(), next)
    }
}

/// The layout at the start of the walk: the start platform alone, at its
/// fixed place.
pub open spec fn layout_start(g: GraphView, seed: u64) -> LayoutProgress {
    let start = g.nodes[g.start.0 as int];
    LayoutProgress {
        placed: Map::empty().insert(
            g.start.0,
            PlatformLayout {
                grid_x: START_GRID_X,
                grid_y: START_GRID_Y,
                width_tiles: start.width_tiles() as i32,
                height_tiles: start.height_tiles() as i32,
            },
        ),
        queue: seq![g.start],
        rng: RngTrace::fresh(seed),
    }
}

impl GraphView {
    /// The places that the rest of the walk leaves behind.
    pub open spec fn layout_from(self, progress: LayoutProgress) -> Map<usize, PlatformLayout>
        decreases unplaced_count(progress.placed, self.nodes.len()), progress.queue.len(),
    {
        if progress.queue.len() == 0 {
            progress.placed
        } else {
            let current = progress.queue.first();
            let waiting = LayoutProgress { queue: progress.queue.drop_first(), ..progress };
            if current.0 < self.nodes.len() && progress.placed.contains_key(current.0) {
                let from = progress.placed[current.0];
                let edges = self.nodes[current.0 as int].edges;
                proof {
                    lemma_place_edges_progress(self, from, edges, waiting);
                }
                self.layout_from(place_edges(self, from, edges, waiting))
            } else {
                self.layout_from(waiting)
            }
        }
    }

    /// The place of every platform that can be reached from the start, for
    /// the given seed.
    pub open spec fn layout(self, seed: u64) -> Map<usize, PlatformLayout> {
        self.layout_from(layout_start(self, seed))
    }
}

/// Giving a place to a node that had none leaves one node fewer without.
pub proof fn lemma_placing_counts(
    placed: Map<usize, PlatformLayout>,
    n: nat,
    id: usize,
    layout: PlatformLayout,
)
    requires
        !placed.contains_key(id),
    ensures
        id < n ==> unplaced_count(placed.insert(id, layout), n) + 1 == unplaced_count(placed, n),
        id >= n ==> unplaced_count(placed.insert(id, layout), n) == unplaced_count(placed, n),
    decreases n,
{
    if n > 0 {
        lemma_placing_counts(placed, (n - 1) as nat, id, layout);
    }
}

/// Following edges either places a node or leaves the queue as it was.
pub proof fn lemma_place_edges_progress(
    g: GraphView,
    from: PlatformLayout,
    edges: Seq<Edge>,
    progress: LayoutProgress,
)
    ensures
        ({
            let after = place_edges(g, from, edges, progress);
            let n = g.nodes.len();
            unplaced_count(after.placed, n) < unplaced_count(progress.placed, n) || (
            unplaced_count(after.placed, n) == unplaced_count(progress.placed, n) && after.queue
                == progress.queue)
        }),
    decreases edges.len(),
{
    if edges.len() > 0 {
        let to = edges.first().to;
        if to.0 >= g.nodes.len() || progress.placed.contains_key(to.0) {
            lemma_place_edges_progress(g, from, edges.drop_first(), progress);
        } else {
            let node = g.nodes[to.0 as int];
            let (layout, rng) = place_next(
                from,
                node.width_tiles(),
                node.height_tiles(),
                edges.first().connection_type.spec_direction(),
                progress.rng,
            );
            let next = LayoutProgress {
                placed: progress.placed.insert(to.0, layout),
                queue: progress.queue.push(to),
                rng,
            };
            lemma_placing_counts(progress.placed, g.nodes.len(), to.0, layout);
            lemma_place_edges_progress(g, from, edges.drop_first(), next);
        }
    }
}

/// What holds between the steps of a layout walk, as far as it concerns
/// which platforms are placed. While the edges of `current` are being
/// followed, only its first `followed` edges are known to lead to placed
/// platforms.
spec fn walk_sound(g: GraphView, progress: LayoutProgress, current: usize, followed: int) -> bool {
    &&& g.edges_in_range()
    &&& g.start.0 < g.nodes.len()
    &&& progress.placed.contains_key(g.start.0)
    &&& forall|id: usize| #[trigger]
        progress.placed.contains_key(id) ==> id < g.nodes.len() && g.reaches(
            g.start.0 as int,
            id as int,
        )
    &&& forall|i: int|
        0 <= i < progress.queue.len() ==> (#[trigger] progress.queue[i]).0 < g.nodes.len()
            && progress.placed.contains_key(progress.queue[i].0)
    &&& forall|u: usize, k: int|
        progress.placed.contains_key(u) && !progress.queue.contains(NodeId(u)) && 0 <= k
            < g.nodes[u as int].edges.len() && (u != current || k < followed)
            ==> progress.placed.contains_key((#[trigger] g.nodes[u as int].edges[k]).to.0)
}

/// What holds between the steps of a layout walk while no platform's edges
/// are being followed.
spec fn fully_sound(g: GraphView, progress: LayoutProgress) -> bool {
    walk_sound(g, progress, 0, g.nodes[0].edges.len() as int)
}

/// Following the edges of a placed platform keeps the walk sound, and
/// leaves every edge of that platform leading to a placed one.
proof fn lemma_follow_edges(
    g: GraphView,
    from: PlatformLayout,
    current: usize,
    followed: int,
    progress: LayoutProgress,
)
    requires
        walk_sound(g, progress, current, followed),
        progress.placed.contains_key(current),
        0 <= followed <= g.nodes[current as int].edges.len(),
    ensures
        walk_sound(
            g,
            place_edges(g, from, g.nodes[current as int].edges.skip(followed), progress),
            current,
            g.nodes[current as int].edges.len() as int,
        ),
    decreases g.nodes[current as int].edges.len() - followed,
{
    let all = g.nodes[current as int].edges;
    let edges = all.skip(followed);
    if followed < all.len() {
        let edge = all[followed];
        let to = edge.to;
        assert(edges.first() == edge);
        assert(edges.drop_first() =~= all.skip(followed + 1));
        assert(to.0 < g.nodes.len());
        if progress.placed.contains_key(to.0) {
            lemma_follow_edges(g, from, current, followed + 1, progress);
        } else {
            let node = g.nodes[to.0 as int];
            let (layout, rng) = place_next(
                from,
                node.width_tiles(),
                node.height_tiles(),
                edge.connection_type.spec_direction(),
                progress.rng,
            );
            let next = LayoutProgress {
                placed: progress.placed.insert(to.0, layout),
                queue: progress.queue.push(to),
                rng,
            };
            assert(g.has_edge(current as int, to.0 as int));
            lemma_reaches_step(g, g.start.0 as int, current as int, to.0 as int);
            assert forall|i: int| 0 <= i < next.queue.len() implies (#[trigger] next.queue[i]).0
                < g.nodes.len() && next.placed.contains_key(next.queue[i].0) by {
                if i < progress.queue.len() {
                    assert(next.queue[i] == progress.queue[i]);
                }
            }
            assert forall|u: usize, k: int|
                next.placed.contains_key(u) && !next.queue.contains(NodeId(u)) && 0 <= k
                    < g.nodes[u as int].edges.len() && (u != current || k < followed + 1)
                    implies next.placed.contains_key(
                (#[trigger] g.nodes[u as int].edges[k]).to.0,
            ) by {
                assert(next.queue[progress.queue.len() as int] == to);
                if u == to.0 {
                    assert(next.queue.contains(NodeId(u)));
                } else if u == current && k == followed {
                } else {
                    if progress.queue.contains(NodeId(u)) {
                        let i = choose|i: int|
                            0 <= i < progress.queue.len() && progress.queue[i] == NodeId(u);
                        assert(next.queue[i] == NodeId(u));
                    }
                    assert(progress.placed.contains_key(g.nodes[u as int].edges[k].to.0));
                }
            }
            lemma_follow_edges(g, from, current, followed + 1, next);
        }
    } else {
        assert(edges =~= Seq::empty());
    }
}

/// The walk ends with exactly the platforms that the start reaches.
proof fn lemma_layout_walk(g: GraphView, progress: LayoutProgress)
    requires
        fully_sound(g, progress),
    ensures
        forall|id: usize| #[trigger]
            g.layout_from(progress).contains_key(id) <==> g.reaches(g.start.0 as int, id as int),
    decreases unplaced_count(progress.placed, g.nodes.len()), progress.queue.len(),
{
    if progress.queue.len() == 0 {
        let inside = Set::new(
            |v: int|
                0 <= v < g.nodes.len() && v <= usize::MAX && progress.placed.contains_key(
                    v as usize,
                ),
        );
        assert forall|u: int, v: int| inside.contains(u) && #[trigger] g.has_edge(u, v) implies inside.contains(v) by {
            let k = choose|k: int|
                0 <= k < g.nodes[u].edges.len() && (#[trigger] g.nodes[u].edges[k]).to.0 == v;
            let id = u as usize;
            assert(g.nodes[id as int].edges[k].to.0 < g.nodes.len());
            assert(progress.placed.contains_key(g.nodes[id as int].edges[k].to.0));
        }
        assert(g.layout_from(progress) == progress.placed);
        assert forall|id: usize| #[trigger]
            progress.placed.contains_key(id) <==> g.reaches(g.start.0 as int, id as int) by {
            if g.reaches(g.start.0 as int, id as int) {
                lemma_closed_set_holds_reachable(g, inside, g.start.0 as int, id as int);
                assert(inside.contains(id as int));
            }
        }
    } else {
        let current = progress.queue.first();
        let waiting = LayoutProgress { queue: progress.queue.drop_first(), ..progress };
        assert(progress.queue[0] == current);
        let from = progress.placed[current.0];
        let edges = g.nodes[current.0 as int].edges;
        assert forall|i: int| 0 <= i < waiting.queue.len() implies (#[trigger] waiting.queue[i]).0
            < g.nodes.len() && waiting.placed.contains_key(waiting.queue[i].0) by {
            assert(waiting.queue[i] == progress.queue[i + 1]);
        }
        assert forall|u: usize, k: int|
            waiting.placed.contains_key(u) && !waiting.queue.contains(NodeId(u)) && 0 <= k
                < g.nodes[u as int].edges.len() && (u != current.0 || k < 0)
                implies waiting.placed.contains_key(
            (#[trigger] g.nodes[u as int].edges[k]).to.0,
        ) by {
            if progress.queue.contains(NodeId(u)) {
                let i = choose|i: int|
                    0 <= i < progress.queue.len() && progress.queue[i] == NodeId(u);
                assert(i > 0);
                assert(waiting.queue[i - 1] == NodeId(u));
            }
        }
        assert(walk_sound(g, waiting, current.0, 0));
        assert(edges.skip(0) =~= edges);
        lemma_follow_edges(g, from, current.0, 0, waiting);
        lemma_place_edges_progress(g, from, edges, waiting);
        let after = place_edges(g, from, edges, waiting);
        assert(fully_sound(g, after));
        lemma_layout_walk(g, after);
        assert(g.layout_from(progress) == g.layout_from(after));
    }
}

/// A layout places exactly the platforms that can be reached from the
/// start.
pub proof fn lemma_layout_covers_reachable(g: GraphView, seed: u64)
    requires
        g.edges_in_range(),
        g.start.0 < g.nodes.len(),
    ensures
        forall|id: usize| #[trigger]
            g.layout(seed).contains_key(id) <==> g.reaches(g.start.0 as int, id as int),
{
    let progress = layout_start(g, seed);
    lemma_reaches_self(g, g.start.0 as int);
    assert(progress.queue[0] == g.start);
    assert(progress.queue.contains(g.start));
    assert(fully_sound(g, progress));
    lemma_layout_walk(g, progress);
}

/// How many of the first `n` node ids have a place.
pub open spec fn placed_count(placed: Map<usize, PlatformLayout>, n: nat) -> int {
    n - unplaced_count(placed, n)
}

/// No more than `n` of the first `n` ids are without a place.
proof fn lemma_unplaced_bound(placed: Map<usize, PlatformLayout>, n: nat)
    ensures
        unplaced_count(placed, n) <= n,
    decreases n,
{
    if n > 0 {
        lemma_unplaced_bound(placed, (n - 1) as nat);
    }
}

/// A place fits its platform, lies on or above row zero, and is no
/// further from the start than `budget` placements can take it.
pub open spec fn placement_sound(node: NodeView, layout: PlatformLayout, budget: int) -> bool {
    &&& layout.width_tiles == node.width_tiles()
    &&& layout.height_tiles == node.height_tiles()
    &&& 0 <= layout.grid_y <= 2 * budget
    &&& -13 * budget <= layout.grid_x - START_GRID_X <= 13 * budget
}

/// A platform placed at `to` lies within reach of one placed at `from`: no
/// more than two rows above it and no more than thirteen columns away,
/// and where it is further than a jump away, exactly one row above.
pub open spec fn within_reach(from: PlatformLayout, to: PlatformLayout) -> bool {
    &&& to.grid_y - from.grid_y <= MAX_HEIGHT_DELTA_TILES
    &&& -13 <= to.grid_x - from.grid_x <= 13
    &&& (to.grid_x - from.grid_x > MAX_JUMP_DISTANCE_TILES || from.grid_x - to.grid_x
        > MAX_JUMP_DISTANCE_TILES) ==> to.grid_y == from.grid_y + (MAX_HEIGHT_DELTA_TILES - 1)
}

/// Platform `id` is the start, or lies within reach of a placed platform
/// that has an edge to it.
pub open spec fn anchored(g: GraphView, placed: Map<usize, PlatformLayout>, id: usize) -> bool {
    id == g.start.0 || exists|from: usize|
        placed.contains_key(from) && #[trigger] g.has_edge(from as int, id as int) && within_reach(
            placed[from],
            placed[id],
        )
}

/// Every placed platform but the start lies within reach of a placed
/// platform that has an edge to it.
pub open spec fn all_anchored(g: GraphView, placed: Map<usize, PlatformLayout>) -> bool {
    forall|id: usize| placed.contains_key(id) ==> #[trigger] anchored(g, placed, id)
}

/// Every place fits its platform and lies within the reach of the
/// placements made so far.
pub open spec fn grid_sound(g: GraphView, placed: Map<usize, PlatformLayout>) -> bool {
    forall|id: usize| #[trigger]
        placed.contains_key(id) ==> id < g.nodes.len() && placement_sound(
            g.nodes[id as int],
            placed[id],
            placed_count(placed, g.nodes.len()),
        )
}

/// Sets a platform of the given size next to `from`.
fn place_beside(
    from: &PlatformLayout,
    width: i32,
    height: i32,
    direction: LayoutDirection,
    rng: &mut SeededRng,
) -> (next: PlatformLayout)
    requires
        i32::MIN + 13 <= from.grid_x <= i32::MAX - 13,
        0 <= from.grid_y <= i32::MAX - 2,
        0 <= from.width_tiles <= 9,
        0 <= width <= 9,
    ensures
        (next, final(rng)@) == place_next(*from, width as int, height as int, direction, old(rng)@),
        next.width_tiles == width,
        next.height_tiles == height,
        from.grid_x - 13 <= next.grid_x <= from.grid_x + 13,
        0 <= next.grid_y <= from.grid_y + 2,
        within_reach(*from, next),
{
    let (x_direction, y_bias): (i32, i32) = match direction {
        LayoutDirection::Right => (1, 0),
        LayoutDirection::Left => (-1, 0),
        LayoutDirection::RightUp => (1, 1),
        LayoutDirection::LeftUp => (-1, 1),
        LayoutDirection::RightDown => (1, -1),
        LayoutDirection::LeftDown => (-1, -1),
    };
    // The gap runs from edge to edge.
    let gap_tiles: i32 = rng.span(MIN_HORIZONTAL_SPACING_TILES, MAX_HORIZONTAL_SPACING_TILES);
    let next_grid_x: i32 = if x_direction > 0 {
        from.grid_x + from.width_tiles + gap_tiles
    } else {
        from.grid_x - gap_tiles - width
    };
    let y_delta: i32 = if y_bias != 0 {
        let drawn: i32 = rng.span(0, MAX_HEIGHT_DELTA_TILES);
        assert(-2 <= drawn * y_bias <= 2) by (nonlinear_arith)
            requires
                0 <= drawn <= 2,
                -1 <= y_bias <= 1,
        ;
        drawn * y_bias
    } else {
        rng.span(MIN_HEIGHT_DELTA_TILES, MAX_HEIGHT_DELTA_TILES)
    };
    let mut next_grid_y: i32 = from.grid_y + y_delta;
    if next_grid_y < 0 {
        next_grid_y = 0;
    }
    let horizontal_dist: i32 = if next_grid_x >= from.grid_x {
        next_grid_x - from.grid_x
    } else {
        from.grid_x - next_grid_x
    };
    let vertical_dist: i32 = next_grid_y - from.grid_y;
    if horizontal_dist > MAX_JUMP_DISTANCE_TILES || vertical_dist > MAX_JUMP_HEIGHT_TILES {
        // Too far to jump: bring it close to the height it is met from.
        next_grid_y = from.grid_y + (MAX_HEIGHT_DELTA_TILES - 1);
        if next_grid_y < 0 {
            next_grid_y = 0;
        }
    }
    PlatformLayout {
        grid_x: next_grid_x,
        grid_y: next_grid_y,
        width_tiles: width,
        height_tiles: height,
    }
}

/// The three parts of a layout walk as one value.
pub open spec fn progress_of(
    layouts: Map<usize, PlatformLayout>,
    queue: Seq<NodeId>,
    rng: RngTrace,
) -> LayoutProgress {
    LayoutProgress { placed: layouts, queue, rng }
}

impl PlatformGraph {
    /// Follows the edges of `current`, which is placed at `from`.
    fn place_neighbors(
        &self,
        current: NodeId,
        from: PlatformLayout,
        layouts: &mut HashMap<usize, PlatformLayout>,
        queue: &mut VecDeque<NodeId>,
        rng: &mut SeededRng,
    )
        requires
            self@.edges_in_range(),
            self.nodes.len() <= MAX_LAYOUT_NODES,
            current.0 < self.nodes.len(),
            old(layouts)@.contains_key(current.0),
            old(layouts)@[current.0] == from,
            grid_sound(self@, old(layouts)@),
            all_anchored(self@, old(layouts)@),
            forall|i: int|
                0 <= i < old(queue)@.len() ==> (#[trigger] old(queue)@[i]).0 < self.nodes.len()
                    && old(layouts)@.contains_key(old(queue)@[i].0),
        ensures
            progress_of(final(layouts)@, final(queue)@, final(rng)@) == place_edges(
                self@,
                from,
                self@.nodes[current.0 as int].edges,
                progress_of(old(layouts)@, old(queue)@, old(rng)@),
            ),
            grid_sound(self@, final(layouts)@),
            all_anchored(self@, final(layouts)@),
            forall|i: int|
                0 <= i < final(queue)@.len() ==> (#[trigger] final(queue)@[i]).0 < self.nodes.len()
                    && final(layouts)@.contains_key(final(queue)@[i].0),
            forall|id: usize| #[trigger]
                old(layouts)@.contains_key(id) ==> final(layouts)@.contains_key(id)
                    && final(layouts)@[id] == old(layouts)@[id],
    {
        let count = self.nodes.len();
        let edges = &self.nodes[current.0].edges;
        let ghost all = self@.nodes[current.0 as int].edges;
        let ghost begun = progress_of(layouts@, queue@, rng@);
        assert(edges@ == all);
        assert(all.skip(0) =~= all);
        let mut k: usize = 0;
        while k < edges.len()
            invariant
                self@.edges_in_range(),
                count == self.nodes.len(),
                count <= MAX_LAYOUT_NODES,
                current.0 < count,
                edges@ == all,
                all == self@.nodes[current.0 as int].edges,
                k <= edges.len(),
                place_edges(self@, from, all.skip(k as int), progress_of(layouts@, queue@, rng@))
                    == place_edges(self@, from, all, begun),
                layouts@.contains_key(current.0),
                layouts@[current.0] == from,
                grid_sound(self@, layouts@),
                all_anchored(self@, layouts@),
                forall|i: int|
                    0 <= i < queue@.len() ==> (#[trigger] queue@[i]).0 < count
                        && layouts@.contains_key(queue@[i].0),
                forall|id: usize| #[trigger]
                    old(layouts)@.contains_key(id) ==> layouts@.contains_key(id) && layouts@[id]
                        == old(layouts)@[id],
            decreases edges.len() - k,
        {
            let edge = edges[k];
            let to = edge.to;
            proof {
                assert(all.skip(k as int).first() == edge);
                assert(all.skip(k as int).drop_first() =~= all.skip(k + 1));
                assert(self@.nodes[current.0 as int].edges[k as int].to.0 < count);
            }
            if !layouts.contains_key(&to.0) {
                let next_node = &self.nodes[to.0];
                assert(next_node@ == self@.nodes[to.0 as int]);
                let next_width_tiles: i32 = next_node.calculate_width() / TILE_SIZE;
                let next_height_tiles: i32 = next_node.calculate_height() as i32;
                let direction = edge.connection_type.direction();
                let ghost placed = layouts@;
                let ghost waiting = queue@;
                proof {
                    lemma_unplaced_bound(placed, count as nat);
                    lemma_placing_counts(
                        placed,
                        count as nat,
                        to.0,
                        place_next(
                            from,
                            next_width_tiles as int,
                            next_height_tiles as int,
                            direction,
                            rng@,
                        ).0,
                    );
                }
                let next_layout = place_beside(
                    &from,
                    next_width_tiles,
                    next_height_tiles,
                    direction,
                    rng,
                );
                layouts.insert(to.0, next_layout);
                queue.push_back(to);
                proof {
                    assert forall|id: usize| #[trigger] layouts@.contains_key(id) implies id < count
                        && placement_sound(
                        self@.nodes[id as int],
                        layouts@[id],
                        placed_count(layouts@, count as nat),
                    ) by {
                        if id != to.0 {
                            assert(placed.contains_key(id));
                        }
                    }
                    assert forall|i: int| 0 <= i < queue@.len() implies (#[trigger] queue@[i]).0
                        < count && layouts@.contains_key(queue@[i].0) by {
                        if i < waiting.len() {
                            assert(queue@[i] == waiting[i]);
                        }
                    }
                    assert forall|id: usize| layouts@.contains_key(id) implies #[trigger] anchored(
                        self@,
                        layouts@,
                        id,
                    ) by {
                        if id == to.0 {
                            assert(self@.nodes[current.0 as int].edges[k as int].to.0 == to.0);
                            assert(self@.has_edge(current.0 as int, to.0 as int));
                        } else {
                            assert(anchored(self@, placed, id));
                            if id != self.start.0 {
                                let from_id = choose|from_id: usize|
                                    placed.contains_key(from_id) && #[trigger] self@.has_edge(
                                        from_id as int,
                                        id as int,
                                    ) && within_reach(placed[from_id], placed[id]);
                                assert(layouts@.contains_key(from_id));
                            }
                        }
                    }
                }
            }
            k += 1;
        }
        assert(all.skip(k as int) =~= Seq::empty());
    }

    /// Places every platform that can be reached from the start on the
    /// tile grid, keyed by node index. The start stands at column two, row
    /// zero; every other platform is set beside the platform it is first
    /// met from, in the direction its edge gives, at a gap and height
    /// drawn from a generator made from `seed`. No platform lies below row
    /// zero, every platform but the start lies within reach of a placed
    /// platform that leads to it, and the same graph and seed always give
    /// the same layout.
    pub fn generate_layout(&self, seed: u64) -> (layouts: HashMap<usize, PlatformLayout>)
        requires
            self@.edges_in_range(),
            self.start.0 < self.nodes.len(),
            self.nodes.len() <= MAX_LAYOUT_NODES,
        ensures
            layouts@ == self@.layout(seed),
            forall|id: usize| #[trigger]
                layouts@.contains_key(id) <==> self@.reaches(self.start.0 as int, id as int),
            forall|id: usize| #[trigger]
                layouts@.contains_key(id) ==> {
                    &&& id < self.nodes.len()
                    &&& layouts@[id].grid_y >= 0
                    &&& layouts@[id].width_tiles == self@.nodes[id as int].width_tiles()
                    &&& layouts@[id].height_tiles == self@.nodes[id as int].height_tiles()
                },
            layouts@[self.start.0].grid_x == START_GRID_X,
            layouts@[self.start.0].grid_y == START_GRID_Y,
            all_anchored(self@, layouts@),
    {
        let count = self.nodes.len();
        let mut rng = SeededRng::from_seed(seed);
        let mut layouts: HashMap<usize, PlatformLayout> = HashMap::new();

        let start_node = &self.nodes[self.start.0];
        assert(start_node@ == self@.nodes[self.start.0 as int]);
        let start_width_tiles: i32 = start_node.calculate_width() / TILE_SIZE;
        let start_height_tiles: i32 = start_node.calculate_height() as i32;
        let start_layout = PlatformLayout {
            grid_x: START_GRID_X,
            grid_y: START_GRID_Y,
            width_tiles: start_width_tiles,
            height_tiles: start_height_tiles,
        };
        layouts.insert(self.start.0, start_layout);

        let mut queue: VecDeque<NodeId> = VecDeque::new();
        queue.push_back(self.start);
        proof {
            assert(queue@ =~= seq![self.start]);
            assert(progress_of(layouts@, queue@, rng@) == layout_start(self@, seed));
            lemma_unplaced_bound(layouts@, count as nat);
        }
        while queue.len() > 0
            invariant
                self@.edges_in_range(),
                count == self.nodes.len(),
                count <= MAX_LAYOUT_NODES,
                self.start.0 < count,
                self@.layout_from(progress_of(layouts@, queue@, rng@)) == self@.layout(seed),
                grid_sound(self@, layouts@),
                all_anchored(self@, layouts@),
                layouts@.contains_key(self.start.0),
                layouts@[self.start.0] == start_layout,
                forall|i: int|
                    0 <= i < queue@.len() ==> (#[trigger] queue@[i]).0 < count
                        && layouts@.contains_key(queue@[i].0),
            decreases unplaced_count(layouts@, count as nat), queue@.len(),
        {
            let ghost before = progress_of(layouts@, queue@, rng@);
            let current = queue.pop_front().unwrap();
            assert(current == before.queue[0]);
            assert(queue@ =~= before.queue.drop_first());
            let current_layout = *layouts.get(&current.0).unwrap();
            proof {
                assert forall|i: int| 0 <= i < queue@.len() implies (#[trigger] queue@[i]).0
                    < count && layouts@.contains_key(queue@[i].0) by {
                    assert(queue@[i] == before.queue[i + 1]);
                }
                lemma_place_edges_progress(
                    self@,
                    current_layout,
                    self@.nodes[current.0 as int].edges,
                    progress_of(layouts@, queue@, rng@),
                );
            }
            self.place_neighbors(current, current_layout, &mut layouts, &mut queue, &mut rng);
        }
        proof {
            lemma_layout_covers_reachable(self@, seed);
        }
        layouts
    }
}

} // verus!
