//! The platform topology: nodes, directed edges, and the footprint that a
//! platform needs on the tile grid.

use vstd::prelude::*;

verus! {

/// Side length of one grid tile, in world units.
pub const TILE_SIZE: i32 = 32;

/// World height of the floor that grounded platforms are supported from.
pub const GROUND_LEVEL: i32 = -64;

/// Height of the boundary walls on start and goal platforms, in tiles.
pub const WALL_HEIGHT: i32 = 5;

/// Width in tiles of a platform that carries water or bounds the level.
pub const WIDE_PLATFORM_TILES: i32 = 9;

/// Width in tiles of every other platform.
pub const STANDARD_PLATFORM_TILES: i32 = 4;

/// Index of a platform within the node sequence of its graph.
#[derive(Debug, Clone, Copy, PartialEq, Eq, Hash, Structural)]
pub struct NodeId(pub usize);

/// Geometric hint for where a connected platform is placed. It guides the
/// layout only and plays no part in reachability.
#[derive(Debug, Clone, Copy, PartialEq, Eq, Structural)]
pub enum LayoutDirection {
    /// Level with the source, to its right.
    Right,
    /// Level with the source, to its left.
    Left,
    /// Above and to the right.
    RightUp,
    /// Above and to the left.
    LeftUp,
    /// Below and to the right.
    RightDown,
    /// Below and to the left.
    LeftDown,
}

impl Default for LayoutDirection {
    fn default() -> (d: Self)
        ensures
            d == LayoutDirection::Right,
    {
        LayoutDirection::Right
    }
}

/// How an edge is traversed.
#[derive(Debug, Clone, Copy, PartialEq, Eq, Structural)]
pub enum ConnectionType {
    /// A jump that is always possible.
    Jump { direction: LayoutDirection },
    /// A one-way drop.
    Fall { direction: LayoutDirection },
    /// Passable while a moving platform is active. `platform_entity` is the
    /// raw id of the actor that carries the player, once one exists.
    MovingPlatform { platform_entity: Option<u64>, required: bool, direction: LayoutDirection },
}

impl ConnectionType {
    /// The layout hint carried by this connection.
    pub open spec fn spec_direction(self) -> LayoutDirection {
        match self {
            ConnectionType::Jump { direction } => direction,
            ConnectionType::Fall { direction } => direction,
            ConnectionType::MovingPlatform { direction, .. } => direction,
        }
    }

    /// The layout hint carried by this connection.
    pub fn direction(&self) -> (d: LayoutDirection)
        ensures
            d == self.spec_direction(),
    {
        match self {
            ConnectionType::Jump { direction } => *direction,
            ConnectionType::Fall { direction } => *direction,
            ConnectionType::MovingPlatform { direction, .. } => *direction,
        }
    }
}

/// A directed connection to another platform.
#[derive(Debug, Clone, Copy, PartialEq, Eq, Structural)]
pub struct Edge {
    pub to: NodeId,
    pub connection_type: ConnectionType,
}

/// Structural role of a platform.
#[derive(Debug, Clone, Copy, PartialEq, Eq, Structural)]
pub enum PlatformType {
    /// Nothing but the platform tiles.
    Floating,
    /// Supported by a column down to the world floor.
    Grounded,
    /// Where the player begins; walled on the left.
    Start,
    /// Where the level ends; walled on the right.
    Goal,
}

impl Default for PlatformType {
    fn default() -> (t: Self)
        ensures
            t == PlatformType::Floating,
    {
        PlatformType::Floating
    }
}

/// A puzzle element that can stand on a platform.
#[derive(Debug, Clone, Copy, PartialEq, Eq, Structural)]
pub enum SmartTerrain {
    /// Water without end.
    WaterSource,
    /// Snow without end.
    SnowSource,
    /// A fire behind a wall: it bars the way until it is put out.
    BlockingFire { extinguished: bool },
    /// A fire that melts snow to water.
    SnowMeltFire { extinguished: bool },
    /// The container that ends the level once it has been filled `target` times.
    GoalContainer { fill_count: u8, target: u8 },
    /// A container that activates something when filled.
    SwitchContainer { filled: bool, activates: NodeId },
    /// A switch that activates something when pressed.
    Switch { activated: bool, activates: NodeId },
    /// A moving platform.
    MovingPlatform { active: bool },
}

impl SmartTerrain {
    pub open spec fn is_goal_container(self) -> bool {
        self is GoalContainer
    }
}

/// Whether a terrain list holds a water source.
pub open spec fn holds_water(terrain: Seq<SmartTerrain>) -> bool {
    exists|i: int| 0 <= i < terrain.len() && terrain[i] == SmartTerrain::WaterSource
}

/// Whether a terrain list holds a goal container, whatever its fill state.
pub open spec fn holds_goal_container(terrain: Seq<SmartTerrain>) -> bool {
    exists|i: int| 0 <= i < terrain.len() && (#[trigger] terrain[i]).is_goal_container()
}

/// A platform as contracts see it.
pub struct NodeView {
    pub edges: Seq<Edge>,
    pub terrain_objects: Seq<SmartTerrain>,
    pub platform_type: PlatformType,
}

impl NodeView {
    /// A platform of the given role with nothing on it and no way out.
    pub open spec fn bare(platform_type: PlatformType) -> NodeView {
        NodeView { edges: Seq::empty(), terrain_objects: Seq::empty(), platform_type }
    }

    pub open spec fn with_edge(self, edge: Edge) -> NodeView {
        NodeView { edges: self.edges.push(edge), ..self }
    }

    pub open spec fn with_terrain(self, terrain: SmartTerrain) -> NodeView {
        NodeView { terrain_objects: self.terrain_objects.push(terrain), ..self }
    }

    pub open spec fn with_type(self, platform_type: PlatformType) -> NodeView {
        NodeView { platform_type, ..self }
    }

    /// Start and goal platforms, and platforms that carry water, are wide
    /// and two tiles tall.
    pub open spec fn is_wide(self) -> bool {
        self.platform_type == PlatformType::Start || self.platform_type == PlatformType::Goal
            || holds_water(self.terrain_objects)
    }

    /// Required width in tiles.
    pub open spec fn width_tiles(self) -> int {
        if self.is_wide() {
            WIDE_PLATFORM_TILES as int
        } else {
            STANDARD_PLATFORM_TILES as int
        }
    }

    /// Required height in tiles.
    pub open spec fn height_tiles(self) -> int {
        if self.is_wide() {
            2
        } else {
            1
        }
    }
}

/// One platform: its outgoing edges, the puzzle elements on it, and its role.
#[derive(Debug, Clone)]
pub struct PlatformNode {
    /// Connections to other platforms.
    pub edges: Vec<Edge>,
    /// Puzzle elements placed on this platform.
    pub terrain_objects: Vec<SmartTerrain>,
    /// Structural role.
    pub platform_type: PlatformType,
}

impl View for PlatformNode {
    type V = NodeView;

    open spec fn view(&self) -> NodeView {
        NodeView {
            edges: self.edges@,
            terrain_objects: self.terrain_objects@,
            platform_type: self.platform_type,
        }
    }
}

impl PlatformNode {
    /// A floating platform with nothing on it.
    pub fn new() -> (node: Self)
        ensures
            node@ == NodeView::bare(PlatformType::Floating),
    {
        PlatformNode {
            edges: Vec::new(),
            terrain_objects: Vec::new(),
            platform_type: PlatformType::Floating,
        }
    }

    /// A platform of the given role with nothing on it.
    pub fn with_type(platform_type: PlatformType) -> (node: Self)
        ensures
            node@ == NodeView::bare(platform_type),
    {
        PlatformNode { edges: Vec::new(), terrain_objects: Vec::new(), platform_type }
    }

    /// Appends an outgoing edge.
    pub fn add_edge(&mut self, to: NodeId, connection_type: ConnectionType)
        ensures
            final(self)@ == old(self)@.with_edge(Edge { to, connection_type }),
    {
        self.edges.push(Edge { to, connection_type });
    }

    /// Appends a puzzle element.
    pub fn add_terrain(&mut self, terrain: SmartTerrain)
        ensures
            final(self)@ == old(self)@.with_terrain(terrain),
    {
        self.terrain_objects.push(terrain);
    }

    /// Whether a water source stands on this platform.
    pub fn has_water_source(&self) -> (found: bool)
        ensures
            found == holds_water(self@.terrain_objects),
    {
        let mut i: usize = 0;
        while i < self.terrain_objects.len()
            invariant
                i <= self.terrain_objects.len(),
                forall|j: int| 0 <= j < i ==> self.terrain_objects@[j] != SmartTerrain::WaterSource,
            decreases self.terrain_objects.len() - i,
        {
            if self.terrain_objects[i] == SmartTerrain::WaterSource {
                return true;
            }
            i += 1;
        }
        false
    }

    /// Whether a goal container stands on this platform.
    pub fn has_goal_container(&self) -> (found: bool)
        ensures
            found == holds_goal_container(self@.terrain_objects),
    {
        let mut i: usize = 0;
        while i < self.terrain_objects.len()
            invariant
                i <= self.terrain_objects.len(),
                forall|j: int| 0 <= j < i ==> !(#[trigger] self.terrain_objects@[j]).is_goal_container(),
            decreases self.terrain_objects.len() - i,
        {
            match self.terrain_objects[i] {
                SmartTerrain::GoalContainer { .. } => {
                    return true;
                },
                _ => {},
            }
            i += 1;
        }
        false
    }

    fn is_wide(&self) -> (wide: bool)
        ensures
            wide == self@.is_wide(),
    {
        match self.platform_type {
            PlatformType::Start => true,
            PlatformType::Goal => true,
            _ => self.has_water_source(),
        }
    }

    /// Required width in world units: nine tiles for start and goal
    /// platforms and for any platform that carries water, four otherwise.
    pub fn calculate_width(&self) -> (width: i32)
        ensures
            width == TILE_SIZE * self@.width_tiles(),
    {
        if self.is_wide() {
            TILE_SIZE * WIDE_PLATFORM_TILES
        } else {
            TILE_SIZE * STANDARD_PLATFORM_TILES
        }
    }

    /// Required height in tiles: two for start and goal platforms and for
    /// any platform that carries water, one otherwise.
    pub fn calculate_height(&self) -> (height: u32)
        ensures
            height == self@.height_tiles(),
    {
        if self.is_wide() {
            2
        } else {
            1
        }
    }
}

/// A platform that carries water is at least nine tiles wide and two tall,
/// whatever its role.
pub proof fn lemma_water_footprint(node: NodeView)
    requires
        holds_water(node.terrain_objects),
    ensures
        node.width_tiles() >= 9,
        node.height_tiles() >= 2,
{
}

/// A whole topology as contracts see it.
pub struct GraphView {
    pub nodes: Seq<NodeView>,
    pub start: NodeId,
    pub goal: NodeId,
}

impl GraphView {
    /// Every edge leads to a node of this graph.
    pub open spec fn edges_in_range(self) -> bool {
        forall|u: int, k: int|
            0 <= u < self.nodes.len() && 0 <= k < self.nodes[u].edges.len() ==> (
            #[trigger] self.nodes[u].edges[k]).to.0 < self.nodes.len()
    }

    /// Every id that the graph mentions names one of its nodes.
    pub open spec fn well_formed(self) -> bool {
        &&& self.start.0 < self.nodes.len()
        &&& self.goal.0 < self.nodes.len()
        &&& self.edges_in_range()
    }

    /// The graph with one more node at the end.
    pub open spec fn push_node(self, node: NodeView) -> GraphView {
        GraphView { nodes: self.nodes.push(node), ..self }
    }

    /// The graph with node `id` replaced.
    pub open spec fn with_node(self, id: NodeId, node: NodeView) -> GraphView {
        GraphView { nodes: self.nodes.update(id.0 as int, node), ..self }
    }

    /// The graph with one more edge leaving node `from`.
    pub open spec fn with_edge(self, from: NodeId, edge: Edge) -> GraphView {
        self.with_node(from, self.nodes[from.0 as int].with_edge(edge))
    }
}

/// The complete topology of one level.
#[derive(Debug)]
pub struct PlatformGraph {
    pub nodes: Vec<PlatformNode>,
    pub start: NodeId,
    pub goal: NodeId,
}

impl View for PlatformGraph {
    type V = GraphView;

    open spec fn view(&self) -> GraphView {
        GraphView {
            nodes: self.nodes@.map_values(|node: PlatformNode| node@),
            start: self.start,
            goal: self.goal,
        }
    }
}

impl PlatformGraph {
    /// A graph without nodes. `start` and `goal` name the nodes that will
    /// take those places once they have been added.
    pub fn new(start: NodeId, goal: NodeId) -> (graph: Self)
        ensures
            graph@ == (GraphView { nodes: Seq::empty(), start, goal }),
    {
        let graph = PlatformGraph { nodes: Vec::new(), start, goal };
        assert(graph@.nodes =~= Seq::empty());
        graph
    }

    /// Appends a node and returns its id.
    pub fn add_node(&mut self, node: PlatformNode) -> (id: NodeId)
        ensures
            id.0 == old(self).nodes.len(),
            final(self)@ == old(self)@.push_node(node@),
            final(self).nodes@ == old(self).nodes@.push(node),
    {
        let id = NodeId(self.nodes.len());
        self.nodes.push(node);
        assert(self@.nodes =~= old(self)@.nodes.push(node@));
        id
    }

    /// Whether every id that the graph mentions names one of its nodes.
    /// The walks over a graph ask this of their callers.
    pub fn is_well_formed(&self) -> (ok: bool)
        ensures
            ok == self@.well_formed(),
    {
        let count = self.nodes.len();
        if self.start.0 >= count || self.goal.0 >= count {
            return false;
        }
        let mut u: usize = 0;
        while u < count
            invariant
                count == self.nodes.len(),
                u <= count,
                forall|a: int, k: int|
                    0 <= a < u && 0 <= k < self@.nodes[a].edges.len() ==> (
                    #[trigger] self@.nodes[a].edges[k]).to.0 < count,
            decreases count - u,
        {
            let node = &self.nodes[u];
            assert(node@ == self@.nodes[u as int]);
            let mut k: usize = 0;
            while k < node.edges.len()
                invariant
                    count == self.nodes.len(),
                    u < count,
                    k <= node.edges.len(),
                    node@ == self@.nodes[u as int],
                    forall|j: int| 0 <= j < k ==> (#[trigger] node.edges@[j]).to.0 < count,
                decreases node.edges.len() - k,
            {
                if node.edges[k].to.0 >= count {
                    assert(self@.nodes[u as int].edges[k as int].to.0 >= count);
                    return false;
                }
                k += 1;
            }
            u += 1;
        }
        true
    }

    /// The node with the given id, if the graph has one.
    pub fn get_node(&self, id: NodeId) -> (node: Option<&PlatformNode>)
        ensures
            id.0 < self.nodes.len() ==> node == Some(&self.nodes[id.0 as int]),
            id.0 >= self.nodes.len() ==> node is None,
    {
        if id.0 < self.nodes.len() {
            Some(&self.nodes[id.0])
        } else {
            None
        }
    }

    /// Exclusive access to the node with the given id, if the graph has
    /// one. Whatever the caller leaves in the node is what the graph holds
    /// afterwards; nothing else changes.
    pub fn get_node_mut(&mut self, id: NodeId) -> (node: Option<&mut PlatformNode>)
        ensures
            id.0 >= old(self).nodes.len() ==> node is None && *final(self) == *old(self),
            id.0 < old(self).nodes.len() ==> {
                &&& node is Some
                &&& *node->0 == old(self).nodes[id.0 as int]
                &&& final(self).nodes@ == old(self).nodes@.update(id.0 as int, *final(node->0))
                &&& final(self)@ == old(self)@.with_node(id, final(node->0)@)
            },
    {
        if id.0 < self.nodes.len() {
            proof {
                let index = id.0 as int;
                assert forall|node: PlatformNode|
                    (#[trigger] self.nodes@.update(index, node)).map_values(
                        |n: PlatformNode| n@,
                    ) == self@.nodes.update(index, node@) by {
                    assert(self.nodes@.update(index, node).map_values(|n: PlatformNode| n@)
                        =~= self@.nodes.update(index, node@));
                }
            }
            Some(&mut self.nodes[id.0])
        } else {
            None
        }
    }
}

} // verus!
