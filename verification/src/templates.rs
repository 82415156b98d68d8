//! Named graph shapes, each of them a complete topology whose goal can be
//! reached from its start.

use crate::graph::{
    ConnectionType, Edge, GraphView, LayoutDirection, NodeId, NodeView, PlatformGraph,
    PlatformNode, PlatformType,
};
use crate::reach::{lemma_reaches_self, lemma_reaches_step};
use crate::rng::{Draw, RngTrace, SeededRng};
use vstd::prelude::*;

verus! {

/// A jump to node `to`, placed in the given direction.
pub open spec fn jump(to: usize, direction: LayoutDirection) -> Edge {
    Edge { to: NodeId(to), connection_type: ConnectionType::Jump { direction } }
}

/// A platform of the given role and edges with nothing on it.
pub open spec fn platform(platform_type: PlatformType, edges: Seq<Edge>) -> NodeView {
    NodeView { edges, terrain_objects: Seq::empty(), platform_type }
}

/// Every edge has an edge back.
pub open spec fn bidirectional(g: GraphView) -> bool {
    forall|u: int, v: int| #[trigger] g.has_edge(u, v) ==> g.has_edge(v, u)
}

/// The start is the first platform, an edge leads from it to the second,
/// and the goal is neither: so two platforms other than the goal can be
/// reached from the start.
pub open spec fn starts_with_two_sites(g: GraphView) -> bool {
    g.start.0 == 0 && g.has_edge(0, 1) && g.goal.0 > 1
}

impl PlatformGraph {
    /// Adds a jump from `from` to `to`.
    fn link(&mut self, from: usize, to: usize, direction: LayoutDirection)
        requires
            from < old(self).nodes.len(),
        ensures
            final(self)@ == old(self)@.with_edge(NodeId(from), jump(to, direction)),
            final(self).nodes.len() == old(self).nodes.len(),
    {
        self.get_node_mut(NodeId(from)).unwrap().add_edge(
            NodeId(to),
            ConnectionType::Jump { direction },
        );
    }
}

/// The branching shape: two parallel paths, an upper and a lower one, part
/// at the start and meet again one platform before the goal.
pub open spec fn branching_template() -> GraphView {
    GraphView {
        nodes: seq![
            platform(
                PlatformType::Start,
                seq![jump(1, LayoutDirection::RightUp), jump(3, LayoutDirection::RightDown)],
            ),
            platform(
                PlatformType::Floating,
                seq![jump(2, LayoutDirection::Right), jump(0, LayoutDirection::LeftDown)],
            ),
            platform(
                PlatformType::Floating,
                seq![jump(5, LayoutDirection::Right), jump(1, LayoutDirection::Left)],
            ),
            platform(
                PlatformType::Floating,
                seq![jump(4, LayoutDirection::Right), jump(0, LayoutDirection::LeftUp)],
            ),
            platform(
                PlatformType::Floating,
                seq![jump(5, LayoutDirection::RightUp), jump(3, LayoutDirection::Left)],
            ),
            platform(
                PlatformType::Floating,
                seq![
                    jump(6, LayoutDirection::Right),
                    jump(2, LayoutDirection::Left),
                    jump(4, LayoutDirection::LeftDown),
                ],
            ),
            platform(PlatformType::Goal, seq![jump(5, LayoutDirection::Left)]),
        ],
        start: NodeId(0),
        goal: NodeId(6),
    }
}

/// Creates the branching shape.
pub fn create_branching_template() -> (graph: PlatformGraph)
    ensures
        graph@ == branching_template(),
        graph.nodes.len() == 7,
        graph@.well_formed(),
        graph@.goal_reachable(),
        starts_with_two_sites(graph@),
        bidirectional(graph@),
{
    let mut graph = PlatformGraph::new(NodeId(0), NodeId(6));
    graph.add_node(PlatformNode::with_type(PlatformType::Start));
    graph.add_node(PlatformNode::new());
    graph.add_node(PlatformNode::new());
    graph.add_node(PlatformNode::new());
    graph.add_node(PlatformNode::new());
    graph.add_node(PlatformNode::new());
    graph.add_node(PlatformNode::with_type(PlatformType::Goal));

    // The start leads to both paths.
    graph.link(0, 1, LayoutDirection::RightUp);
    graph.link(0, 3, LayoutDirection::RightDown);
    // Upper path.
    graph.link(1, 2, LayoutDirection::Right);
    graph.link(2, 5, LayoutDirection::Right);
    // Lower path.
    graph.link(3, 4, LayoutDirection::Right);
    graph.link(4, 5, LayoutDirection::RightUp);
    // The paths meet and lead on to the goal.
    graph.link(5, 6, LayoutDirection::Right);
    // The way back.
    graph.link(1, 0, LayoutDirection::LeftDown);
    graph.link(3, 0, LayoutDirection::LeftUp);
    graph.link(5, 2, LayoutDirection::Left);
    graph.link(5, 4, LayoutDirection::LeftDown);
    graph.link(2, 1, LayoutDirection::Left);
    graph.link(4, 3, LayoutDirection::Left);
    graph.link(6, 5, LayoutDirection::Left);

    proof {
        let g = graph@;
        let expected = branching_template();
        assert(g.nodes.len() == 7);
        assert forall|i: int| 0 <= i < 7 implies g.nodes[i] == expected.nodes[i] by {
            assert(g.nodes[i].edges =~= expected.nodes[i].edges);
            assert(g.nodes[i].terrain_objects =~= expected.nodes[i].terrain_objects);
        }
        assert(g.nodes =~= expected.nodes);
        lemma_branching_template();
    }
    graph
}

/// The branching shape is well formed, every edge of it has an edge back,
/// and its goal can be reached from its start.
pub proof fn lemma_branching_template()
    ensures
        branching_template().well_formed(),
        branching_template().goal_reachable(),
        bidirectional(branching_template()),
        starts_with_two_sites(branching_template()),
{
    let g = branching_template();
    assert(g.nodes[0].edges[0].to.0 == 1);
    assert(g.nodes[1].edges[0].to.0 == 2);
    assert(g.nodes[2].edges[0].to.0 == 5);
    assert(g.nodes[5].edges[0].to.0 == 6);
    lemma_reaches_self(g, 0);
    lemma_reaches_step(g, 0, 0, 1);
    lemma_reaches_step(g, 0, 1, 2);
    lemma_reaches_step(g, 0, 2, 5);
    lemma_reaches_step(g, 0, 5, 6);
    assert forall|u: int, v: int| #[trigger] g.has_edge(u, v) implies g.has_edge(v, u) by {
        let k = choose|k: int|
            0 <= k < g.nodes[u].edges.len() && (#[trigger] g.nodes[u].edges[k]).to.0 == v;
        assert(g.nodes[0].edges[0].to.0 == 1 && g.nodes[0].edges[1].to.0 == 3);
        assert(g.nodes[1].edges[0].to.0 == 2 && g.nodes[1].edges[1].to.0 == 0);
        assert(g.nodes[2].edges[0].to.0 == 5 && g.nodes[2].edges[1].to.0 == 1);
        assert(g.nodes[3].edges[0].to.0 == 4 && g.nodes[3].edges[1].to.0 == 0);
        assert(g.nodes[4].edges[0].to.0 == 5 && g.nodes[4].edges[1].to.0 == 3);
        assert(g.nodes[5].edges[0].to.0 == 6 && g.nodes[5].edges[1].to.0 == 2
            && g.nodes[5].edges[2].to.0 == 4);
        assert(g.nodes[6].edges[0].to.0 == 5);
    }
}

/// The cul-de-sac shape: a main path from start to goal, and two dead ends
/// above it that can be visited but need not be.
pub open spec fn cul_de_sac_template() -> GraphView {
    GraphView {
        nodes: seq![
            platform(PlatformType::Start, seq![jump(1, LayoutDirection::Right)]),
            platform(
                PlatformType::Floating,
                seq![
                    jump(3, LayoutDirection::Right),
                    jump(2, LayoutDirection::RightUp),
                    jump(0, LayoutDirection::Left),
                ],
            ),
            platform(PlatformType::Floating, seq![jump(1, LayoutDirection::LeftDown)]),
            platform(
                PlatformType::Floating,
                seq![
                    jump(4, LayoutDirection::Right),
                    jump(5, LayoutDirection::RightUp),
                    jump(1, LayoutDirection::Left),
                ],
            ),
            platform(PlatformType::Goal, Seq::empty()),
            platform(PlatformType::Floating, seq![jump(3, LayoutDirection::LeftDown)]),
        ],
        start: NodeId(0),
        goal: NodeId(4),
    }
}

/// Creates the cul-de-sac shape.
pub fn create_cul_de_sac_template() -> (graph: PlatformGraph)
    ensures
        graph@ == cul_de_sac_template(),
        graph.nodes.len() == 6,
        graph@.well_formed(),
        graph@.goal_reachable(),
        starts_with_two_sites(graph@),
{
    let mut graph = PlatformGraph::new(NodeId(0), NodeId(4));
    graph.add_node(PlatformNode::with_type(PlatformType::Start));
    graph.add_node(PlatformNode::new());
    graph.add_node(PlatformNode::new());
    graph.add_node(PlatformNode::new());
    graph.add_node(PlatformNode::with_type(PlatformType::Goal));
    graph.add_node(PlatformNode::new());

    // Main path.
    graph.link(0, 1, LayoutDirection::Right);
    graph.link(1, 3, LayoutDirection::Right);
    graph.link(3, 4, LayoutDirection::Right);
    // First dead end, above the first platform of the main path.
    graph.link(1, 2, LayoutDirection::RightUp);
    graph.link(2, 1, LayoutDirection::LeftDown);
    // Second dead end, above the second.
    graph.link(3, 5, LayoutDirection::RightUp);
    graph.link(5, 3, LayoutDirection::LeftDown);
    // The way back along the main path.
    graph.link(1, 0, LayoutDirection::Left);
    graph.link(3, 1, LayoutDirection::Left);

    proof {
        let g = graph@;
        let expected = cul_de_sac_template();
        assert(g.nodes.len() == 6);
        assert forall|i: int| 0 <= i < 6 implies g.nodes[i] == expected.nodes[i] by {
            assert(g.nodes[i].edges =~= expected.nodes[i].edges);
            assert(g.nodes[i].terrain_objects =~= expected.nodes[i].terrain_objects);
        }
        assert(g.nodes =~= expected.nodes);
        lemma_cul_de_sac_template();
    }
    graph
}

/// The cul-de-sac shape is well formed and its goal can be reached from its
/// start.
pub proof fn lemma_cul_de_sac_template()
    ensures
        cul_de_sac_template().well_formed(),
        cul_de_sac_template().goal_reachable(),
        starts_with_two_sites(cul_de_sac_template()),
{
    let g = cul_de_sac_template();
    assert(g.nodes[0].edges[0].to.0 == 1);
    assert(g.nodes[1].edges[0].to.0 == 3);
    assert(g.nodes[3].edges[0].to.0 == 4);
    lemma_reaches_self(g, 0);
    lemma_reaches_step(g, 0, 0, 1);
    lemma_reaches_step(g, 0, 1, 3);
    lemma_reaches_step(g, 0, 3, 4);
}

/// The direction that leads back along an edge placed in `direction`.
pub open spec fn inverse_direction(direction: LayoutDirection) -> LayoutDirection {
    match direction {
        LayoutDirection::RightUp => LayoutDirection::LeftDown,
        LayoutDirection::RightDown => LayoutDirection::LeftUp,
        _ => LayoutDirection::Left,
    }
}

fn invert(direction: LayoutDirection) -> (back: LayoutDirection)
    ensures
        back == inverse_direction(direction),
{
    match direction {
        LayoutDirection::RightUp => LayoutDirection::LeftDown,
        LayoutDirection::RightDown => LayoutDirection::LeftUp,
        _ => LayoutDirection::Left,
    }
}

/// Node `i` of a chain once its first `linked` links have been made: link
/// `j` joins node `j` to node `j + 1` in direction `directions[j]`, and
/// node `j + 1` back to node `j` in the inverse direction.
pub open spec fn chain_node(
    roles: Seq<PlatformType>,
    directions: Seq<LayoutDirection>,
    linked: int,
    i: int,
) -> NodeView {
    let back = if 0 < i <= linked {
        seq![jump((i - 1) as usize, inverse_direction(directions[i - 1]))]
    } else {
        Seq::empty()
    };
    let forward = if i < linked {
        seq![jump((i + 1) as usize, directions[i])]
    } else {
        Seq::empty()
    };
    platform(roles[i], back + forward)
}

/// A single path: one platform per role, the first the start and the last
/// the goal, each joined to the next in both directions.
pub open spec fn chain_graph(roles: Seq<PlatformType>, directions: Seq<LayoutDirection>) -> GraphView {
    GraphView {
        nodes: Seq::new(
            roles.len(),
            |i: int| chain_node(roles, directions, roles.len() - 1, i),
        ),
        start: NodeId(0),
        goal: NodeId((roles.len() - 1) as usize),
    }
}

/// A chain is well formed, every edge of it has an edge back, and its goal
/// can be reached from its start.
pub proof fn lemma_chain_graph(roles: Seq<PlatformType>, directions: Seq<LayoutDirection>)
    requires
        1 <= roles.len() <= usize::MAX,
        directions.len() + 1 == roles.len(),
    ensures
        chain_graph(roles, directions).well_formed(),
        chain_graph(roles, directions).goal_reachable(),
        bidirectional(chain_graph(roles, directions)),
        roles.len() >= 3 ==> starts_with_two_sites(chain_graph(roles, directions)),
{
    let g = chain_graph(roles, directions);
    let last = roles.len() - 1;
    assert forall|u: int, k: int|
        0 <= u < g.nodes.len() && 0 <= k < g.nodes[u].edges.len() implies (
    #[trigger] g.nodes[u].edges[k]).to.0 < g.nodes.len() by {}
    assert forall|u: int| 0 <= u < last implies #[trigger] g.has_edge(u, u + 1) by {
        let k = if u > 0 {
            1int
        } else {
            0int
        };
        assert(g.nodes[u].edges[k].to.0 == u + 1);
    }
    assert forall|u: int| 0 < u <= last implies #[trigger] g.has_edge(u, u - 1) by {
        assert(g.nodes[u].edges[0].to.0 == u - 1);
    }
    lemma_chain_reaches(g, last);
    assert forall|u: int, v: int| #[trigger] g.has_edge(u, v) implies g.has_edge(v, u) by {
        let k = choose|k: int|
            0 <= k < g.nodes[u].edges.len() && (#[trigger] g.nodes[u].edges[k]).to.0 == v;
        if v == u + 1 {
            assert(g.has_edge(u + 1, (u + 1) - 1));
        } else {
            assert(v == u - 1);
            assert(g.has_edge(u - 1, (u - 1) + 1));
        }
    }
}

proof fn lemma_chain_reaches(g: GraphView, i: int)
    requires
        0 <= i < g.nodes.len(),
        forall|u: int| 0 <= u < g.nodes.len() - 1 ==> #[trigger] g.has_edge(u, u + 1),
    ensures
        g.reaches(0, i),
    decreases i,
{
    if i == 0 {
        lemma_reaches_self(g, 0);
    } else {
        lemma_chain_reaches(g, i - 1);
        assert(g.has_edge(i - 1, (i - 1) + 1));
        lemma_reaches_step(g, 0, i - 1, i);
    }
}

/// Builds the chain with the given roles and directions.
fn create_chain(roles: &Vec<PlatformType>, directions: &Vec<LayoutDirection>) -> (graph:
    PlatformGraph)
    requires
        roles.len() >= 1,
        directions.len() + 1 == roles.len(),
    ensures
        graph@ == chain_graph(roles@, directions@),
        graph.nodes.len() == roles.len(),
        graph@.well_formed(),
        graph@.goal_reachable(),
        roles.len() >= 3 ==> starts_with_two_sites(graph@),
        bidirectional(graph@),
{
    let count = roles.len();
    let mut graph = PlatformGraph::new(NodeId(0), NodeId(count - 1));
    let mut i: usize = 0;
    while i < count
        invariant
            count == roles.len(),
            i <= count,
            graph.start == NodeId(0),
            graph.goal == NodeId((count - 1) as usize),
            graph@.nodes.len() == i,
            forall|j: int| 0 <= j < i ==> graph@.nodes[j] == chain_node(roles@, directions@, 0, j),
        decreases count - i,
    {
        let ghost before = graph@;
        graph.add_node(PlatformNode::with_type(roles[i]));
        proof {
            assert(graph@.nodes[i as int].edges =~= chain_node(
                roles@,
                directions@,
                0,
                i as int,
            ).edges);
            assert forall|j: int| 0 <= j < i + 1 implies graph@.nodes[j] == chain_node(
                roles@,
                directions@,
                0,
                j,
            ) by {
                if j < i {
                    assert(graph@.nodes[j] == before.nodes[j]);
                }
            }
        }
        i += 1;
    }
    let mut linked: usize = 0;
    while linked < count - 1
        invariant
            count == roles.len(),
            directions.len() + 1 == count,
            linked <= count - 1,
            graph.start == NodeId(0),
            graph.goal == NodeId((count - 1) as usize),
            graph@.nodes.len() == count,
            graph.nodes.len() == count,
            forall|j: int|
                0 <= j < count ==> graph@.nodes[j] == chain_node(
                    roles@,
                    directions@,
                    linked as int,
                    j,
                ),
        decreases count - 1 - linked,
    {
        let ghost before = graph@;
        let forward = directions[linked];
        let back = invert(forward);
        graph.link(linked, linked + 1, forward);
        graph.link(linked + 1, linked, back);
        proof {
            assert forall|j: int| 0 <= j < count implies graph@.nodes[j] == chain_node(
                roles@,
                directions@,
                linked + 1,
                j,
            ) by {
                assert(before.nodes[j] == chain_node(roles@, directions@, linked as int, j));
                assert(graph@.nodes[j].edges =~= chain_node(
                    roles@,
                    directions@,
                    linked + 1,
                    j,
                ).edges);
            }
        }
        linked += 1;
    }
    proof {
        assert(graph@.nodes =~= chain_graph(roles@, directions@).nodes);
        lemma_chain_graph(roles@, directions@);
    }
    graph
}

/// The roles along the zigzag: a start, six floating platforms, a goal.
pub open spec fn zigzag_roles() -> Seq<PlatformType> {
    Seq::new(
        8,
        |i: int|
            if i == 0 {
                PlatformType::Start
            } else if i == 7 {
                PlatformType::Goal
            } else {
                PlatformType::Floating
            },
    )
}

/// The zigzag rises on every even link and falls on every odd one.
pub open spec fn zigzag_directions() -> Seq<LayoutDirection> {
    Seq::new(
        7,
        |i: int|
            if i % 2 == 0 {
                LayoutDirection::RightUp
            } else {
                LayoutDirection::RightDown
            },
    )
}

/// The zigzag shape: eight platforms in a row, alternately up and down.
pub open spec fn zigzag_template() -> GraphView {
    chain_graph(zigzag_roles(), zigzag_directions())
}

/// Creates the zigzag shape.
pub fn create_zigzag_template() -> (graph: PlatformGraph)
    ensures
        graph@ == zigzag_template(),
        graph.nodes.len() == 8,
        graph@.well_formed(),
        graph@.goal_reachable(),
        starts_with_two_sites(graph@),
        bidirectional(graph@),
{
    let mut roles: Vec<PlatformType> = Vec::new();
    roles.push(PlatformType::Start);
    let mut i: usize = 1;
    while i < 7
        invariant
            1 <= i <= 7,
            roles.len() == i,
            forall|j: int| 0 <= j < i ==> roles@[j] == zigzag_roles()[j],
        decreases 7 - i,
    {
        roles.push(PlatformType::Floating);
        i += 1;
    }
    roles.push(PlatformType::Goal);
    let mut directions: Vec<LayoutDirection> = Vec::new();
    let mut link: usize = 0;
    while link < 7
        invariant
            link <= 7,
            directions.len() == link,
            forall|j: int| 0 <= j < link ==> directions@[j] == zigzag_directions()[j],
        decreases 7 - link,
    {
        if link % 2 == 0 {
            directions.push(LayoutDirection::RightUp);
        } else {
            directions.push(LayoutDirection::RightDown);
        }
        link += 1;
    }
    proof {
        assert(roles@ =~= zigzag_roles());
        assert(directions@ =~= zigzag_directions());
    }
    create_chain(&roles, &directions)
}

/// The roles along the ground-and-floating path.
pub open spec fn ground_and_floating_roles() -> Seq<PlatformType> {
    seq![
        PlatformType::Start,
        PlatformType::Grounded,
        PlatformType::Grounded,
        PlatformType::Floating,
        PlatformType::Floating,
        PlatformType::Floating,
        PlatformType::Grounded,
        PlatformType::Goal,
    ]
}

/// The directions along the ground-and-floating path: up to the floating
/// platforms after the second grounded one, and down again after the last
/// floating one.
pub open spec fn ground_and_floating_directions() -> Seq<LayoutDirection> {
    seq![
        LayoutDirection::Right,
        LayoutDirection::Right,
        LayoutDirection::RightUp,
        LayoutDirection::Right,
        LayoutDirection::Right,
        LayoutDirection::RightDown,
        LayoutDirection::Right,
    ]
}

/// The ground-and-floating shape: one path over grounded platforms, then
/// floating ones, then ground again.
pub open spec fn ground_and_floating_template() -> GraphView {
    chain_graph(ground_and_floating_roles(), ground_and_floating_directions())
}

/// Creates the ground-and-floating shape.
pub fn create_ground_and_floating_template() -> (graph: PlatformGraph)
    ensures
        graph@ == ground_and_floating_template(),
        graph.nodes.len() == 8,
        graph@.well_formed(),
        graph@.goal_reachable(),
        starts_with_two_sites(graph@),
        bidirectional(graph@),
{
    let mut roles: Vec<PlatformType> = Vec::new();
    roles.push(PlatformType::Start);
    roles.push(PlatformType::Grounded);
    roles.push(PlatformType::Grounded);
    roles.push(PlatformType::Floating);
    roles.push(PlatformType::Floating);
    roles.push(PlatformType::Floating);
    roles.push(PlatformType::Grounded);
    roles.push(PlatformType::Goal);
    let mut directions: Vec<LayoutDirection> = Vec::new();
    directions.push(LayoutDirection::Right);
    directions.push(LayoutDirection::Right);
    directions.push(LayoutDirection::RightUp);
    directions.push(LayoutDirection::Right);
    directions.push(LayoutDirection::Right);
    directions.push(LayoutDirection::RightDown);
    directions.push(LayoutDirection::Right);
    proof {
        assert(roles@ =~= ground_and_floating_roles());
        assert(directions@ =~= ground_and_floating_directions());
    }
    create_chain(&roles, &directions)
}

/// How many platforms the linear shape has: five without a seed, and with
/// one the first index from five to eight that a generator made from the
/// seed returns.
pub open spec fn linear_count(seed: Option<u64>) -> usize {
    match seed {
        Some(s) => RngTrace::fresh(s).index(5, 9),
        None => 5,
    }
}

/// A generator made from `seed` after `tosses` even coin tosses.
pub open spec fn after_tosses(seed: u64, tosses: nat) -> RngTrace {
    RngTrace {
        seed,
        asked: Seq::new(tosses, |i: int| Draw::Ratio { numerator: 1, denominator: 2 }),
    }
}

/// The direction of link `i` of the linear shape: straight without a seed,
/// and with one up if toss `i` of a generator made from the seed lands
/// heads, straight if not.
pub open spec fn linear_direction(seed: Option<u64>, i: int) -> LayoutDirection {
    match seed {
        Some(s) => if after_tosses(s, i as nat).ratio(1, 2) {
            LayoutDirection::RightUp
        } else {
            LayoutDirection::Right
        },
        None => LayoutDirection::Right,
    }
}

/// The roles along a linear shape of `count` platforms.
pub open spec fn linear_roles(count: int) -> Seq<PlatformType> {
    Seq::new(
        count as nat,
        |i: int|
            if i == 0 {
                PlatformType::Start
            } else if i == count - 1 {
                PlatformType::Goal
            } else {
                PlatformType::Floating
            },
    )
}

/// The linear shape for a seed: a single path whose length and slopes the
/// seed decides.
pub open spec fn linear_template(seed: Option<u64>) -> GraphView {
    chain_graph(
        linear_roles(linear_count(seed) as int),
        Seq::new((linear_count(seed) - 1) as nat, |i: int| linear_direction(seed, i)),
    )
}

/// Creates the linear shape: five to eight platforms in a row, each link
/// straight or rising with even odds and paired with a link back. Without
/// a seed the shape has five platforms and every link is straight.
pub fn create_linear_template(seed: Option<u64>) -> (graph: PlatformGraph)
    ensures
        graph@ == linear_template(seed),
        5 <= graph.nodes.len() <= 8,
        graph.nodes.len() == linear_count(seed),
        seed is None ==> graph.nodes.len() == 5,
        graph@.well_formed(),
        graph@.goal_reachable(),
        starts_with_two_sites(graph@),
        bidirectional(graph@),
{
    let count: usize = match seed {
        Some(s) => {
            let mut count_rng = SeededRng::from_seed(s);
            count_rng.index(5, 9)
        },
        None => 5,
    };
    let mut roles: Vec<PlatformType> = Vec::new();
    let mut i: usize = 0;
    while i < count
        invariant
            i <= count,
            roles.len() == i,
            forall|j: int| 0 <= j < i ==> roles@[j] == linear_roles(count as int)[j],
        decreases count - i,
    {
        if i == 0 {
            roles.push(PlatformType::Start);
        } else if i == count - 1 {
            roles.push(PlatformType::Goal);
        } else {
            roles.push(PlatformType::Floating);
        }
        i += 1;
    }
    let mut directions: Vec<LayoutDirection> = Vec::new();
    match seed {
        Some(s) => {
            let mut rng = SeededRng::from_seed(s);
            proof {
                assert(after_tosses(s, 0).asked =~= rng@.asked);
            }
            let mut link: usize = 0;
            while link < count - 1
                invariant
                    count >= 5,
                    link <= count - 1,
                    directions.len() == link,
                    seed == Some(s),
                    rng@ == after_tosses(s, link as nat),
                    forall|j: int| 0 <= j < link ==> directions@[j] == linear_direction(seed, j),
                decreases count - 1 - link,
            {
                if rng.ratio(1, 2) {
                    directions.push(LayoutDirection::RightUp);
                } else {
                    directions.push(LayoutDirection::Right);
                }
                proof {
                    assert(rng@.asked =~= after_tosses(s, (link + 1) as nat).asked);
                }
                link += 1;
            }
        },
        None => {
            let mut link: usize = 0;
            while link < count - 1
                invariant
                    count >= 5,
                    link <= count - 1,
                    directions.len() == link,
                    seed is None,
                    forall|j: int| 0 <= j < link ==> directions@[j] == linear_direction(seed, j),
                decreases count - 1 - link,
            {
                directions.push(LayoutDirection::Right);
                link += 1;
            }
        },
    }
    proof {
        assert(roles@ =~= linear_roles(count as int));
        assert(directions@ =~= Seq::new(
            (linear_count(seed) - 1) as nat,
            |i: int| linear_direction(seed, i),
        ));
    }
    create_chain(&roles, &directions)
}

} // verus!
