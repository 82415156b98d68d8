//! Chaining several topologies into one longer level.

use crate::graph::{
    ConnectionType, Edge, GraphView, LayoutDirection, NodeId, NodeView, PlatformGraph,
    PlatformNode, PlatformType,
};
use crate::reach::{lemma_reaches_step, lemma_reaches_trans};
use crate::templates::jump;
use vstd::prelude::*;

verus! {

/// An edge of a graph whose nodes have moved up by `offset`.
pub open spec fn shifted_edge(edge: Edge, offset: int) -> Edge {
    Edge { to: NodeId((edge.to.0 + offset) as usize), connection_type: edge.connection_type }
}

/// A node of a graph whose nodes have moved up by `offset`.
pub open spec fn shifted_node(node: NodeView, offset: int) -> NodeView {
    NodeView { edges: node.edges.map_values(|edge: Edge| shifted_edge(edge, offset)), ..node }
}

/// Node `i` of `merged` once `next` has been attached behind it: the old
/// goal is an ordinary platform now, with a jump on to the start of `next`.
pub open spec fn attached_front(merged: GraphView, next: GraphView, i: int) -> NodeView {
    if i == merged.goal.0 {
        merged.nodes[i].with_type(PlatformType::Floating).with_edge(
            jump((next.start.0 + merged.nodes.len()) as usize, LayoutDirection::Right),
        )
    } else {
        merged.nodes[i]
    }
}

/// Node `j` of `next` once it has been attached behind `merged`: its edges
/// follow the nodes to their new ids, and the old start is an ordinary
/// platform now, with a jump back to the goal of `merged`.
pub open spec fn attached_back(merged: GraphView, next: GraphView, j: int) -> NodeView {
    let moved = shifted_node(next.nodes[j], merged.nodes.len() as int);
    if j == next.start.0 {
        moved.with_type(PlatformType::Floating).with_edge(
            jump(merged.goal.0, LayoutDirection::Left),
        )
    } else {
        moved
    }
}

/// `merged` with `next` attached behind it: the nodes of `next` follow
/// those of `merged`, the goal of `merged` and the start of `next` are
/// joined in both directions, and the goal of `next` becomes the goal.
pub open spec fn attach(merged: GraphView, next: GraphView) -> GraphView {
    GraphView {
        nodes: Seq::new(
            merged.nodes.len() + next.nodes.len(),
            |i: int|
                if i < merged.nodes.len() {
                    attached_front(merged, next, i)
                } else {
                    attached_back(merged, next, i - merged.nodes.len())
                },
        ),
        start: merged.start,
        goal: NodeId((next.goal.0 + merged.nodes.len()) as usize),
    }
}

/// The graphs chained in order. One graph alone stays as it is.
pub open spec fn merge_all(graphs: Seq<GraphView>) -> GraphView
    decreases graphs.len(),
{
    if graphs.len() <= 1 {
        graphs[0]
    } else {
        attach(merge_all(graphs.drop_last()), graphs.last())
    }
}

/// How many nodes the graphs have together.
pub open spec fn total_nodes(graphs: Seq<GraphView>) -> nat
    decreases graphs.len(),
{
    if graphs.len() == 0 {
        0
    } else {
        total_nodes(graphs.drop_last()) + graphs.last().nodes.len()
    }
}

/// Every graph of the list is well formed.
pub open spec fn all_well_formed(graphs: Seq<GraphView>) -> bool {
    forall|i: int| 0 <= i < graphs.len() ==> (#[trigger] graphs[i]).well_formed()
}

/// In every graph of the list the goal can be reached from the start.
pub open spec fn all_goals_reachable(graphs: Seq<GraphView>) -> bool {
    forall|i: int| 0 <= i < graphs.len() ==> (#[trigger] graphs[i]).goal_reachable()
}

/// `next` can be attached behind `merged`: the goal of `merged` and the
/// start and goal of `next` are nodes of theirs, and every id of `next`
/// can move up by the node count of `merged` without leaving the range of
/// ids.
pub open spec fn can_attach(merged: GraphView, next: GraphView) -> bool {
    &&& merged.goal.0 < merged.nodes.len()
    &&& next.start.0 < next.nodes.len()
    &&& next.goal.0 < next.nodes.len()
    &&& merged.nodes.len() + next.nodes.len() <= usize::MAX
    &&& forall|u: int, k: int|
        0 <= u < next.nodes.len() && 0 <= k < next.nodes[u].edges.len() ==> (
        #[trigger] next.nodes[u].edges[k]).to.0 + merged.nodes.len() <= usize::MAX
}

/// The graphs can be chained in order: there is at least one, and each
/// further one can be attached behind the chain of those before it.
pub open spec fn can_merge(graphs: Seq<GraphView>) -> bool
    decreases graphs.len(),
{
    if graphs.len() <= 1 {
        graphs.len() == 1
    } else {
        can_merge(graphs.drop_last()) && can_attach(merge_all(graphs.drop_last()), graphs.last())
    }
}

/// If every edge of `g` is found in `h` between the same nodes moved up by
/// `shift`, then so is every walk.
pub proof fn lemma_walks_carry_over(g: GraphView, h: GraphView, shift: int, a: int, b: int)
    requires
        forall|u: int, v: int| #[trigger] g.has_edge(u, v) ==> h.has_edge(u + shift, v + shift),
        g.reaches(a, b),
    ensures
        h.reaches(a + shift, b + shift),
{
    let path = choose|path: Seq<int>| #[trigger]
        g.is_path(path) && path.first() == a && path.last() == b;
    let moved = Seq::new(path.len(), |i: int| path[i] + shift);
    assert forall|i: int| 0 <= i < moved.len() - 1 implies #[trigger] h.step(moved, i) by {
        assert(g.step(path, i));
    }
    assert(h.is_path(moved));
    assert(moved.first() == a + shift && moved.last() == b + shift);
}

/// Attaching a well-formed graph behind another gives a well-formed graph
/// with the nodes of both, and if each goal could be reached from its
/// start, the new goal can be reached from the start.
pub proof fn lemma_attach(merged: GraphView, next: GraphView)
    requires
        merged.well_formed(),
        next.well_formed(),
        merged.nodes.len() + next.nodes.len() <= usize::MAX,
    ensures
        attach(merged, next).well_formed(),
        attach(merged, next).nodes.len() == merged.nodes.len() + next.nodes.len(),
        attach(merged, next).start == merged.start,
        attach(merged, next).goal.0 == merged.nodes.len() + next.goal.0,
        attach(merged, next).nodes[merged.goal.0 as int].platform_type == PlatformType::Floating,
        attach(merged, next).nodes[merged.nodes.len() + next.start.0].platform_type
            == PlatformType::Floating,
        merged.goal_reachable() && next.goal_reachable() ==> attach(merged, next).goal_reachable(),
        forall|u: int, v: int| #[trigger]
            merged.has_edge(u, v) ==> attach(merged, next).has_edge(u, v),
{
    let result = attach(merged, next);
    let offset = merged.nodes.len() as int;
    let old_goal = merged.goal.0 as int;
    let new_start = next.start.0 + offset;
    assert forall|u: int, k: int|
        0 <= u < result.nodes.len() && 0 <= k < result.nodes[u].edges.len() implies (
    #[trigger] result.nodes[u].edges[k]).to.0 < result.nodes.len() by {
        if u < offset {
            if k < merged.nodes[u].edges.len() {
                assert(result.nodes[u].edges[k] == merged.nodes[u].edges[k]);
            }
        } else {
            let j = u - offset;
            if k < next.nodes[j].edges.len() {
                assert(result.nodes[u].edges[k] == shifted_edge(next.nodes[j].edges[k], offset));
            }
        }
    }
    assert forall|u: int, v: int| #[trigger] merged.has_edge(u, v) implies result.has_edge(
        u + 0,
        v + 0,
    ) by {
        let k = choose|k: int|
            0 <= k < merged.nodes[u].edges.len() && (#[trigger] merged.nodes[u].edges[k]).to.0
                == v;
        assert(result.nodes[u].edges[k] == merged.nodes[u].edges[k]);
    }
    assert forall|u: int, v: int| #[trigger] next.has_edge(u, v) implies result.has_edge(
        u + offset,
        v + offset,
    ) by {
        let k = choose|k: int|
            0 <= k < next.nodes[u].edges.len() && (#[trigger] next.nodes[u].edges[k]).to.0 == v;
        assert(result.nodes[u + offset].edges[k] == shifted_edge(next.nodes[u].edges[k], offset));
    }
    if merged.goal_reachable() && next.goal_reachable() {
        let start = merged.start.0 as int;
        lemma_walks_carry_over(merged, result, 0, start, old_goal);
        let bridge = merged.nodes[old_goal].edges.len() as int;
        assert(result.nodes[old_goal].edges[bridge].to.0 == new_start);
        assert(result.has_edge(old_goal, new_start));
        lemma_reaches_step(result, start, old_goal, new_start);
        lemma_walks_carry_over(next, result, offset, next.start.0 as int, next.goal.0 as int);
        lemma_reaches_trans(result, start, new_start, next.goal.0 + offset);
    }
}

/// What chaining gives: a well-formed graph that holds every node of every
/// input, starts where the first input starts, and ends at the goal of the
/// last input, moved up by the node count of all inputs before it. If in
/// every input the goal could be reached from the start, so it can in the
/// chain.
pub proof fn lemma_merge_all(graphs: Seq<GraphView>)
    requires
        graphs.len() > 0,
        all_well_formed(graphs),
        total_nodes(graphs) <= usize::MAX,
    ensures
        merge_all(graphs).well_formed(),
        merge_all(graphs).nodes.len() == total_nodes(graphs),
        merge_all(graphs).start == graphs[0].start,
        merge_all(graphs).goal.0 == total_nodes(graphs.drop_last()) + graphs.last().goal.0,
        all_goals_reachable(graphs) ==> merge_all(graphs).goal_reachable(),
        forall|u: int, v: int| #[trigger]
            graphs[0].has_edge(u, v) ==> merge_all(graphs).has_edge(u, v),
    decreases graphs.len(),
{
    if graphs.len() == 1 {
        assert(graphs.drop_last() =~= Seq::empty());
        assert(graphs.last() == graphs[0]);
        assert(total_nodes(graphs.drop_last()) == 0);
    } else {
        let front = graphs.drop_last();
        assert forall|i: int| 0 <= i < front.len() implies (#[trigger] front[i]).well_formed() by {
            assert(front[i] == graphs[i]);
        }
        lemma_merge_all(front);
        lemma_attach(merge_all(front), graphs.last());
        assert(front[0] == graphs[0]);
        if all_goals_reachable(graphs) {
            assert forall|i: int| 0 <= i < front.len() implies (
            #[trigger] front[i]).goal_reachable() by {
                assert(front[i] == graphs[i]);
            }
        }
    }
}

/// Chaining `n` graphs of `k` nodes each gives `n * k` nodes.
pub proof fn lemma_total_of_equal_graphs(graphs: Seq<GraphView>, k: nat)
    requires
        forall|i: int| 0 <= i < graphs.len() ==> (#[trigger] graphs[i]).nodes.len() == k,
    ensures
        total_nodes(graphs) == graphs.len() * k,
    decreases graphs.len(),
{
    if graphs.len() > 0 {
        let front = graphs.drop_last();
        assert forall|i: int| 0 <= i < front.len() implies (#[trigger] front[i]).nodes.len()
            == k by {
            assert(front[i] == graphs[i]);
        }
        lemma_total_of_equal_graphs(front, k);
        assert(graphs.len() * k == front.len() * k + k) by (nonlinear_arith)
            requires
                graphs.len() == front.len() + 1,
        ;
    } else {
        assert(graphs.len() * k == 0) by (nonlinear_arith)
            requires
                graphs.len() == 0,
        ;
    }
}

/// What chaining gives whatever the edges of the inputs are: every node of
/// every input, the start of the first input, and the goal of the last
/// input moved up by the node count of all inputs before it.
pub proof fn lemma_merge_counts(graphs: Seq<GraphView>)
    requires
        can_merge(graphs),
    ensures
        merge_all(graphs).nodes.len() == total_nodes(graphs),
        merge_all(graphs).start == graphs[0].start,
        merge_all(graphs).goal.0 == total_nodes(graphs.drop_last()) + graphs.last().goal.0,
        graphs.len() > 1 ==> merge_all(graphs).goal.0 < total_nodes(graphs) <= usize::MAX,
    decreases graphs.len(),
{
    if graphs.len() == 1 {
        assert(graphs.drop_last() =~= Seq::empty());
        assert(graphs.last() == graphs[0]);
        assert(total_nodes(graphs.drop_last()) == 0);
    } else {
        let front = graphs.drop_last();
        lemma_merge_counts(front);
        assert(front[0] == graphs[0]);
    }
}

/// Well-formed graphs with no more nodes than there are ids can be
/// chained.
pub proof fn lemma_well_formed_graphs_merge(graphs: Seq<GraphView>)
    requires
        graphs.len() > 0,
        all_well_formed(graphs),
        total_nodes(graphs) <= usize::MAX,
    ensures
        can_merge(graphs),
    decreases graphs.len(),
{
    if graphs.len() > 1 {
        let front = graphs.drop_last();
        assert forall|i: int| 0 <= i < front.len() implies (#[trigger] front[i]).well_formed() by {
            assert(front[i] == graphs[i]);
        }
        lemma_well_formed_graphs_merge(front);
        lemma_merge_all(front);
        assert(graphs.last() == graphs[graphs.len() - 1]);
        assert(graphs.last().well_formed());
    }
}

/// Where a list of graphs can be chained, so can every beginning of it.
proof fn lemma_beginning_merges(graphs: Seq<GraphView>, n: int)
    requires
        can_merge(graphs),
        1 <= n <= graphs.len(),
    ensures
        can_merge(graphs.subrange(0, n)),
    decreases graphs.len(),
{
    if n == graphs.len() {
        assert(graphs.subrange(0, n) =~= graphs);
    } else {
        lemma_beginning_merges(graphs.drop_last(), n);
        assert(graphs.drop_last().subrange(0, n) =~= graphs.subrange(0, n));
    }
}

/// The views of a list of graphs, in order.
pub open spec fn views_of(graphs: Seq<PlatformGraph>) -> Seq<GraphView> {
    graphs.map_values(|graph: PlatformGraph| graph@)
}

/// Moves every edge of `node` up by `offset`.
fn shift_edges(node: &mut PlatformNode, offset: usize)
    requires
        forall|k: int|
            0 <= k < old(node).edges.len() ==> (#[trigger] old(node).edges[k]).to.0 + offset
                <= usize::MAX,
    ensures
        final(node)@ == shifted_node(old(node)@, offset as int),
{
    let mut k: usize = 0;
    while k < node.edges.len()
        invariant
            k <= node.edges.len(),
            node.edges.len() == old(node).edges.len(),
            forall|j: int|
                0 <= j < old(node).edges.len() ==> (#[trigger] old(node).edges[j]).to.0 + offset
                    <= usize::MAX,
            node.terrain_objects == old(node).terrain_objects,
            node.platform_type == old(node).platform_type,
            forall|j: int|
                0 <= j < k ==> node.edges[j] == shifted_edge(
                    (#[trigger] old(node).edges[j]),
                    offset as int,
                ),
            forall|j: int| k <= j < node.edges.len() ==> node.edges[j] == old(node).edges[j],
        decreases node.edges.len() - k,
    {
        let edge = node.edges[k];
        assert(old(node).edges[k as int].to.0 + offset <= usize::MAX);
        node.edges[k] = Edge { to: NodeId(edge.to.0 + offset), connection_type: edge.connection_type };
        k += 1;
    }
    assert(node@.edges =~= shifted_node(old(node)@, offset as int).edges);
}

/// Attaches `next` behind `merged`.
fn attach_graph(merged: &mut PlatformGraph, next: PlatformGraph)
    requires
        can_attach(old(merged)@, next@),
    ensures
        final(merged)@ == attach(old(merged)@, next@),
{
    let ghost front = merged@;
    let ghost back = next@;
    let offset = merged.nodes.len();
    let old_goal = merged.goal;
    let next_start = next.start;
    let next_goal = next.goal;
    let mut nodes = next.nodes;
    let count = nodes.len();

    // Neither the old goal nor the new start bounds the level any more.
    merged.nodes[old_goal.0].platform_type = PlatformType::Floating;
    nodes[next_start.0].platform_type = PlatformType::Floating;

    let ghost prepared = nodes@;
    let mut moved: usize = 0;
    while moved < count
        invariant
            can_attach(front, back),
            offset == front.nodes.len(),
            count == back.nodes.len(),
            offset + count <= usize::MAX,
            moved <= count,
            prepared.len() == count,
            nodes@ == prepared.subrange(moved as int, count as int),
            merged.start == front.start,
            merged.goal == front.goal,
            merged.nodes.len() == offset + moved,
            forall|j: int|
                0 <= j < count ==> (#[trigger] prepared[j])@ == (if j == next_start.0 {
                    back.nodes[j].with_type(PlatformType::Floating)
                } else {
                    back.nodes[j]
                }),
            forall|i: int|
                0 <= i < offset ==> (#[trigger] merged.nodes[i])@ == (if i == old_goal.0 {
                    front.nodes[i].with_type(PlatformType::Floating)
                } else {
                    front.nodes[i]
                }),
            forall|j: int|
                0 <= j < moved ==> (#[trigger] merged.nodes[offset + j])@ == shifted_node(
                    prepared[j]@,
                    offset as int,
                ),
        decreases count - moved,
    {
        let ghost before = merged.nodes@;
        let mut node = nodes.remove(0);
        assert(node == prepared[moved as int]);
        assert(nodes@ =~= prepared.subrange(moved + 1, count as int));
        proof {
            assert forall|k: int| 0 <= k < node.edges.len() implies (#[trigger] node.edges[k]).to.0
                + offset <= usize::MAX by {
                assert(node@.edges[k] == back.nodes[moved as int].edges[k]);
            }
        }
        shift_edges(&mut node, offset);
        merged.nodes.push(node);
        proof {
            assert forall|i: int| 0 <= i < offset implies (#[trigger] merged.nodes[i])@ == (if i
                == old_goal.0 {
                front.nodes[i].with_type(PlatformType::Floating)
            } else {
                front.nodes[i]
            }) by {
                assert(merged.nodes[i] == before[i]);
            }
            assert forall|j: int| 0 <= j < moved + 1 implies (#[trigger] merged.nodes[offset + j])@
                == shifted_node(prepared[j]@, offset as int) by {
                if j < moved {
                    assert(merged.nodes[offset + j] == before[offset + j]);
                }
            }
        }
        moved += 1;
    }

    // Join the two in both directions.
    let new_start = NodeId(next_start.0 + offset);
    merged.nodes[old_goal.0].add_edge(
        new_start,
        ConnectionType::Jump { direction: LayoutDirection::Right },
    );
    merged.nodes[new_start.0].add_edge(
        old_goal,
        ConnectionType::Jump { direction: LayoutDirection::Left },
    );
    merged.goal = NodeId(next_goal.0 + offset);

    proof {
        let expected = attach(front, back);
        assert(merged@.nodes.len() == expected.nodes.len());
        assert forall|i: int| 0 <= i < expected.nodes.len() implies merged@.nodes[i]
            == expected.nodes[i] by {
            if i < offset {
                assert(merged@.nodes[i] == merged.nodes[i]@);
            } else {
                let j = i - offset;
                assert(merged@.nodes[i] == merged.nodes[offset + j]@);
                assert(prepared[j]@.edges == back.nodes[j].edges);
            }
        }
        assert(merged@.nodes =~= expected.nodes);
    }
}

/// Chains the graphs in order into one: between each graph and the next,
/// the earlier goal and the later start become ordinary floating
/// platforms and are joined by a jump in each direction. The ids of each
/// later graph move up by the number of nodes before it. A single graph is
/// returned as it is. Where the graphs are well formed, so is the chain,
/// and where in each of them the goal can be reached from the start, so it
/// can in the chain.
pub fn merge_graphs(graphs: Vec<PlatformGraph>) -> (merged: PlatformGraph)
    requires
        can_merge(views_of(graphs@)),
    ensures
        merged@ == merge_all(views_of(graphs@)),
        merged.nodes.len() == total_nodes(views_of(graphs@)),
        merged.start == graphs[0].start,
        merged.goal.0 == total_nodes(views_of(graphs@).drop_last()) + graphs@.last().goal.0,
        all_well_formed(views_of(graphs@)) ==> merged@.well_formed(),
        all_well_formed(views_of(graphs@)) && all_goals_reachable(views_of(graphs@))
            ==> merged@.goal_reachable(),
{
    let ghost views = views_of(graphs@);
    let mut graphs = graphs;
    let count = graphs.len();
    let mut merged = graphs.remove(0);
    proof {
        assert(views.subrange(0, 1).drop_last() =~= Seq::empty());
        assert(merged@ == views[0]);
        assert(merge_all(views.subrange(0, 1)) == views[0]);
        assert(views_of(graphs@) =~= views.subrange(1, count as int));
    }
    let mut done: usize = 1;
    while done < count
        invariant
            count == views.len(),
            1 <= done <= count,
            graphs.len() == count - done,
            can_merge(views),
            views_of(graphs@) == views.subrange(done as int, count as int),
            merged@ == merge_all(views.subrange(0, done as int)),
        decreases count - done,
    {
        let ghost waiting = graphs@;
        let next = graphs.remove(0);
        proof {
            let front = views.subrange(0, done as int);
            let longer = views.subrange(0, done + 1);
            assert(next@ == views[done as int]) by {
                assert(views_of(waiting)[0] == waiting[0]@);
                assert(views.subrange(done as int, count as int)[0] == views[done as int]);
            }
            assert forall|i: int| 0 <= i < graphs@.len() implies views_of(graphs@)[i]
                == views.subrange(done + 1, count as int)[i] by {
                assert(graphs@[i] == waiting[i + 1]);
                assert(views_of(waiting)[i + 1] == waiting[i + 1]@);
                assert(views.subrange(done as int, count as int)[i + 1] == views[done + 1 + i]);
            }
            assert(views_of(graphs@) =~= views.subrange(done + 1, count as int));
            assert(longer.drop_last() =~= front);
            assert(longer.last() == views[done as int]);
            lemma_beginning_merges(views, done + 1);
        }
        attach_graph(&mut merged, next);
        done += 1;
    }
    proof {
        assert(views.subrange(0, count as int) =~= views);
        lemma_merge_counts(views);
        assert(merged@.nodes.len() == merged.nodes.len());
        if all_well_formed(views) {
            lemma_merge_all(views);
        }
    }
    merged
}

} // verus!
