//! Reachability over a topology, the depth-first walk that computes it,
//! and the check that a level can be finished at all.

use crate::error::LevelError;
use crate::graph::{Edge, GraphView, NodeId, PlatformGraph};
use vstd::prelude::*;

verus! {

impl GraphView {
    /// Some edge leads from node `u` to node `v`.
    pub open spec fn has_edge(self, u: int, v: int) -> bool {
        &&& 0 <= u < self.nodes.len()
        &&& exists|k: int|
            0 <= k < self.nodes[u].edges.len() && (#[trigger] self.nodes[u].edges[k]).to.0 == v
    }

    /// An edge leads from position `i` of `path` to the next position.
    pub open spec fn step(self, path: Seq<int>, i: int) -> bool {
        self.has_edge(path[i], path[i + 1])
    }

    /// `path` is a walk along edges; a single node is a walk of no steps.
    pub open spec fn is_path(self, path: Seq<int>) -> bool {
        &&& path.len() > 0
        &&& forall|i: int| 0 <= i < path.len() - 1 ==> #[trigger] self.step(path, i)
    }

    /// A walk along edges leads from `from` to `to`.
    pub open spec fn reaches(self, from: int, to: int) -> bool {
        exists|path: Seq<int>| #[trigger]
            self.is_path(path) && path.first() == from && path.last() == to
    }

    /// The invariant that every finished topology must meet: the goal can be
    /// reached from the start.
    pub open spec fn goal_reachable(self) -> bool {
        self.reaches(self.start.0 as int, self.goal.0 as int)
    }

    /// The order in which the depth-first walk from `node` first meets each
    /// node.
    pub open spec fn dfs_order(self, node: NodeId) -> Seq<NodeId> {
        self.dfs_from(Seq::new(self.nodes.len(), |i: int| false), seq![node], Seq::empty())
    }

    /// The rest of a depth-first walk: `visited` marks the nodes met so far,
    /// `stack` holds the nodes still to look at with the next one last, and
    /// `order` lists the nodes met so far, first one first.
    pub open spec fn dfs_from(
        self,
        visited: Seq<bool>,
        stack: Seq<NodeId>,
        order: Seq<NodeId>,
    ) -> Seq<NodeId>
        decreases unvisited_count(visited), stack.len(),
    {
        if stack.len() == 0 {
            order
        } else {
            let current = stack.last();
            let rest = stack.drop_last();
            if current.0 < visited.len() && current.0 < self.nodes.len() && !visited[current.0 as int] {
                let marked = visited.update(current.0 as int, true);
                proof {
                    lemma_marking_counts(visited, current.0 as int);
                }
                self.dfs_from(
                    marked,
                    rest + fresh_targets(self.nodes[current.0 as int].edges, marked),
                    order.push(current),
                )
            } else {
                self.dfs_from(visited, rest, order)
            }
        }
    }
}

/// How many entries of `visited` are still `false`.
pub open spec fn unvisited_count(visited: Seq<bool>) -> nat
    decreases visited.len(),
{
    if visited.len() == 0 {
        0
    } else {
        unvisited_count(visited.drop_last()) + if visited.last() {
            0nat
        } else {
            1nat
        }
    }
}

/// The targets of `edges` that `visited` does not mark, in edge order.
pub open spec fn fresh_targets(edges: Seq<Edge>, visited: Seq<bool>) -> Seq<NodeId>
    decreases edges.len(),
{
    if edges.len() == 0 {
        Seq::empty()
    } else {
        let to = edges.last().to;
        let earlier = fresh_targets(edges.drop_last(), visited);
        if to.0 < visited.len() && visited[to.0 as int] {
            earlier
        } else {
            earlier.push(to)
        }
    }
}

/// Marking one unmarked entry lowers the count of unmarked entries by one.
pub proof fn lemma_marking_counts(visited: Seq<bool>, i: int)
    requires
        0 <= i < visited.len(),
        !visited[i],
    ensures
        unvisited_count(visited.update(i, true)) + 1 == unvisited_count(visited),
    decreases visited.len(),
{
    let marked = visited.update(i, true);
    if i == visited.len() - 1 {
        assert(marked.drop_last() =~= visited.drop_last());
    } else {
        assert(marked.drop_last() =~= visited.drop_last().update(i, true));
        lemma_marking_counts(visited.drop_last(), i);
    }
}

/// Every node reaches itself.
pub proof fn lemma_reaches_self(g: GraphView, a: int)
    ensures
        g.reaches(a, a),
{
    let path = seq![a];
    assert(g.is_path(path));
    assert(path.first() == a && path.last() == a);
}

/// A walk can be extended by one edge.
pub proof fn lemma_reaches_step(g: GraphView, a: int, b: int, c: int)
    requires
        g.reaches(a, b),
        g.has_edge(b, c),
    ensures
        g.reaches(a, c),
{
    let path = choose|path: Seq<int>| #[trigger]
        g.is_path(path) && path.first() == a && path.last() == b;
    let longer = path.push(c);
    assert forall|i: int| 0 <= i < longer.len() - 1 implies #[trigger] g.step(longer, i) by {
        if i < path.len() - 1 {
            assert(g.step(path, i));
        }
    }
    assert(g.is_path(longer));
    assert(longer.first() == a && longer.last() == c);
}

/// Walks can be joined end to end.
pub proof fn lemma_reaches_trans(g: GraphView, a: int, b: int, c: int)
    requires
        g.reaches(a, b),
        g.reaches(b, c),
    ensures
        g.reaches(a, c),
{
    let second = choose|path: Seq<int>| #[trigger]
        g.is_path(path) && path.first() == b && path.last() == c;
    lemma_reaches_along(g, a, second, second.len() - 1);
}

/// If `a` reaches the first node of a walk, it reaches every node on it.
proof fn lemma_reaches_along(g: GraphView, a: int, path: Seq<int>, i: int)
    requires
        g.is_path(path),
        g.reaches(a, path.first()),
        0 <= i < path.len(),
    ensures
        g.reaches(a, path[i]),
    decreases i,
{
    if i > 0 {
        lemma_reaches_along(g, a, path, i - 1);
        assert(g.step(path, i - 1));
        lemma_reaches_step(g, a, path[i - 1], path[i]);
    }
}

/// A set of nodes is closed when no edge leaves it.
pub open spec fn closed_under_edges(g: GraphView, inside: Set<int>) -> bool {
    forall|u: int, v: int| inside.contains(u) && #[trigger] g.has_edge(u, v) ==> inside.contains(v)
}

/// A closed set holds everything that any of its members reaches.
pub proof fn lemma_closed_set_holds_reachable(g: GraphView, inside: Set<int>, a: int, b: int)
    requires
        closed_under_edges(g, inside),
        inside.contains(a),
        g.reaches(a, b),
    ensures
        inside.contains(b),
{
    let path = choose|path: Seq<int>| #[trigger]
        g.is_path(path) && path.first() == a && path.last() == b;
    lemma_closed_along(g, inside, path, path.len() - 1);
}

proof fn lemma_closed_along(g: GraphView, inside: Set<int>, path: Seq<int>, i: int)
    requires
        closed_under_edges(g, inside),
        g.is_path(path),
        inside.contains(path.first()),
        0 <= i < path.len(),
    ensures
        inside.contains(path[i]),
    decreases i,
{
    if i > 0 {
        lemma_closed_along(g, inside, path, i - 1);
        assert(g.step(path, i - 1));
    }
}

/// In a graph whose edges stay in range, whatever an in-range node reaches
/// is in range too.
pub proof fn lemma_reachable_in_range(g: GraphView, a: int, b: int)
    requires
        g.edges_in_range(),
        0 <= a < g.nodes.len(),
        g.reaches(a, b),
    ensures
        0 <= b < g.nodes.len(),
{
    let inside = Set::new(|v: int| 0 <= v < g.nodes.len());
    assert forall|u: int, v: int| inside.contains(u) && #[trigger] g.has_edge(u, v) implies inside.contains(v) by {
        let k = choose|k: int|
            0 <= k < g.nodes[u].edges.len() && (#[trigger] g.nodes[u].edges[k]).to.0 == v;
        assert(g.nodes[u].edges[k].to.0 < g.nodes.len());
    }
    lemma_closed_set_holds_reachable(g, inside, a, b);
}

/// What `fresh_targets` holds: exactly the unmarked targets.
proof fn lemma_fresh_targets(edges: Seq<Edge>, visited: Seq<bool>)
    ensures
        forall|k: int|
            0 <= k < edges.len() && !((#[trigger] edges[k]).to.0 < visited.len()
                && visited[edges[k].to.0 as int]) ==> fresh_targets(edges, visited).contains(
                edges[k].to,
            ),
        forall|i: int|
            0 <= i < fresh_targets(edges, visited).len() ==> exists|k: int|
                0 <= k < edges.len() && (#[trigger] edges[k]).to == (
                #[trigger] fresh_targets(edges, visited)[i]),
    decreases edges.len(),
{
    let fresh = fresh_targets(edges, visited);
    if edges.len() > 0 {
        let prefix = edges.drop_last();
        let earlier = fresh_targets(prefix, visited);
        let to = edges.last().to;
        lemma_fresh_targets(prefix, visited);
        assert forall|k: int|
            0 <= k < edges.len() && !((#[trigger] edges[k]).to.0 < visited.len()
                && visited[edges[k].to.0 as int]) implies fresh.contains(edges[k].to) by {
            if k < prefix.len() {
                assert(prefix[k] == edges[k]);
                assert(earlier.contains(edges[k].to));
                let i = choose|i: int| 0 <= i < earlier.len() && earlier[i] == edges[k].to;
                assert(fresh[i] == edges[k].to);
            } else {
                assert(fresh.last() == to);
            }
        }
        assert forall|i: int| 0 <= i < fresh.len() implies exists|k: int|
            0 <= k < edges.len() && (#[trigger] edges[k]).to == (#[trigger] fresh[i]) by {
            if i < earlier.len() {
                assert(fresh[i] == earlier[i]);
                let k = choose|k: int|
                    0 <= k < prefix.len() && (#[trigger] prefix[k]).to == earlier[i];
                assert(edges[k] == prefix[k]);
            } else {
                assert(edges[edges.len() - 1].to == fresh[i]);
            }
        }
    }
}

/// What holds between the steps of a depth-first walk from `root`.
spec fn walk_invariant(
    g: GraphView,
    root: NodeId,
    visited: Seq<bool>,
    stack: Seq<NodeId>,
    order: Seq<NodeId>,
) -> bool {
    &&& g.edges_in_range()
    &&& visited.len() == g.nodes.len()
    &&& order.no_duplicates()
    &&& forall|i: int|
        0 <= i < order.len() ==> (#[trigger] order[i]).0 < g.nodes.len() && visited[order[i].0 as int]
            && g.reaches(root.0 as int, order[i].0 as int)
    &&& forall|v: NodeId| v.0 < g.nodes.len() && visited[v.0 as int] ==> #[trigger] order.contains(v)
    &&& forall|i: int|
        0 <= i < stack.len() ==> (#[trigger] stack[i]).0 < g.nodes.len() && g.reaches(
            root.0 as int,
            stack[i].0 as int,
        )
    &&& forall|u: int, k: int|
        0 <= u < g.nodes.len() && visited[u] && 0 <= k < g.nodes[u].edges.len() ==> visited[(
        #[trigger] g.nodes[u].edges[k]).to.0 as int] || stack.contains(g.nodes[u].edges[k].to)
    &&& (root.0 < g.nodes.len() && visited[root.0 as int]) || stack.contains(root)
}

/// The walk ends with exactly the nodes that `root` reaches, each once.
proof fn lemma_walk(
    g: GraphView,
    root: NodeId,
    visited: Seq<bool>,
    stack: Seq<NodeId>,
    order: Seq<NodeId>,
)
    requires
        walk_invariant(g, root, visited, stack, order),
    ensures
        g.dfs_from(visited, stack, order).no_duplicates(),
        forall|v: NodeId| #[trigger]
            g.dfs_from(visited, stack, order).contains(v) <==> g.reaches(root.0 as int, v.0 as int),
    decreases unvisited_count(visited), stack.len(),
{
    if stack.len() == 0 {
        let inside = Set::new(|v: int| 0 <= v < g.nodes.len() && visited[v]);
        assert forall|u: int, v: int| inside.contains(u) && #[trigger] g.has_edge(u, v) implies inside.contains(v) by {
            let k = choose|k: int|
                0 <= k < g.nodes[u].edges.len() && (#[trigger] g.nodes[u].edges[k]).to.0 == v;
            assert(visited[g.nodes[u].edges[k].to.0 as int] || stack.contains(g.nodes[u].edges[k].to));
            assert(g.nodes[u].edges[k].to.0 < g.nodes.len());
        }
        assert forall|v: NodeId| #[trigger]
            order.contains(v) <==> g.reaches(root.0 as int, v.0 as int) by {
            if g.reaches(root.0 as int, v.0 as int) {
                lemma_closed_set_holds_reachable(g, inside, root.0 as int, v.0 as int);
                assert(inside.contains(v.0 as int));
            }
        }
    } else {
        let current = stack.last();
        let rest = stack.drop_last();
        assert(stack[stack.len() - 1] == current);
        if !visited[current.0 as int] {
            let marked = visited.update(current.0 as int, true);
            let edges = g.nodes[current.0 as int].edges;
            let fresh = fresh_targets(edges, marked);
            let next_stack = rest + fresh;
            let next_order = order.push(current);
            lemma_marking_counts(visited, current.0 as int);
            lemma_fresh_targets(edges, marked);
            assert(next_order.no_duplicates()) by {
                assert(!order.contains(current)) by {
                    if order.contains(current) {
                        let i = choose|i: int| 0 <= i < order.len() && order[i] == current;
                        assert(visited[order[i].0 as int]);
                    }
                }
            }
            assert forall|i: int| 0 <= i < next_order.len() implies (#[trigger] next_order[i]).0
                < g.nodes.len() && marked[next_order[i].0 as int] && g.reaches(
                root.0 as int,
                next_order[i].0 as int,
            ) by {
                if i < order.len() {
                    assert(next_order[i] == order[i]);
                }
            }
            assert forall|v: NodeId| v.0 < g.nodes.len() && marked[v.0 as int] implies #[trigger] next_order.contains(v) by {
                if v == current {
                    assert(next_order[order.len() as int] == current);
                } else {
                    assert(order.contains(v));
                    let i = choose|i: int| 0 <= i < order.len() && order[i] == v;
                    assert(next_order[i] == v);
                }
            }
            assert forall|i: int| 0 <= i < next_stack.len() implies (#[trigger] next_stack[i]).0
                < g.nodes.len() && g.reaches(root.0 as int, next_stack[i].0 as int) by {
                if i < rest.len() {
                    assert(next_stack[i] == stack[i]);
                } else {
                    let j = i - rest.len();
                    assert(next_stack[i] == fresh[j]);
                    let k = choose|k: int|
                        0 <= k < edges.len() && (#[trigger] edges[k]).to == fresh[j];
                    assert(g.nodes[current.0 as int].edges[k].to.0 < g.nodes.len());
                    assert(g.has_edge(current.0 as int, fresh[j].0 as int));
                    lemma_reaches_step(g, root.0 as int, current.0 as int, fresh[j].0 as int);
                }
            }
            assert forall|u: int, k: int|
                0 <= u < g.nodes.len() && marked[u] && 0 <= k < g.nodes[u].edges.len() implies marked[(
            #[trigger] g.nodes[u].edges[k]).to.0 as int] || next_stack.contains(
                g.nodes[u].edges[k].to,
            ) by {
                let to = g.nodes[u].edges[k].to;
                assert(to.0 < g.nodes.len());
                if !marked[to.0 as int] {
                    if u == current.0 as int {
                        assert(fresh.contains(edges[k].to));
                        let j = choose|j: int| 0 <= j < fresh.len() && fresh[j] == to;
                        assert(next_stack[rest.len() + j] == to);
                    } else {
                        assert(stack.contains(to));
                        let i = choose|i: int| 0 <= i < stack.len() && stack[i] == to;
                        assert(i < rest.len());
                        assert(next_stack[i] == to);
                    }
                }
            }
            assert(marked[root.0 as int] || next_stack.contains(root)) by {
                if !marked[root.0 as int] {
                    let i = choose|i: int| 0 <= i < stack.len() && stack[i] == root;
                    assert(i < rest.len());
                    assert(next_stack[i] == root);
                }
            }
            lemma_walk(g, root, marked, next_stack, next_order);
        } else {
            assert forall|i: int| 0 <= i < rest.len() implies (#[trigger] rest[i]).0
                < g.nodes.len() && g.reaches(root.0 as int, rest[i].0 as int) by {
                assert(rest[i] == stack[i]);
            }
            assert forall|u: int, k: int|
                0 <= u < g.nodes.len() && visited[u] && 0 <= k < g.nodes[u].edges.len() implies visited[(
            #[trigger] g.nodes[u].edges[k]).to.0 as int] || rest.contains(
                g.nodes[u].edges[k].to,
            ) by {
                let to = g.nodes[u].edges[k].to;
                if !visited[to.0 as int] {
                    let i = choose|i: int| 0 <= i < stack.len() && stack[i] == to;
                    assert(rest[i] == to);
                }
            }
            assert(visited[root.0 as int] || rest.contains(root)) by {
                if !visited[root.0 as int] {
                    let i = choose|i: int| 0 <= i < stack.len() && stack[i] == root;
                    assert(rest[i] == root);
                }
            }
            lemma_walk(g, root, visited, rest, order);
        }
    }
}

/// The depth-first order from a node lists exactly the nodes that it
/// reaches, each of them once.
pub proof fn lemma_dfs_order_is_reachable_set(g: GraphView, node: NodeId)
    requires
        g.edges_in_range(),
        node.0 < g.nodes.len(),
    ensures
        g.dfs_order(node).no_duplicates(),
        forall|v: NodeId| #[trigger]
            g.dfs_order(node).contains(v) <==> g.reaches(node.0 as int, v.0 as int),
{
    let visited = Seq::new(g.nodes.len(), |i: int| false);
    let stack = seq![node];
    let order = Seq::<NodeId>::empty();
    lemma_reaches_self(g, node.0 as int);
    assert(stack[0] == node);
    lemma_walk(g, node, visited, stack, order);
}

impl PlatformGraph {
    /// Every node that can be reached from `node`, `node` itself first, in
    /// the order in which a depth-first walk meets them.
    pub fn reachable_from(&self, node: NodeId) -> (reachable: Vec<NodeId>)
        requires
            self@.edges_in_range(),
            node.0 < self.nodes.len(),
        ensures
            reachable@ == self@.dfs_order(node),
            reachable@.no_duplicates(),
            forall|v: NodeId| #[trigger]
                reachable@.contains(v) <==> self@.reaches(node.0 as int, v.0 as int),
    {
        let count = self.nodes.len();
        let mut reachable: Vec<NodeId> = Vec::new();
        let mut visited: Vec<bool> = vec![false; count];
        let mut stack: Vec<NodeId> = vec![node];
        proof {
            assert(visited@ =~= Seq::new(self@.nodes.len(), |i: int| false));
            assert(stack@ =~= seq![node]);
            assert(reachable@ =~= Seq::empty());
        }
        while stack.len() > 0
            invariant
                count == self.nodes.len(),
                self@.edges_in_range(),
                visited.len() == count,
                forall|i: int| 0 <= i < stack.len() ==> (#[trigger] stack[i]).0 < count,
                self@.dfs_from(visited@, stack@, reachable@) == self@.dfs_order(node),
            decreases unvisited_count(visited@), stack.len(),
        {
            let ghost before = stack@;
            let current = stack.pop().unwrap();
            assert(current == before.last());
            assert(stack@ =~= before.drop_last());
            if !visited[current.0] {
                proof {
                    lemma_marking_counts(visited@, current.0 as int);
                }
                visited[current.0] = true;
                reachable.push(current);
                let ghost rest = stack@;
                let edges = &self.nodes[current.0].edges;
                assert(edges@ == self@.nodes[current.0 as int].edges);
                let mut k: usize = 0;
                while k < edges.len()
                    invariant
                        count == self.nodes.len(),
                        self@.edges_in_range(),
                        visited.len() == count,
                        current.0 < count,
                        edges@ == self@.nodes[current.0 as int].edges,
                        k <= edges.len(),
                        stack@ == rest + fresh_targets(edges@.subrange(0, k as int), visited@),
                        forall|i: int| 0 <= i < stack.len() ==> (#[trigger] stack[i]).0 < count,
                    decreases edges.len() - k,
                {
                    let to = edges[k].to;
                    assert(self@.nodes[current.0 as int].edges[k as int].to.0 < count);
                    assert(edges@.subrange(0, k + 1).drop_last() =~= edges@.subrange(0, k as int));
                    assert(edges@.subrange(0, k + 1).last() == edges@[k as int]);
                    if !visited[to.0] {
                        stack.push(to);
                        assert(stack@ =~= rest + fresh_targets(
                            edges@.subrange(0, k + 1),
                            visited@,
                        ));
                    }
                    k += 1;
                }
                assert(edges@.subrange(0, k as int) =~= edges@);
            }
        }
        proof {
            lemma_dfs_order_is_reachable_set(self@, node);
        }
        reachable
    }

    /// Succeeds if and only if the goal can be reached from the start;
    /// otherwise names the goal that cannot.
    pub fn validate(&self) -> (result: Result<(), LevelError>)
        requires
            self@.edges_in_range(),
            self.start.0 < self.nodes.len(),
        ensures
            result is Ok <==> self@.goal_reachable(),
            result is Err ==> result == Err::<(), LevelError>(
                LevelError::UnreachableGoal { goal: self.goal },
            ),
    {
        let reachable = self.reachable_from(self.start);
        let mut i: usize = 0;
        while i < reachable.len()
            invariant
                i <= reachable.len(),
                forall|j: int| 0 <= j < i ==> reachable@[j] != self.goal,
                forall|v: NodeId| #[trigger]
                    reachable@.contains(v) <==> self@.reaches(self.start.0 as int, v.0 as int),
            decreases reachable.len() - i,
        {
            if reachable[i] == self.goal {
                assert(reachable@[i as int] == self.goal);
                assert(reachable@.contains(self.goal));
                return Ok(());
            }
            i += 1;
        }
        assert(!reachable@.contains(self.goal));
        Err(LevelError::UnreachableGoal { goal: self.goal })
    }
}

} // verus!
