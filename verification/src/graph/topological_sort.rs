use crate::graph::error::GraphError;
use crate::graph::node_id::NodeID;
use crate::graph::{spec_has_edge, Graph, InputSource};
use crate::keyed::{
    entries_view, keys_distinct, lemma_entries_push, lemma_entries_update, lemma_entries_view_all,
    lemma_entries_view_index,
};
use vstd::prelude::*;
use vstd::seq_lib::seq_to_set_is_finite;
use vstd::set_lib::lemma_len_subset;

verus! {

/// Each vertex of `p` is connected to the next one.
pub open spec fn is_walk(sources: Map<(NodeID, usize), InputSource>, p: Seq<NodeID>) -> bool {
    forall|i: int| 0 <= i < p.len() - 1 ==> spec_has_edge(sources, #[trigger] p[i], p[i + 1])
}

/// A walk of at least one edge leads from `n` back to `n`.
pub open spec fn on_cycle(sources: Map<(NodeID, usize), InputSource>, n: NodeID) -> bool {
    exists|p: Seq<NodeID>|
        #![trigger is_walk(sources, p)]
        p.len() >= 2 && p[0] == n && p[p.len() - 1] == n && is_walk(sources, p)
}

/// A walk that starts at one of `roots` visits some vertex twice.
pub open spec fn reaches_cycle(sources: Map<(NodeID, usize), InputSource>, roots: Set<NodeID>) -> bool {
    exists|p: Seq<NodeID>, k: int|
        #![trigger is_walk(sources, p), p[k]]
        p.len() >= 2 && roots.contains(p[0]) && 0 <= k < p.len() - 1 && p[k] == p[p.len() - 1]
            && is_walk(sources, p)
}

#[derive(Clone, Copy, PartialEq, Eq, Structural, Debug)]
enum SortState {
    Unvisited,
    Visiting,
    Visited,
}

/// The state of `n` during the search; a vertex that was never reached is unvisited.
spec fn status(states: Map<NodeID, SortState>, n: NodeID) -> SortState {
    if states.contains_key(n) {
        states[n]
    } else {
        SortState::Unvisited
    }
}

/// What holds between two steps of the depth-first search: the vertices being
/// visited form the current walk `path`, the finished ones are exactly those in
/// `finished`, every successor of a finished vertex is finished, and an edge
/// between finished vertices points to an earlier position.
#[verifier::opaque]
spec fn dfs_inv(
    src: Map<(NodeID, usize), InputSource>,
    states: Map<NodeID, SortState>,
    path: Seq<NodeID>,
    finished: Seq<NodeID>,
) -> bool {
    &&& forall|n: NodeID| #[trigger] states.contains_key(n) ==> states[n] != SortState::Unvisited
    &&& forall|n: NodeID| #[trigger] status(states, n) == SortState::Visiting <==> path.contains(n)
    &&& path.no_duplicates()
    &&& is_walk(src, path)
    &&& forall|n: NodeID| status(states, n) == SortState::Visited <==> #[trigger] finished.contains(n)
    &&& finished.no_duplicates()
    &&& forall|u: NodeID, v: NodeID|
        #![trigger spec_has_edge(src, u, v), status(states, u)]
        status(states, u) == SortState::Visited && spec_has_edge(src, u, v) ==> status(states, v)
            == SortState::Visited
    &&& forall|i: int, j: int|
        #![trigger spec_has_edge(src, finished[i], finished[j])]
        0 <= i < finished.len() && 0 <= j < finished.len() && spec_has_edge(
            src,
            finished[i],
            finished[j],
        ) ==> j < i
}

proof fn lemma_finished_iff_visited(
    src: Map<(NodeID, usize), InputSource>,
    states: Map<NodeID, SortState>,
    path: Seq<NodeID>,
    finished: Seq<NodeID>,
    n: NodeID,
)
    requires
        dfs_inv(src, states, path, finished),
    ensures
        status(states, n) == SortState::Visited <==> finished.contains(n),
        status(states, n) == SortState::Visiting <==> path.contains(n),
        status(states, n) == SortState::Unvisited ==> !states.contains_key(n),
{
    reveal(dfs_inv);
}

proof fn lemma_start_vertex(
    src: Map<(NodeID, usize), InputSource>,
    states: Map<NodeID, SortState>,
    path: Seq<NodeID>,
    finished: Seq<NodeID>,
    node: NodeID,
)
    requires
        dfs_inv(src, states, path, finished),
        status(states, node) == SortState::Unvisited,
        path.len() > 0 ==> spec_has_edge(src, path[path.len() - 1], node),
    ensures
        dfs_inv(src, states.insert(node, SortState::Visiting), path.push(node), finished),
{
    reveal(dfs_inv);
    let st = states.insert(node, SortState::Visiting);
    let p = path.push(node);
    assert(!path.contains(node));
    assert forall|n: NodeID| #[trigger] status(st, n) == SortState::Visiting <==> p.contains(n) by {
        if n != node {
            assert(status(st, n) == status(states, n));
            if path.contains(n) {
                let k = choose|k: int| 0 <= k < path.len() && path[k] == n;
                assert(p[k] == n);
            }
            if p.contains(n) {
                let k = choose|k: int| 0 <= k < p.len() && p[k] == n;
                assert(path[k] == n);
            }
        } else {
            assert(p[p.len() - 1] == node);
        }
    }
    assert forall|n: NodeID| status(st, n) == SortState::Visited <==> #[trigger] finished.contains(n) by {
        if n != node {
            assert(status(st, n) == status(states, n));
        } else {
            assert(!finished.contains(node));
        }
    }
    assert(p.no_duplicates()) by {
        assert forall|a: int, b: int| 0 <= a < p.len() && 0 <= b < p.len() && a != b implies p[a]
            != p[b] by {
            if a == path.len() as int {
                assert(path[b] == p[b]);
            } else if b == path.len() as int {
                assert(path[a] == p[a]);
            }
        }
    }
    assert(is_walk(src, p)) by {
        assert forall|i: int| 0 <= i < p.len() - 1 implies spec_has_edge(src, #[trigger] p[i], p[i + 1]) by {
            if i < path.len() - 1 {
                assert(p[i] == path[i] && p[i + 1] == path[i + 1]);
            }
        }
    }
    assert forall|u: NodeID, v: NodeID|
        status(st, u) == SortState::Visited && #[trigger] spec_has_edge(src, u, v) implies status(
        st,
        v,
    ) == SortState::Visited by {
        assert(u != node);
        assert(status(st, u) == status(states, u));
        assert(status(states, v) == SortState::Visited);
    }
}

proof fn lemma_finish_vertex(
    src: Map<(NodeID, usize), InputSource>,
    states: Map<NodeID, SortState>,
    path: Seq<NodeID>,
    finished: Seq<NodeID>,
    node: NodeID,
)
    requires
        dfs_inv(src, states, path.push(node), finished),
        forall|v: NodeID| #[trigger] spec_has_edge(src, node, v) ==> status(states, v) == SortState::Visited,
    ensures
        dfs_inv(src, states.insert(node, SortState::Visited), path, finished.push(node)),
{
    reveal(dfs_inv);
    let p = path.push(node);
    let st = states.insert(node, SortState::Visited);
    let f = finished.push(node);
    assert(p[p.len() - 1] == node);
    assert(p.contains(node));
    assert(status(states, node) == SortState::Visiting);
    assert(!finished.contains(node));
    assert forall|n: NodeID| #[trigger] status(st, n) == SortState::Visiting <==> path.contains(n) by {
        if n != node {
            assert(status(st, n) == status(states, n));
            if path.contains(n) {
                let k = choose|k: int| 0 <= k < path.len() && path[k] == n;
                assert(p[k] == n);
            }
            if p.contains(n) {
                let k = choose|k: int| 0 <= k < p.len() && p[k] == n;
                assert(k != path.len());
                assert(path[k] == n);
            }
        } else {
            if path.contains(node) {
                let k = choose|k: int| 0 <= k < path.len() && path[k] == node;
                assert(p[k] == node && p[path.len() as int] == node);
            }
        }
    }
    assert forall|n: NodeID| status(st, n) == SortState::Visited <==> #[trigger] f.contains(n) by {
        if n != node {
            assert(status(st, n) == status(states, n));
            if finished.contains(n) {
                let k = choose|k: int| 0 <= k < finished.len() && finished[k] == n;
                assert(f[k] == n);
            }
            if f.contains(n) {
                let k = choose|k: int| 0 <= k < f.len() && f[k] == n;
                assert(finished[k] == n);
            }
        } else {
            assert(f[f.len() - 1] == node);
        }
    }
    assert(path.no_duplicates()) by {
        assert forall|a: int, b: int|
            0 <= a < path.len() && 0 <= b < path.len() && a != b implies path[a] != path[b] by {
            assert(p[a] == path[a] && p[b] == path[b]);
        }
    }
    assert(is_walk(src, path)) by {
        assert forall|i: int| 0 <= i < path.len() - 1 implies spec_has_edge(src, #[trigger] path[i], path[i + 1]) by {
            assert(p[i] == path[i] && p[i + 1] == path[i + 1]);
        }
    }
    assert(f.no_duplicates()) by {
        assert forall|a: int, b: int| 0 <= a < f.len() && 0 <= b < f.len() && a != b implies f[a]
            != f[b] by {
            if a == finished.len() as int {
                assert(finished[b] == f[b]);
                assert(finished.contains(f[b]));
            } else if b == finished.len() as int {
                assert(finished[a] == f[a]);
                assert(finished.contains(f[a]));
            }
        }
    }
    assert forall|u: NodeID, v: NodeID|
        status(st, u) == SortState::Visited && #[trigger] spec_has_edge(src, u, v) implies status(
        st,
        v,
    ) == SortState::Visited by {
        if u == node {
            assert(status(states, v) == SortState::Visited);
        } else {
            assert(status(st, u) == status(states, u));
            assert(status(states, v) == SortState::Visited);
        }
    }
    assert forall|i: int, j: int|
        0 <= i < f.len() && 0 <= j < f.len() && #[trigger] spec_has_edge(src, f[i], f[j]) implies j
        < i by {
        if i == finished.len() as int {
            // the new vertex points to finished vertices only
            if j == finished.len() as int {
                assert(status(states, node) == SortState::Visited);
            }
        } else if j == finished.len() as int {
            // a finished vertex cannot point to a vertex still being visited
            assert(f[i] == finished[i]);
            assert(finished.contains(finished[i]));
            assert(status(states, finished[i]) == SortState::Visited);
            assert(status(states, node) == SortState::Visited);
        } else {
            assert(f[i] == finished[i] && f[j] == finished[j]);
        }
    }
}

/// Meeting a vertex that is still being visited closes a cycle.
proof fn lemma_back_edge(
    src: Map<(NodeID, usize), InputSource>,
    states: Map<NodeID, SortState>,
    path: Seq<NodeID>,
    finished: Seq<NodeID>,
    roots: Set<NodeID>,
    w: NodeID,
)
    requires
        dfs_inv(src, states, path, finished),
        path.len() > 0,
        roots.contains(path[0]),
        status(states, w) == SortState::Visiting,
        spec_has_edge(src, path[path.len() - 1], w),
    ensures
        on_cycle(src, w),
        reaches_cycle(src, roots),
{
    reveal(dfs_inv);
    assert(path.contains(w));
    let k = choose|k: int| 0 <= k < path.len() && path[k] == w;
    let lasso = path.push(w);
    assert(is_walk(src, lasso)) by {
        assert forall|i: int| 0 <= i < lasso.len() - 1 implies spec_has_edge(src, #[trigger] lasso[i], lasso[i + 1]) by {
            if i < path.len() - 1 {
                assert(lasso[i] == path[i] && lasso[i + 1] == path[i + 1]);
            } else {
                assert(lasso[i] == path[path.len() - 1]);
            }
        }
    }
    assert(lasso[k] == lasso[lasso.len() - 1]);
    assert(lasso[0] == path[0]);
    let cycle = lasso.subrange(k, lasso.len() as int);
    assert(is_walk(src, cycle)) by {
        assert forall|i: int| 0 <= i < cycle.len() - 1 implies spec_has_edge(src, #[trigger] cycle[i], cycle[i + 1]) by {
            assert(cycle[i] == lasso[k + i] && cycle[i + 1] == lasso[k + i + 1]);
        }
    }
    assert(cycle[0] == w && cycle[cycle.len() - 1] == w);
}

/// Along a walk through finished vertices the positions in `finished` strictly decrease.
proof fn lemma_walk_positions(
    src: Map<(NodeID, usize), InputSource>,
    states: Map<NodeID, SortState>,
    finished: Seq<NodeID>,
    p: Seq<NodeID>,
    k: int,
    m: int,
) -> (pos: int)
    requires
        dfs_inv(src, states, Seq::empty(), finished),
        is_walk(src, p),
        0 <= k <= m < p.len(),
        status(states, p[k]) == SortState::Visited,
    ensures
        0 <= pos < finished.len(),
        finished[pos] == p[m],
        forall|q: int|
            #![trigger finished[q]]
            0 <= q < finished.len() && finished[q] == p[k] ==> pos <= q - (m - k),
    decreases m - k,
{
    reveal(dfs_inv);
    if m == k {
        assert(finished.contains(p[k]));
        let q0 = choose|q: int| 0 <= q < finished.len() && finished[q] == p[k];
        assert forall|q: int| 0 <= q < finished.len() && finished[q] == p[k] implies q0 <= q by {
            assert(finished.no_duplicates());
        }
        q0
    } else {
        let prev = lemma_walk_positions(src, states, finished, p, k, m - 1);
        assert(finished[prev] == p[m - 1]);
        assert(finished.contains(p[m - 1]));
        assert(spec_has_edge(src, p[m - 1], p[m]));
        assert(status(states, p[m - 1]) == SortState::Visited);
        assert(status(states, p[m]) == SortState::Visited);
        assert(finished.contains(p[m]));
        let q = choose|q: int| 0 <= q < finished.len() && finished[q] == p[m];
        assert(spec_has_edge(src, finished[prev], finished[q]));
        q
    }
}

/// The order of the finished vertices, reversed, without the two vertices `a` and `b`.
fn reversed_without(
    finished: &Vec<NodeID>,
    a: NodeID,
    b: NodeID,
    Ghost(src): Ghost<Map<(NodeID, usize), InputSource>>,
) -> (order: Vec<NodeID>)
    requires
        finished@.no_duplicates(),
        forall|i: int, j: int|
            #![trigger spec_has_edge(src, finished@[i], finished@[j])]
            0 <= i < finished.len() && 0 <= j < finished.len() && spec_has_edge(
                src,
                finished@[i],
                finished@[j],
            ) ==> j < i,
    ensures
        order@.no_duplicates(),
        forall|x: NodeID| #[trigger]
            order@.contains(x) <==> (finished@.contains(x) && x != a && x != b),
        forall|i: int, j: int|
            #![trigger spec_has_edge(src, order@[i], order@[j])]
            0 <= i < order.len() && 0 <= j < order.len() && spec_has_edge(
                src,
                order@[i],
                order@[j],
            ) ==> i < j,
{
    let ghost mut origin: Seq<int> = Seq::empty();
    let mut order: Vec<NodeID> = Vec::new();
    let mut i: usize = finished.len();
    while i > 0
        invariant
            i <= finished.len(),
            origin.len() == order.len(),
            forall|k: int|
                #![trigger origin[k]]
                0 <= k < order.len() ==> i <= origin[k] < finished.len() && order@[k]
                    == finished@[origin[k]],
            forall|k1: int, k2: int|
                0 <= k1 < k2 < order.len() ==> #[trigger] origin[k1] > #[trigger] origin[k2],
            forall|j: int|
                #![trigger finished@[j]]
                i <= j < finished.len() && finished@[j] != a && finished@[j] != b ==> exists|
                    k: int,
                | 0 <= k < order.len() && #[trigger] origin[k] == j,
            forall|k: int| 0 <= k < order.len() ==> #[trigger] order@[k] != a && order@[k] != b,
        decreases i,
    {
        i = i - 1;
        let x = finished[i];
        let ghost prev_origin = origin;
        if x != a && x != b {
            order.push(x);
            proof {
                origin = origin.push(i as int);
            }
        }
        assert forall|j: int|
            i <= j < finished.len() && finished@[j] != a && finished@[j] != b implies exists|
            k: int,
        | 0 <= k < order.len() && #[trigger] origin[k] == j by {
            if j == i {
                assert(origin[origin.len() - 1] == i as int);
            } else {
                assert(finished@[j] == finished@[j]);
                let k = choose|k: int| 0 <= k < prev_origin.len() && #[trigger] prev_origin[k] == j;
                assert(origin[k] == prev_origin[k]);
            }
        }
    }
    proof {
        assert(order@.no_duplicates()) by {
            assert forall|p: int, q: int|
                0 <= p < order.len() && 0 <= q < order.len() && p != q implies order@[p]
                != order@[q] by {
                assert(origin[p] != origin[q]) by {
                    if p < q {
                        assert(origin[p] > origin[q]);
                    } else {
                        assert(origin[q] > origin[p]);
                    }
                }
                assert(order@[p] == finished@[origin[p]]);
                assert(order@[q] == finished@[origin[q]]);
            }
        }
        assert forall|x: NodeID| #[trigger]
            order@.contains(x) <==> (finished@.contains(x) && x != a && x != b) by {
            if order@.contains(x) {
                let k = choose|k: int| 0 <= k < order.len() && order@[k] == x;
                assert(order@[k] == finished@[origin[k]]);
            }
            if finished@.contains(x) && x != a && x != b {
                let j = choose|j: int| 0 <= j < finished.len() && finished@[j] == x;
                assert(finished@[j] == finished@[j]);
                let k = choose|k: int| 0 <= k < order.len() && #[trigger] origin[k] == j;
                assert(order@[k] == x);
            }
        }
        assert forall|p: int, q: int|
            0 <= p < order.len() && 0 <= q < order.len() && #[trigger] spec_has_edge(
                src,
                order@[p],
                order@[q],
            ) implies p < q by {
            assert(order@[p] == finished@[origin[p]]);
            assert(order@[q] == finished@[origin[q]]);
            assert(spec_has_edge(src, finished@[origin[p]], finished@[origin[q]]));
            if q <= p {
                if q < p {
                    assert(origin[q] > origin[p]);
                }
            }
        }
    }
    order
}

/// The state of `id` in the state entries.
fn state_of(states: &Vec<(NodeID, SortState)>, id: NodeID) -> (state: SortState)
    requires
        keys_distinct(states@),
    ensures
        state == status(entries_view(states@), id),
{
    proof {
        lemma_entries_view_all(states@);
    }
    let mut i: usize = 0;
    while i < states.len()
        invariant
            i <= states.len(),
            keys_distinct(states@),
            forall|j: int| 0 <= j < i ==> states@[j].0 != id,
        decreases states.len() - i,
    {
        if states[i].0 == id {
            proof {
                lemma_entries_view_index(states@, i as int);
            }
            return states[i].1;
        }
        i = i + 1;
    }
    SortState::Unvisited
}

/// Records the state of `id`.
fn set_state(states: &mut Vec<(NodeID, SortState)>, id: NodeID, state: SortState)
    requires
        keys_distinct(old(states)@),
    ensures
        keys_distinct(final(states)@),
        entries_view(final(states)@) == entries_view(old(states)@).insert(id, state),
{
    let mut i: usize = 0;
    while i < states.len()
        invariant
            i <= states.len(),
            states@ == old(states)@,
            keys_distinct(states@),
            forall|j: int| 0 <= j < i ==> states@[j].0 != id,
        decreases states.len() - i,
    {
        if states[i].0 == id {
            proof {
                lemma_entries_update(states@, i as int, state);
            }
            states.set(i, (id, state));
            return;
        }
        i = i + 1;
    }
    proof {
        lemma_entries_push(states@, id, state);
    }
    states.push((id, state));
}

/// The entry connects an output of `node` to an input.
spec fn leaves(entry: ((NodeID, usize), InputSource), node: NodeID) -> bool {
    entry.1 matches InputSource::Edge(f, _) && f == node
}

impl<N> Graph<N> {
    /// The vertices that some edge points to.
    pub open spec fn edge_targets(&self) -> Set<NodeID> {
        Set::new(|v: NodeID| exists|u: NodeID| #[trigger] self.has_edge(u, v))
    }

    /// Every vertex that the search can reach: the nodes and the edge targets.
    pub open spec fn vertices(&self) -> Set<NodeID> {
        self.node_map().dom().union(self.edge_targets())
    }

    proof fn lemma_vertices_finite(&self)
        requires
            self.wf(),
        ensures
            self.vertices().finite(),
    {
        broadcast use seq_to_set_is_finite;

        lemma_entries_view_all(self.nodes@);
        lemma_entries_view_all(self.input_sources@);
        let targets = self.input_sources@.map_values(|e: ((NodeID, usize), InputSource)| e.0.0).to_set();
        assert(self.edge_targets().subset_of(targets)) by {
            assert forall|v: NodeID| self.edge_targets().contains(v) implies targets.contains(v) by {
                let u = choose|u: NodeID| #[trigger] self.has_edge(u, v);
                let i = choose|i: usize|
                    #[trigger] self.source_map().contains_key((v, i)) && (self.source_map()[(
                        v,
                        i,
                    )] matches InputSource::Edge(f, _) && f == u);
                let j = choose|j: int|
                    0 <= j < self.input_sources@.len() && #[trigger] self.input_sources@[j].0 == (v, i);
                assert(self.input_sources@.map_values(
                    |e: ((NodeID, usize), InputSource)| e.0.0,
                )[j] == v);
            }
        }
        lemma_len_subset(self.edge_targets(), targets);
    }

    /// The targets of the edges that leave `node`.
    fn neighbors(&self, node: NodeID) -> (next: Vec<NodeID>)
        requires
            self.wf(),
        ensures
            forall|v: NodeID| #[trigger] next@.contains(v) <==> self.has_edge(node, v),
    {
        proof {
            lemma_entries_view_all(self.input_sources@);
        }
        let ghost s = self.input_sources@;
        let mut next: Vec<NodeID> = Vec::new();
        let mut i: usize = 0;
        while i < self.input_sources.len()
            invariant
                self.wf(),
                s == self.input_sources@,
                i <= s.len(),
                forall|k: int| 0 <= k < next.len() ==> self.has_edge(node, #[trigger] next@[k]),
                forall|j: int| 0 <= j < i && leaves(#[trigger] s[j], node) ==> next@.contains(s[j].0.0),
            decreases s.len() - i,
        {
            let (to, source) = self.input_sources[i];
            let ghost before = next@;
            let is_leaving = match source {
                InputSource::Edge(from_node, _) => from_node == node,
                _ => false,
            };
            assert(is_leaving == leaves(s[i as int], node));
            if is_leaving {
                proof {
                    lemma_entries_view_index(s, i as int);
                    assert(self.source_map().contains_key((to.0, to.1)));
                }
                next.push(to.0);
                assert(next@[next.len() - 1] == to.0);
            }
            assert forall|x: NodeID| before.contains(x) implies next@.contains(x) by {
                let k = choose|k: int| 0 <= k < before.len() && before[k] == x;
                assert(next@[k] == x);
            }
            assert forall|k: int| 0 <= k < next.len() implies self.has_edge(node, #[trigger] next@[k]) by {
                if k < before.len() {
                    assert(next@[k] == before[k]);
                }
            }
            i = i + 1;
        }
        proof {
            assert forall|v: NodeID| #[trigger] next@.contains(v) <==> self.has_edge(node, v) by {
                if next@.contains(v) {
                    let k = choose|k: int| 0 <= k < next.len() && next@[k] == v;
                }
                if self.has_edge(node, v) {
                    let i = choose|i: usize|
                        #[trigger] self.source_map().contains_key((v, i)) && (self.source_map()[(
                            v,
                            i,
                        )] matches InputSource::Edge(f, _) && f == node);
                    let j = choose|j: int| 0 <= j < s.len() && #[trigger] s[j].0 == (v, i);
                    lemma_entries_view_index(s, j);
                    assert(leaves(s[j], node));
                }
            }
        }
        next
    }

    /// Sorts the graph recursively using depth-first search algorithm.
    fn search_recursively(
        &self,
        node: NodeID,
        states: &mut Vec<(NodeID, SortState)>,
        sorted: &mut Vec<NodeID>,
        Ghost(path): Ghost<Seq<NodeID>>,
    ) -> (result: Result<(), GraphError>)
        requires
            self.wf(),
            self.vertices().finite(),
            keys_distinct(old(states)@),
            dfs_inv(self.source_map(), entries_view(old(states)@), path, old(sorted)@),
            status(entries_view(old(states)@), node) == SortState::Unvisited,
            path.len() > 0 ==> self.has_edge(path[path.len() - 1], node),
            self.node_map().contains_key(path.push(node)[0]),
            entries_view(old(states)@).dom().subset_of(self.vertices()),
            self.vertices().contains(node),
        ensures
            keys_distinct(final(states)@),
            match result {
                Ok(_) => {
                    &&& dfs_inv(self.source_map(), entries_view(final(states)@), path, final(sorted)@)
                    &&& status(entries_view(final(states)@), node) == SortState::Visited
                    &&& final(sorted)@.len() >= old(sorted)@.len()
                    &&& final(sorted)@.subrange(0, old(sorted)@.len() as int) == old(sorted)@
                    &&& entries_view(final(states)@).dom().subset_of(self.vertices())
                    &&& entries_view(old(states)@).dom().subset_of(entries_view(final(states)@).dom())
                },
                Err(e) => {
                    &&& e is NodeCycle
                    &&& on_cycle(self.source_map(), e->NodeCycle_0)
                    &&& reaches_cycle(self.source_map(), self.node_map().dom())
                },
            },
        decreases self.vertices().difference(entries_view(old(states)@).dom()).len(),
    {
        let ghost src = self.source_map();
        let ghost entry_dom = entries_view(states@).dom();
        let ghost entry_sorted = sorted@;
        // Mark the node as visiting
        proof {
            lemma_finished_iff_visited(src, entries_view(states@), path, sorted@, node);
            lemma_start_vertex(src, entries_view(states@), path, sorted@, node);
        }
        set_state(states, node, SortState::Visiting);
        let ghost walk = path.push(node);
        assert(entries_view(states@).dom() == entry_dom.insert(node));
        // Check the neighboring nodes
        let neighbors = self.neighbors(node);
        let mut j: usize = 0;
        while j < neighbors.len()
            invariant
                self.wf(),
                self.vertices().finite(),
                src == self.source_map(),
                walk == path.push(node),
                walk.len() > 0 && walk[walk.len() - 1] == node,
                self.node_map().contains_key(walk[0]),
                forall|v: NodeID| #[trigger] neighbors@.contains(v) <==> self.has_edge(node, v),
                keys_distinct(states@),
                dfs_inv(src, entries_view(states@), walk, sorted@),
                j <= neighbors.len(),
                forall|k: int|
                    0 <= k < j ==> status(entries_view(states@), #[trigger] neighbors@[k])
                        == SortState::Visited,
                sorted@.len() >= entry_sorted.len(),
                sorted@.subrange(0, entry_sorted.len() as int) == entry_sorted,
                entries_view(states@).dom().subset_of(self.vertices()),
                entry_dom.insert(node).subset_of(entries_view(states@).dom()),
                !entry_dom.contains(node),
                entry_dom == entries_view(old(states)@).dom(),
            decreases neighbors.len() - j,
        {
            let neighbor = neighbors[j];
            assert(neighbors@.contains(neighbor));
            let state = state_of(states, neighbor);
            if state == SortState::Unvisited {
                proof {
                    let now = entries_view(states@).dom();
                    assert(self.edge_targets().contains(neighbor));
                    lemma_len_subset(
                        self.vertices().difference(now),
                        self.vertices().difference(entry_dom.insert(node)),
                    );
                    self.vertices().lemma_set_insert_diff_decreases(entry_dom, node);
                    assert(entries_view(old(states)@).dom() == entry_dom);
                }
                let ghost before_sorted = sorted@;
                let ghost before_states = entries_view(states@);
                match self.search_recursively(neighbor, states, sorted, Ghost(walk)) {
                    Ok(()) => {},
                    Err(e) => {
                        return Err(e);
                    },
                }
                proof {
                    assert forall|k: int| 0 <= k < j + 1 implies status(
                        entries_view(states@),
                        #[trigger] neighbors@[k],
                    ) == SortState::Visited by {
                        if k < j {
                            lemma_finished_iff_visited(src, before_states, walk, before_sorted, neighbors@[k]);
                            assert(before_sorted.contains(neighbors@[k]));
                            let q = choose|q: int|
                                0 <= q < before_sorted.len() && before_sorted[q] == neighbors@[k];
                            assert(sorted@.subrange(0, before_sorted.len() as int)[q] == sorted@[q]);
                            assert(sorted@.contains(neighbors@[k]));
                            lemma_finished_iff_visited(src, entries_view(states@), walk, sorted@, neighbors@[k]);
                        }
                    }
                    assert(sorted@.subrange(0, entry_sorted.len() as int) =~= entry_sorted) by {
                        assert forall|q: int| 0 <= q < entry_sorted.len() implies sorted@[q]
                            == entry_sorted[q] by {
                            assert(before_sorted.subrange(0, entry_sorted.len() as int)[q]
                                == before_sorted[q]);
                            assert(sorted@.subrange(0, before_sorted.len() as int)[q] == sorted@[q]);
                        }
                    }
                }
            } else if state == SortState::Visiting {
                proof {
                    lemma_back_edge(src, entries_view(states@), walk, sorted@, self.node_map().dom(), neighbor);
                }
                return Err(GraphError::NodeCycle(neighbor));
            }
            j = j + 1;
        }
        // Mark the node as visited
        proof {
            assert forall|v: NodeID| #[trigger] spec_has_edge(src, node, v) implies status(
                entries_view(states@),
                v,
            ) == SortState::Visited by {
                assert(neighbors@.contains(v));
                let k = choose|k: int| 0 <= k < neighbors.len() && neighbors@[k] == v;
            }
            lemma_finish_vertex(src, entries_view(states@), path, sorted@, node);
        }
        set_state(states, node, SortState::Visited);
        // Add the current node after searching all of its neighboring nodes
        let ghost before_push = sorted@;
        sorted.push(node);
        assert(sorted@.subrange(0, entry_sorted.len() as int) =~= entry_sorted) by {
            assert forall|q: int| 0 <= q < entry_sorted.len() implies sorted@[q] == entry_sorted[q] by {
                assert(before_push.subrange(0, entry_sorted.len() as int)[q] == before_push[q]);
            }
        }
        Ok(())
    }

    /// Sorts the processing graph in a topological order. Returns error if a cycle is found.
    /// Omits the input and output node.
    pub fn sort_graph(&mut self) -> (result: Result<(), GraphError>)
        requires
            old(self).wf(),
        ensures
            final(self).wf(),
            final(self).node_map() == old(self).node_map(),
            final(self).source_map() == old(self).source_map(),
            final(self).spec_input_id() == old(self).spec_input_id(),
            final(self).spec_output_id() == old(self).spec_output_id(),
            final(self).next_id() == old(self).next_id(),
            result is Ok <==> !reaches_cycle(old(self).source_map(), old(self).node_map().dom()),
            match result {
                Ok(_) => old(self).is_processing_order(final(self).sorted()),
                Err(e) => {
                    &&& e is NodeCycle
                    &&& on_cycle(old(self).source_map(), e->NodeCycle_0)
                    &&& final(self).sorted() == old(self).sorted()
                },
            },
    {
        let ghost src = self.source_map();
        let mut states: Vec<(NodeID, SortState)> = Vec::new();
        let mut sorted: Vec<NodeID> = Vec::new();
        proof {
            self.lemma_vertices_finite();
            lemma_entries_view_all(self.nodes@);
            assert(entries_view(states@) =~= Map::<NodeID, SortState>::empty());
            assert(is_walk(src, Seq::<NodeID>::empty()));
            reveal(dfs_inv);
        }
        // Sort the graph recursively
        let mut i: usize = 0;
        while i < self.nodes.len()
            invariant
                self.wf(),
                self.vertices().finite(),
                src == self.source_map(),
                forall|k: int|
                    0 <= k < self.nodes.len() ==> #[trigger] self.node_map().contains_key(
                        self.nodes@[k].0,
                    ),
                keys_distinct(states@),
                dfs_inv(src, entries_view(states@), Seq::empty(), sorted@),
                i <= self.nodes.len(),
                forall|k: int|
                    0 <= k < i ==> status(entries_view(states@), #[trigger] self.nodes@[k].0)
                        == SortState::Visited,
                entries_view(states@).dom().subset_of(self.vertices()),
            decreases self.nodes.len() - i,
        {
            let node = self.nodes[i].0;
            let state = state_of(&states, node);
            assert(self.node_map().contains_key(node));
            if state == SortState::Unvisited {
                assert(Seq::<NodeID>::empty().push(node)[0] == node);
                let ghost before_sorted = sorted@;
                let ghost before_states = entries_view(states@);
                match self.search_recursively(node, &mut states, &mut sorted, Ghost(Seq::empty())) {
                    Ok(()) => {},
                    Err(e) => {
                        return Err(e);
                    },
                }
                proof {
                    assert forall|k: int| 0 <= k < i + 1 implies status(
                        entries_view(states@),
                        #[trigger] self.nodes@[k].0,
                    ) == SortState::Visited by {
                        if k < i {
                            let x = self.nodes@[k].0;
                            lemma_finished_iff_visited(src, before_states, Seq::empty(), before_sorted, x);
                            assert(before_sorted.contains(x));
                            let q = choose|q: int| 0 <= q < before_sorted.len() && before_sorted[q] == x;
                            assert(sorted@.subrange(0, before_sorted.len() as int)[q] == sorted@[q]);
                            assert(sorted@.contains(x));
                            lemma_finished_iff_visited(src, entries_view(states@), Seq::empty(), sorted@, x);
                        }
                    }
                }
            } else if state == SortState::Visiting {
                // No vertex is being visited between two searches
                proof {
                    lemma_finished_iff_visited(src, entries_view(states@), Seq::empty(), sorted@, node);
                }
                return Err(GraphError::NodeCycle(node));
            }
            i = i + 1;
        }
        proof {
            self.lemma_no_cycle_after_search(entries_view(states@), sorted@);
            reveal(dfs_inv);
        }
        // Remove the input node and the output node, and reverse the order
        let order = reversed_without(&sorted, self.input_id, self.output_id, Ghost(src));
        proof {
            assert forall|x: NodeID| #[trigger] self.node_map().contains_key(x) implies sorted@.contains(x) by {
                let k = choose|k: int| 0 <= k < self.nodes.len() && #[trigger] self.nodes@[k].0 == x;
            }
        }
        self.sorted_nodes = order;
        Ok(())
    }

    /// `order` lists, without repetition and without the input and output node,
    /// every node of the graph and every vertex reachable from one, so that each
    /// edge between two listed vertices points forward.
    pub open spec fn is_processing_order(&self, order: Seq<NodeID>) -> bool {
        &&& order.no_duplicates()
        &&& forall|x: NodeID| #[trigger]
            self.node_map().contains_key(x) && x != self.spec_input_id() && x
                != self.spec_output_id() ==> order.contains(x)
        &&& forall|x: NodeID| #[trigger]
            order.contains(x) ==> x != self.spec_input_id() && x != self.spec_output_id()
                && self.vertices().contains(x)
        &&& forall|u: NodeID, v: NodeID|
            #![trigger order.contains(u), self.has_edge(u, v)]
            order.contains(u) && self.has_edge(u, v) && v != self.spec_input_id() && v
                != self.spec_output_id() ==> order.contains(v)
        &&& forall|i: int, j: int|
            #![trigger self.has_edge(order[i], order[j])]
            0 <= i < order.len() && 0 <= j < order.len() && self.has_edge(order[i], order[j]) ==> i
                < j
    }

    /// When the search has finished every node, no walk from a node visits a vertex twice.
    proof fn lemma_no_cycle_after_search(&self, states: Map<NodeID, SortState>, finished: Seq<NodeID>)
        requires
            dfs_inv(self.source_map(), states, Seq::empty(), finished),
            forall|x: NodeID| #[trigger]
                self.node_map().contains_key(x) ==> status(states, x) == SortState::Visited,
        ensures
            !reaches_cycle(self.source_map(), self.node_map().dom()),
    {
        reveal(dfs_inv);
        let src = self.source_map();
        if reaches_cycle(src, self.node_map().dom()) {
            let (p, k) = choose|p: Seq<NodeID>, k: int|
                #![trigger is_walk(src, p), p[k]]
                p.len() >= 2 && self.node_map().dom().contains(p[0]) && 0 <= k < p.len() - 1 && p[k]
                    == p[p.len() - 1] && is_walk(src, p);
            let last = p.len() - 1;
            // every vertex of the walk is finished
            let p0 = lemma_walk_positions(src, states, finished, p, 0, k);
            assert(finished.contains(p[k]));
            let q = lemma_walk_positions(src, states, finished, p, k, last);
            assert(finished[q] == p[k]);
            assert(q <= q - (last - k));
        }
    }
}

} // verus!
