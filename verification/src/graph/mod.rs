//! The processing graph: nodes, the sources of their inputs, and the order in
//! which they are processed.

pub mod error;
pub mod node_id;
mod topological_sort;
pub mod automation;
pub mod buffers;

pub use topological_sort::{is_walk, on_cycle, reaches_cycle};

use crate::graph::error::GraphError;
use crate::graph::node_id::NodeID;
use crate::keyed::{
    entries_view, has_key, keys_distinct, lemma_entries_push, lemma_entries_remove,
    lemma_entries_update, lemma_entries_update_view, lemma_entries_view_all, lemma_entries_view_index,
};
use crate::node::Node;
use vstd::prelude::*;

verus! {

/// Where an input of a node takes its data from.
#[derive(Debug, Clone, Copy, PartialEq, Eq, Structural)]
pub enum InputSource {
    /// The output at the given index of the given node.
    Edge(NodeID, usize),
    /// The values computed from the keyframes of the input.
    Keyframe,
    /// A buffer of zeros.
    Zero,
}

/// Some input of `to` takes its data from an output of `from`.
pub open spec fn spec_has_edge(
    sources: Map<(NodeID, usize), InputSource>,
    from: NodeID,
    to: NodeID,
) -> bool {
    exists|i: usize|
        #[trigger] sources.contains_key((to, i)) && (sources[(to, i)] matches InputSource::Edge(
            f,
            _,
        ) && f == from)
}

/// The input source that stays when the node `id` is removed.
pub open spec fn keeps_source(key: (NodeID, usize), source: InputSource, id: NodeID) -> bool {
    key.0 != id && !(source matches InputSource::Edge(f, _) && f == id)
}

/// The outcome of connecting `from` to `to` in a graph with these nodes:
/// the output must exist, then the input, and then both must carry the same type.
pub open spec fn spec_add_edge_result<N: Node>(
    nodes: Map<NodeID, N>,
    from: (NodeID, usize),
    to: (NodeID, usize),
) -> Result<(), GraphError> {
    let output_type = if nodes.contains_key(from.0) {
        nodes[from.0].spec_output_type(from.1 as int)
    } else {
        None
    };
    let input_type = if nodes.contains_key(to.0) {
        nodes[to.0].spec_input_type(to.1 as int)
    } else {
        None
    };
    if output_type is None {
        Err(GraphError::OutputTypeUnavailable(from.0, from.1))
    } else if input_type is None {
        Err(GraphError::InputTypeUnavailable(to.0, to.1))
    } else if output_type != input_type {
        Err(GraphError::NodeTypeMismatch((from.0, from.1, to.0, to.1)))
    } else {
        Ok(())
    }
}

/// Connecting two ports succeeds exactly when the output and the input both
/// exist and carry the same type, in sample size and in alignment; when both
/// exist and their types differ in either, the connection is refused as a
/// type mismatch naming both ports. A missing output is reported first, then
/// a missing input.
pub proof fn lemma_add_edge_needs_equal_types<N: Node>(
    nodes: Map<NodeID, N>,
    from: (NodeID, usize),
    to: (NodeID, usize),
)
    ensures
        spec_add_edge_result(nodes, from, to) is Ok <==> {
            &&& nodes.contains_key(from.0)
            &&& nodes.contains_key(to.0)
            &&& nodes[from.0].spec_output_type(from.1 as int) is Some
            &&& nodes[to.0].spec_input_type(to.1 as int) is Some
            &&& nodes[from.0].spec_output_type(from.1 as int)->Some_0.sample_size
                == nodes[to.0].spec_input_type(to.1 as int)->Some_0.sample_size
            &&& nodes[from.0].spec_output_type(from.1 as int)->Some_0.align
                == nodes[to.0].spec_input_type(to.1 as int)->Some_0.align
        },
        ({
            &&& nodes.contains_key(from.0)
            &&& nodes.contains_key(to.0)
            &&& nodes[from.0].spec_output_type(from.1 as int) is Some
            &&& nodes[to.0].spec_input_type(to.1 as int) is Some
            &&& (nodes[from.0].spec_output_type(from.1 as int)->Some_0.sample_size
                != nodes[to.0].spec_input_type(to.1 as int)->Some_0.sample_size
                || nodes[from.0].spec_output_type(from.1 as int)->Some_0.align
                != nodes[to.0].spec_input_type(to.1 as int)->Some_0.align)
        }) ==> spec_add_edge_result(nodes, from, to) == Err::<(), GraphError>(
            GraphError::NodeTypeMismatch((from.0, from.1, to.0, to.1)),
        ),
        !(nodes.contains_key(from.0) && nodes[from.0].spec_output_type(from.1 as int) is Some)
            ==> spec_add_edge_result(nodes, from, to) == Err::<(), GraphError>(
            GraphError::OutputTypeUnavailable(from.0, from.1),
        ),
        nodes.contains_key(from.0) && nodes[from.0].spec_output_type(from.1 as int) is Some && !(nodes.contains_key(
            to.0,
        ) && nodes[to.0].spec_input_type(to.1 as int) is Some) ==> spec_add_edge_result(nodes, from, to) == Err::<
            (),
            GraphError,
        >(GraphError::InputTypeUnavailable(to.0, to.1)),
{
}

/// Removing a node leaves no input source that feeds it, whatever its kind,
/// and no edge that leaves it; every other input source stays.
pub proof fn lemma_removed_node_leaves_no_source(key: (NodeID, usize), source: InputSource, id: NodeID)
    ensures
        keeps_source(key, source, id) ==> key.0 != id,
        keeps_source(key, source, id) ==> !(source matches InputSource::Edge(f, _) && f == id),
        !(source matches InputSource::Edge(f, _) && f == id) && key.0 != id ==> keeps_source(key, source, id),
{
}

/// Removing the edge into an input that had no source before it was connected
/// gives back the input sources from before.
pub proof fn lemma_remove_edge_undoes_add_edge(
    sources: Map<(NodeID, usize), InputSource>,
    from: (NodeID, usize),
    to: (NodeID, usize),
)
    requires
        !sources.contains_key(to),
    ensures
        sources.insert(to, InputSource::Edge(from.0, from.1)).remove(to) == sources,
{
    assert(sources.insert(to, InputSource::Edge(from.0, from.1)).remove(to) =~= sources);
}

/// Whether the input source stays when the node `id` is removed.
fn source_stays(key: (NodeID, usize), source: InputSource, id: &NodeID) -> (stays: bool)
    ensures
        stays == keeps_source(key, source, *id),
{
    match source {
        InputSource::Edge(from_node, _) => key.0 != *id && from_node != *id,
        _ => key.0 != *id,
    }
}

/// The entries that stay when the node `id` is removed.
fn retain_sources(sources: &Vec<((NodeID, usize), InputSource)>, id: &NodeID) -> (kept: Vec<
    ((NodeID, usize), InputSource),
>)
    requires
        keys_distinct(sources@),
    ensures
        keys_distinct(kept@),
        forall|key: (NodeID, usize)|
            #[trigger] entries_view(kept@).contains_key(key) <==> (entries_view(
                sources@,
            ).contains_key(key) && keeps_source(key, entries_view(sources@)[key], *id)),
        forall|key: (NodeID, usize)|
            #[trigger] entries_view(kept@).contains_key(key) ==> entries_view(kept@)[key]
                == entries_view(sources@)[key],
{
    let ghost old_sources = sources@;
    let ghost mut origin: Seq<int> = Seq::empty();
    let mut kept: Vec<((NodeID, usize), InputSource)> = Vec::new();
    let mut i: usize = 0;
    while i < sources.len()
        invariant
            sources@ == old_sources,
            i <= old_sources.len(),
            origin.len() == kept.len(),
            forall|k: int|
                #![trigger origin[k]]
                0 <= k < kept.len() ==> 0 <= origin[k] < i && kept@[k] == old_sources[origin[k]]
                    && keeps_source(old_sources[origin[k]].0, old_sources[origin[k]].1, *id),
            forall|k1: int, k2: int|
                0 <= k1 < k2 < kept.len() ==> #[trigger] origin[k1] < #[trigger] origin[k2],
            forall|j: int|
                #![trigger old_sources[j]]
                0 <= j < i && keeps_source(old_sources[j].0, old_sources[j].1, *id) ==> exists|
                    k: int,
                | 0 <= k < kept.len() && #[trigger] origin[k] == j,
        decreases old_sources.len() - i,
    {
        let entry = sources[i];
        let ghost prev_origin = origin;
        if source_stays(entry.0, entry.1, id) {
            kept.push(entry);
            proof {
                origin = origin.push(i as int);
            }
        }
        assert forall|j: int|
            0 <= j <= i && keeps_source(
                old_sources[j].0,
                old_sources[j].1,
                *id,
            ) implies exists|k: int| 0 <= k < kept.len() && #[trigger] origin[k] == j by {
            if j == i {
                assert(origin[origin.len() - 1] == i as int);
            } else {
                let k = choose|k: int| 0 <= k < prev_origin.len() && #[trigger] prev_origin[k] == j;
                assert(origin[k] == prev_origin[k]);
            }
        }
        i = i + 1;
    }
    proof {
        assert(keys_distinct(kept@)) by {
            assert forall|a: int, b: int|
                0 <= a < kept.len() && 0 <= b < kept.len() && a != b implies #[trigger] kept@[a].0
                != #[trigger] kept@[b].0 by {
                assert(origin[a] != origin[b]) by {
                    if a < b {
                        assert(origin[a] < origin[b]);
                    } else {
                        assert(origin[b] < origin[a]);
                    }
                }
                assert(kept@[a] == old_sources[origin[a]]);
                assert(kept@[b] == old_sources[origin[b]]);
            }
        }
        lemma_entries_view_all(old_sources);
        lemma_entries_view_all(kept@);
        assert forall|key: (NodeID, usize)|
            #[trigger] entries_view(kept@).contains_key(key) <==> (entries_view(
                old_sources,
            ).contains_key(key) && keeps_source(key, entries_view(old_sources)[key], *id)) by {
            if entries_view(kept@).contains_key(key) {
                let k = choose|k: int| 0 <= k < kept.len() && #[trigger] kept@[k].0 == key;
                assert(kept@[k] == old_sources[origin[k]]);
            }
            if entries_view(old_sources).contains_key(key) && keeps_source(
                key,
                entries_view(old_sources)[key],
                *id,
            ) {
                let j = choose|j: int| 0 <= j < old_sources.len() && #[trigger] old_sources[j].0 == key;
                assert(old_sources[j] == old_sources[j]);
                let k = choose|k: int| 0 <= k < kept.len() && #[trigger] origin[k] == j;
                assert(kept@[k].0 == key);
            }
        }
        assert forall|key: (NodeID, usize)|
            #[trigger] entries_view(kept@).contains_key(key) implies entries_view(kept@)[key]
            == entries_view(old_sources)[key] by {
            let k = choose|k: int| 0 <= k < kept.len() && #[trigger] kept@[k].0 == key;
            assert(kept@[k] == old_sources[origin[k]]);
        }
    }
    kept
}

/// A graph of processing nodes connected from outputs to inputs.
pub struct Graph<N> {
    // --- GRAPH STRUCTURE ---
    nodes: Vec<(NodeID, N)>,
    input_sources: Vec<((NodeID, usize), InputSource)>,
    input_id: NodeID,
    output_id: NodeID,
    // --- PROCESSING DATA ---
    sorted_nodes: Vec<NodeID>,
    // --- MISC ---
    next_node_id: u64,
}

impl<N> Graph<N> {
    /// No node id and no input occurs twice.
    pub closed spec fn wf(&self) -> bool {
        &&& keys_distinct(self.nodes@)
        &&& keys_distinct(self.input_sources@)
    }

    /// The nodes of the graph by their ids.
    pub closed spec fn node_map(&self) -> Map<NodeID, N> {
        entries_view(self.nodes@)
    }

    /// The source of each connected input, keyed by `(node, input index)`.
    pub closed spec fn source_map(&self) -> Map<(NodeID, usize), InputSource> {
        entries_view(self.input_sources@)
    }

    pub closed spec fn spec_input_id(&self) -> NodeID {
        self.input_id
    }

    pub closed spec fn spec_output_id(&self) -> NodeID {
        self.output_id
    }

    /// The processing order computed by the last successful sort.
    pub closed spec fn sorted(&self) -> Seq<NodeID> {
        self.sorted_nodes@
    }

    /// The id that the next added node receives.
    pub closed spec fn next_id(&self) -> u64 {
        self.next_node_id
    }

    /// Every node id lies below the id that the next added node receives.
    pub open spec fn ids_below_next(&self) -> bool {
        forall|k: NodeID| #[trigger] self.node_map().contains_key(k) ==> k.0 < self.next_id()
    }

    /// Some input of `to` is connected to an output of `from`.
    pub open spec fn has_edge(&self, from: NodeID, to: NodeID) -> bool {
        spec_has_edge(self.source_map(), from, to)
    }

    /// An empty graph whose input and output ids are both `NodeID(0)`.
    pub fn empty() -> (graph: Self)
        ensures
            graph.wf(),
            graph.node_map() == Map::<NodeID, N>::empty(),
            graph.source_map() == Map::<(NodeID, usize), InputSource>::empty(),
            graph.spec_input_id() == NodeID(0),
            graph.spec_output_id() == NodeID(0),
            graph.sorted() == Seq::<NodeID>::empty(),
            graph.next_id() == 0,
            graph.ids_below_next(),
    {
        let graph = Graph {
            nodes: Vec::new(),
            input_sources: Vec::new(),
            input_id: NodeID(0),
            output_id: NodeID(0),
            sorted_nodes: Vec::new(),
            next_node_id: 0,
        };
        assert(graph.node_map() =~= Map::<NodeID, N>::empty());
        assert(graph.source_map() =~= Map::<(NodeID, usize), InputSource>::empty());
        graph
    }

    // --- ID GENERATION ---
    /// Sets the next node ID to the given value.
    pub fn set_next_node_id(&mut self, next_node_id: u64)
        ensures
            final(self).next_id() == next_node_id,
            final(self).wf() == old(self).wf(),
            final(self).node_map() == old(self).node_map(),
            final(self).source_map() == old(self).source_map(),
            final(self).spec_input_id() == old(self).spec_input_id(),
            final(self).spec_output_id() == old(self).spec_output_id(),
            final(self).sorted() == old(self).sorted(),
    {
        self.next_node_id = next_node_id;
    }

    /// Some id from the next one on, below the largest `u64`, belongs to no node.
    pub open spec fn has_free_id(&self) -> bool {
        exists|v: u64| self.next_id() <= v < u64::MAX && !#[trigger] self.node_map().contains_key(NodeID(v))
    }

    /// Generates a new NodeID which is unique inside the graph: the first id
    /// from the next one on that no node has.
    fn generate_node_id(&mut self) -> (id: NodeID)
        requires
            old(self).wf(),
            old(self).has_free_id(),
        ensures
            !old(self).node_map().contains_key(id),
            old(self).next_id() <= id.0 < u64::MAX,
            forall|w: u64| old(self).next_id() <= w < id.0 ==> #[trigger] old(self).node_map().contains_key(NodeID(w)),
            final(self).next_id() == id.0 + 1,
            final(self).nodes == old(self).nodes,
            final(self).input_sources == old(self).input_sources,
            final(self).input_id == old(self).input_id,
            final(self).output_id == old(self).output_id,
            final(self).sorted_nodes == old(self).sorted_nodes,
    {
        proof {
            lemma_entries_view_all(self.nodes@);
        }
        let mut next = self.next_node_id;
        let mut taken = self.find_node(&NodeID(next)).is_some();
        while taken
            invariant
                self.wf(),
                *self == *old(self),
                old(self).has_free_id(),
                old(self).next_id() <= next < u64::MAX || taken,
                old(self).next_id() <= next,
                taken <==> old(self).node_map().contains_key(NodeID(next)),
                forall|w: u64| old(self).next_id() <= w < next ==> #[trigger] old(self).node_map().contains_key(NodeID(w)),
                exists|v: u64| next <= v < u64::MAX && !#[trigger] old(self).node_map().contains_key(NodeID(v)),
            decreases u64::MAX - next,
        {
            proof {
                let v = choose|v: u64| next <= v < u64::MAX && !#[trigger] old(self).node_map().contains_key(NodeID(v));
                assert(v != next);
            }
            next = next + 1;
            taken = self.find_node(&NodeID(next)).is_some();
        }
        proof {
            let v = choose|v: u64| next <= v < u64::MAX && !#[trigger] old(self).node_map().contains_key(NodeID(v));
        }
        self.next_node_id = next + 1;
        NodeID(next)
    }

    // --- NODE GETTING ---
    pub fn get_input_id(&self) -> (id: NodeID)
        ensures
            id == self.spec_input_id(),
    {
        self.input_id
    }

    pub fn get_output_id(&self) -> (id: NodeID)
        ensures
            id == self.spec_output_id(),
    {
        self.output_id
    }

    /// The nodes of the graph as `(id, node)` entries, each id once.
    pub fn get_node_map(&self) -> (entries: &Vec<(NodeID, N)>)
        requires
            self.wf(),
        ensures
            keys_distinct(entries@),
            entries_view(entries@) == self.node_map(),
    {
        &self.nodes
    }

    /// The nodes of the graph as `(id, node)` entries, to be changed in place.
    /// The graph stays well formed as long as no id then occurs twice.
    pub fn get_node_map_mut(&mut self) -> (entries: &mut Vec<(NodeID, N)>)
        ensures
            old(self).wf() ==> keys_distinct(entries@) && entries_view(entries@) == old(self).node_map(),
            old(self).wf() ==> (final(self).wf() <==> keys_distinct(final(entries)@)),
            final(self).node_map() == entries_view(final(entries)@),
            final(self).source_map() == old(self).source_map(),
            final(self).spec_input_id() == old(self).spec_input_id(),
            final(self).spec_output_id() == old(self).spec_output_id(),
            final(self).sorted() == old(self).sorted(),
            final(self).next_id() == old(self).next_id(),
    {
        &mut self.nodes
    }

    /// The processing order computed by the last successful sort.
    pub fn get_sorted_nodes(&self) -> (sorted: &Vec<NodeID>)
        ensures
            sorted@ == self.sorted(),
    {
        &self.sorted_nodes
    }

    /// The connected inputs as `((node, input index), source)` entries, each input once.
    pub fn get_input_sources(&self) -> (entries: &Vec<((NodeID, usize), InputSource)>)
        requires
            self.wf(),
        ensures
            keys_distinct(entries@),
            entries_view(entries@) == self.source_map(),
    {
        &self.input_sources
    }

    /// The position of the node `id` in the node entries.
    fn find_node(&self, id: &NodeID) -> (index: Option<usize>)
        requires
            self.wf(),
        ensures
            match index {
                Some(i) => i < self.nodes.len() && self.nodes@[i as int].0 == *id,
                None => !has_key(self.nodes@, *id),
            },
    {
        let mut i: usize = 0;
        while i < self.nodes.len()
            invariant
                i <= self.nodes.len(),
                forall|j: int| 0 <= j < i ==> self.nodes@[j].0 != *id,
            decreases self.nodes.len() - i,
        {
            if self.nodes[i].0 == *id {
                return Some(i);
            }
            i = i + 1;
        }
        None
    }

    /// The position of the input `key` in the input source entries.
    fn find_source(&self, key: &(NodeID, usize)) -> (index: Option<usize>)
        requires
            self.wf(),
        ensures
            match index {
                Some(i) => i < self.input_sources.len() && self.input_sources@[i as int].0 == *key,
                None => !has_key(self.input_sources@, *key),
            },
    {
        let mut i: usize = 0;
        while i < self.input_sources.len()
            invariant
                i <= self.input_sources.len(),
                forall|j: int| 0 <= j < i ==> self.input_sources@[j].0 != *key,
            decreases self.input_sources.len() - i,
        {
            let entry_key = self.input_sources[i].0;
            if entry_key.0 == key.0 && entry_key.1 == key.1 {
                return Some(i);
            }
            i = i + 1;
        }
        None
    }

    pub fn get_node(&self, id: &NodeID) -> (node: Option<&N>)
        requires
            self.wf(),
        ensures
            match node {
                Some(n) => self.node_map().contains_key(*id) && *n == self.node_map()[*id],
                None => !self.node_map().contains_key(*id),
            },
    {
        proof {
            lemma_entries_view_all(self.nodes@);
        }
        match self.find_node(id) {
            Some(i) => Some(&self.nodes[i].1),
            None => None,
        }
    }

    pub fn get_node_mut(&mut self, id: &NodeID) -> (node: Option<&mut N>)
        requires
            old(self).wf(),
        ensures
            match node {
                Some(n) => {
                    &&& old(self).node_map().contains_key(*id)
                    &&& *n == old(self).node_map()[*id]
                    &&& final(self).node_map() == old(self).node_map().insert(*id, *final(n))
                },
                None => {
                    &&& !old(self).node_map().contains_key(*id)
                    &&& final(self).node_map() == old(self).node_map()
                },
            },
            final(self).wf(),
            final(self).source_map() == old(self).source_map(),
            final(self).spec_input_id() == old(self).spec_input_id(),
            final(self).spec_output_id() == old(self).spec_output_id(),
            final(self).sorted() == old(self).sorted(),
            final(self).next_id() == old(self).next_id(),
    {
        broadcast use lemma_entries_update_view;

        proof {
            lemma_entries_view_all(self.nodes@);
        }
        match self.find_node(id) {
            Some(i) => {
                proof {
                    lemma_entries_view_index(self.nodes@, i as int);
                }
                Some(&mut self.nodes[i].1)
            },
            None => None,
        }
    }

    /// The source of the input `key`, if it is connected.
    pub fn get_input_source(&self, key: &(NodeID, usize)) -> (source: Option<InputSource>)
        requires
            self.wf(),
        ensures
            match source {
                Some(s) => self.source_map().contains_key(*key) && s == self.source_map()[*key],
                None => !self.source_map().contains_key(*key),
            },
    {
        proof {
            lemma_entries_view_all(self.input_sources@);
        }
        match self.find_source(key) {
            Some(i) => Some(self.input_sources[i].1),
            None => None,
        }
    }

    // --- NODE MANIPULATION ---
    pub fn set_input_id(&mut self, id: NodeID)
        ensures
            final(self).spec_input_id() == id,
            final(self).wf() == old(self).wf(),
            final(self).node_map() == old(self).node_map(),
            final(self).source_map() == old(self).source_map(),
            final(self).spec_output_id() == old(self).spec_output_id(),
            final(self).sorted() == old(self).sorted(),
            final(self).next_id() == old(self).next_id(),
    {
        self.input_id = id;
    }

    pub fn set_output_id(&mut self, id: NodeID)
        ensures
            final(self).spec_output_id() == id,
            final(self).wf() == old(self).wf(),
            final(self).node_map() == old(self).node_map(),
            final(self).source_map() == old(self).source_map(),
            final(self).spec_input_id() == old(self).spec_input_id(),
            final(self).sorted() == old(self).sorted(),
            final(self).next_id() == old(self).next_id(),
    {
        self.output_id = id;
    }

    /// Stores `node` under `id`, replacing the node that had this id.
    /// A graph holds finitely many nodes.
    pub proof fn lemma_node_map_finite(&self)
        requires
            self.wf(),
        ensures
            self.node_map().dom().finite(),
    {
        broadcast use vstd::seq_lib::seq_to_set_is_finite;

        lemma_entries_view_all(self.nodes@);
    }

    fn insert_node(&mut self, id: NodeID, node: N)
        requires
            old(self).wf(),
        ensures
            final(self).wf(),
            final(self).node_map() == old(self).node_map().insert(id, node),
            final(self).input_sources == old(self).input_sources,
            final(self).input_id == old(self).input_id,
            final(self).output_id == old(self).output_id,
            final(self).sorted_nodes == old(self).sorted_nodes,
            final(self).next_node_id == old(self).next_node_id,
    {
        match self.find_node(&id) {
            Some(i) => {
                proof {
                    lemma_entries_update(self.nodes@, i as int, node);
                }
                self.nodes.set(i, (id, node));
            },
            None => {
                proof {
                    lemma_entries_push(self.nodes@, id, node);
                }
                self.nodes.push((id, node));
            },
        }
    }

    /// Removes the node with the given NodeID from the graph, together with
    /// every input source that reads from it or feeds it.
    pub fn remove_node(&mut self, id: &NodeID)
        requires
            old(self).wf(),
        ensures
            final(self).wf(),
            final(self).node_map() == old(self).node_map().remove(*id),
            forall|key: (NodeID, usize)|
                #[trigger] final(self).source_map().contains_key(key) <==> (old(self).source_map().contains_key(key) && keeps_source(
                    key,
                    old(self).source_map()[key],
                    *id,
                )),
            forall|key: (NodeID, usize)|
                #[trigger] final(self).source_map().contains_key(key) ==> final(self).source_map()[key] == old(self).source_map()[key],
            forall|key: (NodeID, usize)| #[trigger] final(self).source_map().contains_key(key) ==> key.0 != *id,
            forall|key: (NodeID, usize)|
                #[trigger] final(self).source_map().contains_key(key) ==> !(final(self).source_map()[key] matches InputSource::Edge(
                    f,
                    _,
                ) && f == *id),
            final(self).spec_input_id() == old(self).spec_input_id(),
            final(self).spec_output_id() == old(self).spec_output_id(),
            final(self).sorted() == old(self).sorted(),
            final(self).next_id() == old(self).next_id(),
    {
        // Remove the edges connected to the node
        let kept = retain_sources(&self.input_sources, id);
        self.input_sources = kept;
        // Remove the node
        match self.find_node(id) {
            Some(i) => {
                proof {
                    lemma_entries_remove(self.nodes@, i as int);
                }
                self.nodes.remove(i);
            },
            None => {
                assert(self.node_map().remove(*id) =~= self.node_map());
            },
        }
    }

    // --- EDGE MANIPULATION ---
    /// Sets the source of the input `to`, replacing the one it had.
    fn set_source(&mut self, to: (NodeID, usize), source: InputSource)
        requires
            old(self).wf(),
        ensures
            final(self).wf(),
            final(self).source_map() == old(self).source_map().insert(to, source),
            final(self).nodes == old(self).nodes,
            final(self).input_id == old(self).input_id,
            final(self).output_id == old(self).output_id,
            final(self).sorted_nodes == old(self).sorted_nodes,
            final(self).next_node_id == old(self).next_node_id,
    {
        match self.find_source(&to) {
            Some(i) => {
                proof {
                    lemma_entries_update(self.input_sources@, i as int, source);
                }
                self.input_sources.set(i, (to, source));
            },
            None => {
                proof {
                    lemma_entries_push(self.input_sources@, to, source);
                }
                self.input_sources.push((to, source));
            },
        }
    }

    /// Connects the node's output to another nodes' input without any validation,
    /// but overwrites the existing edge if it exists.
    pub fn add_edge_unchecked(&mut self, from: (NodeID, usize), to: (NodeID, usize))
        requires
            old(self).wf(),
        ensures
            final(self).wf(),
            final(self).source_map() == old(self).source_map().insert(
                to,
                InputSource::Edge(from.0, from.1),
            ),
            final(self).node_map() == old(self).node_map(),
            final(self).spec_input_id() == old(self).spec_input_id(),
            final(self).spec_output_id() == old(self).spec_output_id(),
            final(self).sorted() == old(self).sorted(),
            final(self).next_id() == old(self).next_id(),
    {
        self.set_source(to, InputSource::Edge(from.0, from.1));
    }

    /// Sets the input `to` to read keyframe values or zeros, replacing its edge if it had one.
    pub fn set_input_source(&mut self, to: (NodeID, usize), source: InputSource)
        requires
            old(self).wf(),
        ensures
            final(self).wf(),
            final(self).source_map() == old(self).source_map().insert(to, source),
            final(self).node_map() == old(self).node_map(),
            final(self).spec_input_id() == old(self).spec_input_id(),
            final(self).spec_output_id() == old(self).spec_output_id(),
            final(self).sorted() == old(self).sorted(),
            final(self).next_id() == old(self).next_id(),
    {
        self.set_source(to, source);
    }

    /// Removes the edge from the graph.
    pub fn remove_edge(&mut self, to: &(NodeID, usize))
        requires
            old(self).wf(),
        ensures
            final(self).wf(),
            final(self).source_map() == old(self).source_map().remove(*to),
            final(self).node_map() == old(self).node_map(),
            final(self).spec_input_id() == old(self).spec_input_id(),
            final(self).spec_output_id() == old(self).spec_output_id(),
            final(self).sorted() == old(self).sorted(),
            final(self).next_id() == old(self).next_id(),
    {
        match self.find_source(to) {
            Some(i) => {
                proof {
                    lemma_entries_remove(self.input_sources@, i as int);
                }
                self.input_sources.remove(i);
            },
            None => {
                assert(self.source_map().remove(*to) =~= self.source_map());
            },
        }
    }

    /// Get all edges in the graph, as `(from_node, from_output, to_node, to_input)`.
    pub fn get_all_edges(&self) -> (edges: Vec<(NodeID, usize, NodeID, usize)>)
        requires
            self.wf(),
        ensures
            edges@.no_duplicates(),
            forall|i: int|
                0 <= i < edges.len() ==> #[trigger] self.source_map().contains_key(
                    (edges@[i].2, edges@[i].3),
                ) && self.source_map()[(edges@[i].2, edges@[i].3)] == InputSource::Edge(
                    edges@[i].0,
                    edges@[i].1,
                ),
            forall|key: (NodeID, usize)| #[trigger]
                self.source_map().contains_key(key) ==> match self.source_map()[key] {
                    InputSource::Edge(f, o) => edges@.contains((f, o, key.0, key.1)),
                    _ => true,
                },
    {
        proof {
            lemma_entries_view_all(self.input_sources@);
        }
        let ghost s = self.input_sources@;
        let mut edges: Vec<(NodeID, usize, NodeID, usize)> = Vec::new();
        let mut i: usize = 0;
        while i < self.input_sources.len()
            invariant
                self.wf(),
                s == self.input_sources@,
                i <= s.len(),
                forall|k: int|
                    #![trigger edges@[k]]
                    0 <= k < edges.len() ==> exists|j: int|
                        0 <= j < i && #[trigger] s[j].0 == (edges@[k].2, edges@[k].3) && s[j].1
                            == InputSource::Edge(edges@[k].0, edges@[k].1),
                forall|j: int|
                    0 <= j < i && (#[trigger] s[j].1 is Edge) ==> edges@.contains(
                        (s[j].1->Edge_0, s[j].1->Edge_1, s[j].0.0, s[j].0.1),
                    ),
                edges@.no_duplicates(),
            decreases s.len() - i,
        {
            let (to, source) = self.input_sources[i];
            if let InputSource::Edge(from_node, from_output) = source {
                assert(!edges@.contains((from_node, from_output, to.0, to.1))) by {
                    if edges@.contains((from_node, from_output, to.0, to.1)) {
                        let k = choose|k: int|
                            0 <= k < edges.len() && edges@[k] == (
                                from_node,
                                from_output,
                                to.0,
                                to.1,
                            );
                        let j = choose|j: int|
                            0 <= j < i && #[trigger] s[j].0 == (edges@[k].2, edges@[k].3)
                                && s[j].1 == InputSource::Edge(edges@[k].0, edges@[k].1);
                        assert(s[j].0 == s[i as int].0);
                    }
                }
                let ghost before = edges@;
                edges.push((from_node, from_output, to.0, to.1));
                assert(edges@[edges.len() - 1] == (from_node, from_output, to.0, to.1));
                assert forall|x: (NodeID, usize, NodeID, usize)| before.contains(x) implies edges@.contains(x) by {
                    let k = choose|k: int| 0 <= k < before.len() && before[k] == x;
                    assert(edges@[k] == x);
                }
            }
            i = i + 1;
        }
        proof {
            assert forall|k: int| 0 <= k < edges.len() implies #[trigger] self.source_map().contains_key(
                (edges@[k].2, edges@[k].3),
            ) && self.source_map()[(edges@[k].2, edges@[k].3)] == InputSource::Edge(
                edges@[k].0,
                edges@[k].1,
            ) by {
                let j = choose|j: int|
                    0 <= j < s.len() && #[trigger] s[j].0 == (edges@[k].2, edges@[k].3) && s[j].1
                        == InputSource::Edge(edges@[k].0, edges@[k].1);
                lemma_entries_view_index(s, j);
            }
            assert forall|key: (NodeID, usize)| #[trigger]
                self.source_map().contains_key(key) implies match self.source_map()[key] {
                InputSource::Edge(f, o) => edges@.contains((f, o, key.0, key.1)),
                _ => true,
            } by {
                let j = choose|j: int| 0 <= j < s.len() && #[trigger] s[j].0 == key;
                lemma_entries_view_index(s, j);
                if s[j].1 is Edge {
                    assert(edges@.contains((s[j].1->Edge_0, s[j].1->Edge_1, s[j].0.0, s[j].0.1)));
                }
            }
        }
        edges
    }
}

impl<N: Node> Graph<N> {
    // --- INITIALIZATION ---
    /// Creates a new Graph instance with the given input and output node.
    pub fn new(input_node: N, output_node: N) -> (graph: Self)
        ensures
            graph.wf(),
            graph.node_map().dom() == set![NodeID(0), NodeID(1)],
            graph.spec_input_id() == NodeID(0),
            graph.spec_output_id() == NodeID(1),
            graph.source_map() == Map::<(NodeID, usize), InputSource>::empty(),
            graph.sorted() == Seq::<NodeID>::empty(),
            graph.next_id() == 2,
            graph.ids_below_next(),
    {
        let mut graph = Graph::empty();
        // Register the input and output nodes
        assert(!graph.node_map().contains_key(NodeID(0)));
        let input_id = graph.add_node(input_node);
        assert(!graph.node_map().contains_key(NodeID(1)));
        let output_id = graph.add_node(output_node);
        graph.input_id = input_id;
        graph.output_id = output_id;
        assert(graph.node_map().dom() =~= set![NodeID(0), NodeID(1)]);
        graph
    }

    // --- NODE MANIPULATION ---
    /// Adds a new node to the graph, and returns the newly generated node ID:
    /// the first id from the next one on that no node has. The node's types are
    /// refreshed before it is stored.
    pub fn add_node(&mut self, node: N) -> (id: NodeID)
        requires
            old(self).wf(),
            old(self).has_free_id(),
        ensures
            !old(self).node_map().contains_key(id),
            old(self).next_id() <= id.0,
            forall|w: u64| old(self).next_id() <= w < id.0 ==> #[trigger] old(self).node_map().contains_key(NodeID(w)),
            final(self).next_id() == id.0 + 1,
            final(self).wf(),
            final(self).node_map().dom() == old(self).node_map().dom().insert(id),
            final(self).node_map().len() == old(self).node_map().len() + 1,
            final(self).node_map()[id].refreshes(&node),
            forall|k: NodeID|
                k != id && #[trigger] old(self).node_map().contains_key(k) ==> final(self).node_map()[k] == old(self).node_map()[k],
            final(self).source_map() == old(self).source_map(),
            final(self).spec_input_id() == old(self).spec_input_id(),
            final(self).spec_output_id() == old(self).spec_output_id(),
            final(self).sorted() == old(self).sorted(),
            old(self).ids_below_next() ==> id == NodeID(old(self).next_id()) && final(self).ids_below_next(),
    {
        let ghost before = *self;
        proof {
            self.lemma_node_map_finite();
        }
        let id = self.generate_node_id();
        proof {
            if before.ids_below_next() {
                assert(!before.node_map().contains_key(NodeID(before.next_id())));
            }
        }
        let mut node = node;
        // Update the node
        node.update_type_info();
        // Insert the node to the map
        self.insert_node(id, node);
        id
    }

    /// Adds a new node to the graph with the given ID, replacing the node that had it.
    /// The node's types are refreshed before it is stored.
    pub fn add_node_with_id(&mut self, id: NodeID, node: N)
        requires
            old(self).wf(),
        ensures
            final(self).wf(),
            final(self).node_map().dom() == old(self).node_map().dom().insert(id),
            final(self).node_map().len() == old(self).node_map().len() + if old(
                self,
            ).node_map().contains_key(id) {
                0int
            } else {
                1int
            },
            final(self).node_map()[id].refreshes(&node),
            forall|k: NodeID|
                k != id && #[trigger] old(self).node_map().contains_key(k) ==> final(self).node_map()[k] == old(self).node_map()[k],
            final(self).source_map() == old(self).source_map(),
            final(self).spec_input_id() == old(self).spec_input_id(),
            final(self).spec_output_id() == old(self).spec_output_id(),
            final(self).sorted() == old(self).sorted(),
            final(self).next_id() == old(self).next_id(),
    {
        proof {
            self.lemma_node_map_finite();
        }
        let mut node = node;
        // Update the node
        node.update_type_info();
        // Insert the node to the map
        self.insert_node(id, node);
    }

    /// Connects the node's output to another node's input, and returns an error if the type of the output and input are not the same, or if the node is not found.
    /// This function overwrites the existing edge if it exists.
    pub fn add_edge(&mut self, from: (NodeID, usize), to: (NodeID, usize)) -> (result: Result<
        (),
        GraphError,
    >)
        requires
            old(self).wf(),
        ensures
            final(self).wf(),
            result == spec_add_edge_result(old(self).node_map(), from, to),
            result is Ok ==> {
                &&& old(self).node_map().contains_key(from.0)
                &&& old(self).node_map().contains_key(to.0)
                &&& old(self).node_map()[from.0].spec_output_type(from.1 as int) is Some
                &&& old(self).node_map()[from.0].spec_output_type(from.1 as int) == old(
                    self,
                ).node_map()[to.0].spec_input_type(to.1 as int)
            },
            result is Ok ==> final(self).source_map() == old(self).source_map().insert(
                to,
                InputSource::Edge(from.0, from.1),
            ),
            result is Err ==> final(self).source_map() == old(self).source_map(),
            final(self).node_map() == old(self).node_map(),
            final(self).spec_input_id() == old(self).spec_input_id(),
            final(self).spec_output_id() == old(self).spec_output_id(),
            final(self).sorted() == old(self).sorted(),
            final(self).next_id() == old(self).next_id(),
    {
        proof {
            lemma_entries_view_all(self.nodes@);
        }
        // Check if the type of the output and input are the same
        let output_type = match self.find_node(&from.0) {
            Some(i) => match self.nodes[i].1.get_output_type(from.1) {
                Some(t) => *t,
                None => {
                    return Err(GraphError::OutputTypeUnavailable(from.0, from.1));
                },
            },
            None => {
                return Err(GraphError::OutputTypeUnavailable(from.0, from.1));
            },
        };
        let input_type = match self.find_node(&to.0) {
            Some(i) => match self.nodes[i].1.get_input_type(to.1) {
                Some(t) => *t,
                None => {
                    return Err(GraphError::InputTypeUnavailable(to.0, to.1));
                },
            },
            None => {
                return Err(GraphError::InputTypeUnavailable(to.0, to.1));
            },
        };
        if output_type.sample_size != input_type.sample_size || output_type.align
            != input_type.align {
            return Err(GraphError::NodeTypeMismatch((from.0, from.1, to.0, to.1)));
        }
        self.set_source(to, InputSource::Edge(from.0, from.1));
        Ok(())
    }

    // --- TYPE INFO UPDATING ---
    /// Refreshes the types of every node.
    pub fn update_type_info(&mut self)
        requires
            old(self).wf(),
        ensures
            final(self).wf(),
            final(self).node_map().dom() == old(self).node_map().dom(),
            forall|k: NodeID| #[trigger]
                final(self).node_map().contains_key(k) ==> final(self).node_map()[k].refreshes(
                    &old(self).node_map()[k],
                ),
            final(self).source_map() == old(self).source_map(),
            final(self).spec_input_id() == old(self).spec_input_id(),
            final(self).spec_output_id() == old(self).spec_output_id(),
            final(self).sorted() == old(self).sorted(),
            final(self).next_id() == old(self).next_id(),
    {
        let ghost ids = self.nodes@.map_values(|e: (NodeID, N)| e.0);
        let mut i: usize = 0;
        while i < self.nodes.len()
            invariant
                self.nodes.len() == old(self).nodes.len(),
                self.nodes@.map_values(|e: (NodeID, N)| e.0) == ids,
                ids == old(self).nodes@.map_values(|e: (NodeID, N)| e.0),
                self.input_sources == old(self).input_sources,
                self.input_id == old(self).input_id,
                self.output_id == old(self).output_id,
                self.sorted_nodes == old(self).sorted_nodes,
                self.next_node_id == old(self).next_node_id,
                i <= self.nodes.len(),
                forall|j: int| 0 <= j < i ==> #[trigger] self.nodes@[j].1.refreshes(&old(self).nodes@[j].1),
                forall|j: int| i <= j < self.nodes.len() ==> #[trigger] self.nodes@[j] == old(self).nodes@[j],
            decreases self.nodes.len() - i,
        {
            let ghost before = self.nodes@;
            self.nodes[i].1.update_type_info();
            assert forall|j: int| 0 <= j < self.nodes.len() && j != i implies #[trigger] self.nodes@[j] == before[j] by {}
            assert(self.nodes@.map_values(|e: (NodeID, N)| e.0) =~= before.map_values(
                |e: (NodeID, N)| e.0,
            )) by {
                assert forall|j: int| 0 <= j < self.nodes.len() implies self.nodes@[j].0
                    == before[j].0 by {}
            }
            i = i + 1;
        }
        proof {
            assert(keys_distinct(self.nodes@)) by {
                assert forall|a: int, b: int|
                    0 <= a < self.nodes.len() && 0 <= b < self.nodes.len() && a != b implies #[trigger] self.nodes@[a].0
                    != #[trigger] self.nodes@[b].0 by {
                    assert(ids[a] == self.nodes@[a].0 && ids[b] == self.nodes@[b].0);
                    assert(ids[a] == old(self).nodes@[a].0 && ids[b] == old(self).nodes@[b].0);
                }
            }
            lemma_entries_view_all(self.nodes@);
            lemma_entries_view_all(old(self).nodes@);
        }
    }
}

} // verus!
